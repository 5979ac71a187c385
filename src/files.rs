//! The names of segment files: `<generation>.log`, the generation in decimal.

use vstd::prelude::*;
use vstd::utf8::{is_ascii_chars, is_ascii_chars_encode_utf8};
use crate::codec::{text_bytes, utf8_text};

verus! {

/// The value of a decimal digit byte.
pub open spec fn digit_value(b: u8) -> nat {
    (b - 48) as nat
}

/// Whether a byte is an ASCII decimal digit.
pub open spec fn is_digit(b: u8) -> bool {
    48 <= b <= 57
}

/// The number that a sequence of decimal digit bytes stands for.
pub open spec fn digits_value(b: Seq<u8>) -> nat
    decreases b.len(),
{
    if b.len() == 0 {
        0
    } else {
        digits_value(b.drop_last()) * 10 + digit_value(b.last())
    }
}

/// The bytes of the suffix `.log`.
pub open spec fn log_suffix() -> Seq<u8> {
    seq![46u8, 108u8, 111u8, 103u8]
}

/// Whether `b` ends with `.log`.
pub open spec fn ends_with_log(b: Seq<u8>) -> bool {
    b.len() >= 4 && b.subrange(b.len() - 4, b.len() as int) == log_suffix()
}

/// `b` with every trailing `.log` taken off.
pub open spec fn strip_log(b: Seq<u8>) -> Seq<u8>
    decreases b.len(),
{
    if ends_with_log(b) {
        strip_log(b.subrange(0, b.len() - 4))
    } else {
        b
    }
}

/// The value of one or more decimal digits that fits in a `u64`; `None` for
/// any other bytes.
pub open spec fn digits_u64(d: Seq<u8>) -> Option<u64> {
    if d.len() > 0 && (forall|i: int| 0 <= i < d.len() ==> is_digit(#[trigger] d[i]))
        && digits_value(d) <= u64::MAX {
        Some(digits_value(d) as u64)
    } else {
        None
    }
}

/// The value of an unsigned integer in text: an optional `+`, then one or
/// more decimal digits, leading zeros allowed, with a value that fits in a
/// `u64`.
pub open spec fn unsigned_value(s: Seq<u8>) -> Option<u64> {
    if s.len() > 0 && s[0] == 43 {
        digits_u64(s.subrange(1, s.len() as int))
    } else {
        digits_u64(s)
    }
}

/// The generation that a file name stands for: the name ends with `.log`,
/// and what is left once every trailing `.log` is taken off is an unsigned
/// integer; `None` for any other name.
pub open spec fn log_generation(name: Seq<u8>) -> Option<u64> {
    if ends_with_log(name) {
        unsigned_value(strip_log(name))
    } else {
        None
    }
}

/// The decimal digits of a number, most significant first.
pub open spec fn decimal(n: nat) -> Seq<char>
    decreases n,
{
    if n < 10 {
        seq![(n + 48) as char]
    } else {
        decimal(n / 10).push(((n % 10) + 48) as char)
    }
}

/// The UTF-8 bytes of the decimal digits of `n`.
fn decimal_bytes(n: u64) -> (r: Vec<u8>)
    ensures
        r@ == text_bytes(decimal(n as nat)),
    decreases n,
{
    proof {
        lemma_decimal_digits(n as nat);
        is_ascii_chars_encode_utf8(decimal(n as nat));
    }
    if n < 10 {
        let mut v: Vec<u8> = Vec::new();
        v.push(n as u8 + 48u8);
        proof {
            let d = decimal(n as nat);
            assert(d[0] == (n + 48) as char);
            assert(v@ =~= text_bytes(d));
        }
        v
    } else {
        let mut v = decimal_bytes(n / 10);
        v.push((n % 10) as u8 + 48u8);
        proof {
            let d = decimal(n as nat);
            let p = decimal((n / 10) as nat);
            lemma_decimal_digits((n / 10) as nat);
            is_ascii_chars_encode_utf8(p);
            assert(d == p.push(((n % 10) + 48) as char));
            assert forall|i: int| 0 <= i < d.len() implies v@[i] == text_bytes(d)[i] by {
                if i < p.len() {
                    assert(d[i] == p[i]);
                }
            }
            assert(v@ =~= text_bytes(d));
        }
        v
    }
}

/// The decimal digits of a number are ASCII digits, and read back as the number.
proof fn lemma_decimal_digits(n: nat)
    ensures
        decimal(n).len() > 0,
        is_ascii_chars(decimal(n)),
        forall|i: int| 0 <= i < decimal(n).len() ==> is_digit(#[trigger] decimal(n)[i] as u8),
        digits_value(text_bytes(decimal(n))) == n,
        n > 0 ==> decimal(n)[0] != '0',
        n == 0 ==> decimal(n).len() == 1,
    decreases n,
{
    let d = decimal(n);
    if n < 10 {
        assert(d[0] == (n + 48) as char);
        assert(is_ascii_chars(d));
        is_ascii_chars_encode_utf8(d);
        let b = text_bytes(d);
        assert(b.drop_last() =~= Seq::<u8>::empty());
        assert(b[0] == d[0] as u8);
        assert(b.last() == b[0]);
        assert(digit_value(b.last()) == n);
        assert(digits_value(b) == digits_value(b.drop_last()) * 10 + digit_value(b.last()));
    } else {
        lemma_decimal_digits(n / 10);
        let p = decimal(n / 10);
        assert(d == p.push(((n % 10) + 48) as char));
        assert forall|i: int| 0 <= i < d.len() implies '\0' <= #[trigger] d[i] <= '\u{7f}' by {
            if i < p.len() {
                assert(d[i] == p[i]);
            }
        }
        assert(is_ascii_chars(d));
        is_ascii_chars_encode_utf8(d);
        is_ascii_chars_encode_utf8(p);
        let b = text_bytes(d);
        assert forall|i: int| 0 <= i < d.len() implies is_digit(#[trigger] d[i] as u8) by {
            if i < p.len() {
                assert(d[i] == p[i]);
            }
        }
        assert(b.drop_last() =~= text_bytes(p)) by {
            assert forall|i: int| 0 <= i < p.len() implies b.drop_last()[i] == text_bytes(p)[i] by {
                assert(d[i] == p[i]);
            }
        }
        assert(b.last() == d.last() as u8);
        assert(d.last() == ((n % 10) + 48) as char);
        assert(digit_value(b.last()) == n % 10);
        assert(digits_value(b) == digits_value(b.drop_last()) * 10 + digit_value(b.last()));
        assert((n / 10) * 10 + n % 10 == n);
        assert(d[0] == p[0]);
    }
}

/// The name of a segment's file reads back as its generation.
pub proof fn lemma_file_name_round_trip(generation: u64)
    ensures
        log_generation(text_bytes(decimal(generation as nat) + ".log"@)) == Some(generation),
{
    reveal_strlit(".log");
    let d = decimal(generation as nat);
    let s = d + ".log"@;
    lemma_decimal_digits(generation as nat);
    assert forall|i: int| 0 <= i < s.len() implies '\0' <= #[trigger] s[i] <= '\u{7f}' by {
        if i < d.len() {
            assert(s[i] == d[i]);
        }
    }
    is_ascii_chars_encode_utf8(s);
    is_ascii_chars_encode_utf8(d);
    let b = text_bytes(s);
    let n = d.len() as int;
    assert(b.subrange(n, b.len() as int) =~= log_suffix());
    assert(b.subrange(0, n) =~= text_bytes(d)) by {
        assert forall|i: int| 0 <= i < n implies b.subrange(0, n)[i] == text_bytes(d)[i] by {
            assert(s[i] == d[i]);
        }
    }
    assert forall|i: int| 0 <= i < n implies is_digit(#[trigger] b[i]) by {
        assert(s[i] == d[i]);
    }
    assert(b[0] == s[0] as u8);
    assert(s[0] == d[0]);
    let t = b.subrange(0, n);
    assert(t.subrange(0, n) =~= t);
    assert(t.last() == b[n - 1]);
    assert(is_digit(b[n - 1]));
    if n >= 4 {
        assert(t.subrange(n - 4, n)[3] == t[n - 1]);
    }
    assert(!ends_with_log(t));
    assert(strip_log(t) == t);
    assert(b.len() - 4 == n);
    assert(ends_with_log(b));
    assert(b.subrange(0, b.len() - 4) =~= t);
    assert(strip_log(b) == t);
    assert(is_digit(t[0]));
}

/// The name of the file of segment `generation`.
pub fn log_file_name(generation: u64) -> (r: String)
    ensures
        r@ == decimal(generation as nat) + ".log"@,
{
    let mut bytes = decimal_bytes(generation);
    bytes.push(46u8);
    bytes.push(108u8);
    bytes.push(111u8);
    bytes.push(103u8);
    let ghost name = decimal(generation as nat) + ".log"@;
    proof {
        reveal_strlit(".log");
        let d = decimal(generation as nat);
        lemma_decimal_digits(generation as nat);
        assert forall|i: int| 0 <= i < name.len() implies '\0' <= #[trigger] name[i] <= '\u{7f}' by {
            if i < d.len() {
                assert(name[i] == d[i]);
            }
        }
        is_ascii_chars_encode_utf8(name);
        is_ascii_chars_encode_utf8(d);
        assert forall|i: int| 0 <= i < name.len() implies bytes@[i] == text_bytes(name)[i] by {
            if i < d.len() {
                assert(name[i] == d[i]);
            }
        }
        assert(bytes@ =~= text_bytes(name));
        vstd::utf8::encode_utf8_valid_utf8(name);
        vstd::utf8::encode_utf8_decode_utf8(name);
    }
    match utf8_text(bytes.as_slice()) {
        Some(s) => s,
        None => String::new(),
    }
}

proof fn lemma_digits_value_grows(b: Seq<u8>, j: int)
    requires
        0 <= j <= b.len(),
    ensures
        digits_value(b.subrange(0, j)) <= digits_value(b),
    decreases b.len() - j,
{
    if j < b.len() {
        lemma_digits_value_grows(b, j + 1);
        let s = b.subrange(0, j + 1);
        assert(s.drop_last() =~= b.subrange(0, j));
    } else {
        assert(b.subrange(0, j) =~= b);
    }
}

/// Whether the first `end` bytes of `b` end with `.log`.
fn has_log_suffix(b: &[u8], end: usize) -> (r: bool)
    requires
        end <= b@.len(),
    ensures
        r == ends_with_log(b@.subrange(0, end as int)),
{
    let ghost p = b@.subrange(0, end as int);
    if end < 4 {
        return false;
    }
    let n = end - 4;
    let r = b[n] == 46u8 && b[n + 1] == 108u8 && b[n + 2] == 111u8 && b[n + 3] == 103u8;
    proof {
        let t = p.subrange(n as int, end as int);
        assert(t[0] == b@[n as int] && t[1] == b@[n + 1] && t[2] == b@[n + 2] && t[3] == b@[n + 3]);
        if r {
            assert(t =~= log_suffix());
        }
    }
    r
}

/// The value of the decimal digits `d`, if it fits in a `u64`.
fn digits_of(d: &[u8]) -> (r: Option<u64>)
    ensures
        r == digits_u64(d@),
{
    let n = d.len();
    if n == 0 {
        return None;
    }
    let mut value: u64 = 0;
    let mut i: usize = 0;
    while i < n
        invariant
            n == d@.len(),
            i <= n,
            value == digits_value(d@.subrange(0, i as int)),
            forall|j: int| 0 <= j < i ==> is_digit(#[trigger] d@[j]),
        decreases n - i,
    {
        let c = d[i];
        if c < 48u8 || c > 57u8 {
            return None;
        }
        let v = (c - 48u8) as u64;
        proof {
            assert(d@.subrange(0, i + 1).drop_last() =~= d@.subrange(0, i as int));
        }
        if value > (u64::MAX - v) / 10 {
            proof {
                assert(digits_value(d@.subrange(0, i + 1)) > u64::MAX) by (nonlinear_arith)
                    requires
                        digits_value(d@.subrange(0, i + 1)) == value * 10 + v,
                        value > (u64::MAX - v) / 10,
                        v <= 9,
                ;
                lemma_digits_value_grows(d@, i + 1);
            }
            return None;
        }
        proof {
            assert(value * 10 + v <= u64::MAX) by (nonlinear_arith)
                requires
                    value <= (u64::MAX - v) / 10,
                    v <= 9,
            ;
        }
        value = value * 10 + v;
        i = i + 1;
    }
    proof {
        assert(d@.subrange(0, n as int) =~= d@);
    }
    Some(value)
}

/// The generation that the file name `name` stands for, if it is the name of
/// a segment file.
pub fn generation_of(name: &str) -> (r: Option<u64>)
    ensures
        r == log_generation(text_bytes(name@)),
{
    let b = name.as_bytes();
    let len = b.len();
    proof {
        assert(b@.subrange(0, len as int) =~= b@);
    }
    if !has_log_suffix(b, len) {
        return None;
    }
    let mut end = len;
    while has_log_suffix(b, end)
        invariant
            end <= len,
            len == b@.len(),
            strip_log(b@) == strip_log(b@.subrange(0, end as int)),
        decreases end,
    {
        proof {
            assert(b@.subrange(0, end as int).subrange(0, end - 4) =~= b@.subrange(0, end - 4));
        }
        end = end - 4;
    }
    let rest = &b[0..end];
    assert(strip_log(b@) == rest@);
    if end > 0 && b[0] == 43u8 {
        let digits = &b[1..end];
        assert(digits@ =~= rest@.subrange(1, rest@.len() as int));
        digits_of(digits)
    } else {
        digits_of(rest)
    }
}

/// Whether `v` is in strictly ascending order.
pub open spec fn strictly_ascending(v: Seq<u64>) -> bool {
    forall|i: int, j: int| 0 <= i < j < v.len() ==> v[i] < v[j]
}

/// The generations of the segment files among `names`, each once, in
/// ascending order.
#[verifier::spinoff_prover]
pub fn sorted_generations(names: &Vec<String>) -> (r: Vec<u64>)
    ensures
        strictly_ascending(r@),
        forall|g: u64|
            r@.contains(g) <==> exists|i: int|
                0 <= i < names@.len() && log_generation(text_bytes((#[trigger] names@[i])@))
                    == Some(g),
{
    let mut out: Vec<u64> = Vec::new();
    let mut i: usize = 0;
    while i < names.len()
        invariant
            i <= names@.len(),
            strictly_ascending(out@),
            forall|g: u64|
                out@.contains(g) <==> exists|j: int|
                    0 <= j < i && log_generation(text_bytes((#[trigger] names@[j])@)) == Some(g),
        decreases names@.len() - i,
    {
        let parsed = generation_of(names[i].as_str());
        let ghost start = out@;
        if let Some(g) = parsed {
            let mut k: usize = 0;
            while k < out.len() && out[k] < g
                invariant
                    out@ == start,
                    k <= out@.len(),
                    forall|j: int| 0 <= j < k ==> out@[j] < g,
                decreases out@.len() - k,
            {
                k = k + 1;
            }
            if k == out.len() || out[k] != g {
                let ghost before = out@;
                out.insert(k, g);
                proof {
                    assert forall|a: int, c: int| 0 <= a < c < out@.len() implies out@[a] < out@[c] by {
                        if c == k {
                        } else if a == k {
                            assert(out@[c] == before[c - 1]);
                        } else {
                        }
                    }
                    assert forall|h: u64| out@.contains(h) <==> (before.contains(h) || h == g) by {
                        if out@.contains(h) {
                            let j = choose|j: int| 0 <= j < out@.len() && out@[j] == h;
                            if j < k {
                                assert(before[j] == h);
                            } else if j > k {
                                assert(before[j - 1] == h);
                            }
                        }
                        if before.contains(h) {
                            let j = choose|j: int| 0 <= j < before.len() && before[j] == h;
                            if j < k {
                                assert(out@[j] == h);
                            } else {
                                assert(out@[j + 1] == h);
                            }
                        }
                        if h == g {
                            assert(out@[k as int] == h);
                        }
                    }
                    assert(before == start);
                    assert forall|h: u64| out@.contains(h) <==> (start.contains(h) || parsed == Some(
                        h,
                    )) by {
                        assert(out@.contains(h) <==> (before.contains(h) || h == g));
                    }
                }
            } else {
                proof {
                    assert(out@ == start);
                    assert(out@[k as int] == g);
                    assert forall|h: u64| out@.contains(h) <==> (start.contains(h) || parsed == Some(
                        h,
                    )) by {
                        if h == g {
                            assert(out@[k as int] == h);
                        }
                    }
                }
            }
        } else {
            proof {
                assert forall|h: u64| out@.contains(h) <==> (start.contains(h) || parsed == Some(
                    h,
                )) by {}
            }
        }
        proof {
            assert forall|g: u64| start.contains(g) <==> exists|j: int|
                0 <= j < i && log_generation(text_bytes((#[trigger] names@[j])@)) == Some(g) by {}
            assert(parsed == log_generation(text_bytes(names@[i as int]@)));
        }
        i = i + 1;
        proof {
            assert forall|g: u64|
                out@.contains(g) <==> exists|j: int|
                    0 <= j < i && log_generation(text_bytes((#[trigger] names@[j])@)) == Some(g) by {
                if out@.contains(g) {
                    if start.contains(g) {
                        let j = choose|j: int|
                            0 <= j < i - 1 && log_generation(text_bytes((#[trigger] names@[j])@))
                                == Some(g);
                        assert(0 <= j < i);
                    } else {
                        assert(log_generation(text_bytes(names@[i - 1]@)) == Some(g));
                    }
                }
                if exists|j: int| 0 <= j < i && log_generation(text_bytes((#[trigger] names@[j])@)) == Some(g) {
                    let j = choose|j: int|
                        0 <= j < i && log_generation(text_bytes((#[trigger] names@[j])@)) == Some(g);
                    if j < i - 1 {
                        assert(start.contains(g));
                    } else {
                        assert(parsed == Some(g));
                    }
                }
            }
        }
    }
    out
}

} // verus!
