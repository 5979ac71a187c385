//! Fixed-width integers and length-prefixed UTF-8 fields, the building
//! blocks of every byte format in this crate.

use vstd::prelude::*;
use vstd::utf8::*;

verus! {

/// The eight bytes, least significant first, that stand for `x`.
pub open spec fn u64_bytes(x: u64) -> Seq<u8> {
    seq![
        (x & 0xff) as u8,
        ((x >> 8u64) & 0xff) as u8,
        ((x >> 16u64) & 0xff) as u8,
        ((x >> 24u64) & 0xff) as u8,
        ((x >> 32u64) & 0xff) as u8,
        ((x >> 40u64) & 0xff) as u8,
        ((x >> 48u64) & 0xff) as u8,
        ((x >> 56u64) & 0xff) as u8,
    ]
}

/// The number that the first eight bytes of `b` stand for, least significant first.
pub open spec fn u64_of(b: Seq<u8>) -> u64 {
    (b[0] as u64) | ((b[1] as u64) << 8u64) | ((b[2] as u64) << 16u64) | ((b[3] as u64) << 24u64)
        | ((b[4] as u64) << 32u64) | ((b[5] as u64) << 40u64) | ((b[6] as u64) << 48u64) | ((
    b[7] as u64) << 56u64)
}

/// Reading back the eight bytes of a number gives the number.
pub proof fn lemma_u64_round_trip(x: u64)
    ensures
        u64_of(u64_bytes(x)) == x,
        u64_bytes(x).len() == 8,
{
    let b = u64_bytes(x);
    assert(b[0] == (x & 0xff) as u8);
    assert(b[7] == ((x >> 56u64) & 0xff) as u8);
    assert(x == ((((x & 0xff) as u8) as u64) | ((((x >> 8u64) & 0xff) as u8) as u64) << 8u64 | ((((
    x >> 16u64) & 0xff) as u8) as u64) << 16u64 | ((((x >> 24u64) & 0xff) as u8) as u64) << 24u64
        | ((((x >> 32u64) & 0xff) as u8) as u64) << 32u64 | ((((x >> 40u64) & 0xff) as u8) as u64)
        << 40u64 | ((((x >> 48u64) & 0xff) as u8) as u64) << 48u64 | ((((x >> 56u64) & 0xff) as u8)
        as u64) << 56u64)) by (bit_vector);
}

/// The UTF-8 bytes of a text.
pub open spec fn text_bytes(s: Seq<char>) -> Seq<u8> {
    encode_utf8(s)
}

/// A field: the length of the text's UTF-8 bytes in eight bytes, then those bytes.
pub open spec fn field_bytes(s: Seq<char>) -> Seq<u8> {
    u64_bytes(text_bytes(s).len() as u64) + text_bytes(s)
}

/// The text of the field at the start of `b`, and how many bytes the field takes;
/// `None` where `b` does not start with a whole field of valid UTF-8.
pub open spec fn parse_field(b: Seq<u8>) -> Option<(Seq<char>, int)> {
    if b.len() < 8 {
        None
    } else {
        let n = u64_of(b) as int;
        if b.len() - 8 < n {
            None
        } else if !valid_utf8(b.subrange(8, 8 + n)) {
            None
        } else {
            Some((decode_utf8(b.subrange(8, 8 + n)), 8 + n))
        }
    }
}

/// A field can be read back, whatever follows it.
pub proof fn lemma_field_round_trip(s: Seq<char>, rest: Seq<u8>)
    requires
        text_bytes(s).len() <= u64::MAX,
    ensures
        parse_field(field_bytes(s) + rest) == Some((s, field_bytes(s).len() as int)),
{
    let t = text_bytes(s);
    let b = field_bytes(s) + rest;
    lemma_u64_round_trip(t.len() as u64);
    assert(b.subrange(0, 8) =~= u64_bytes(t.len() as u64));
    assert(u64_of(b) == u64_of(b.subrange(0, 8)));
    assert(b.subrange(8, 8 + t.len() as int) =~= t);
    encode_utf8_valid_utf8(s);
    encode_utf8_decode_utf8(s);
}

/// Appends the eight bytes of `x`.
pub fn push_u64(out: &mut Vec<u8>, x: u64)
    ensures
        final(out)@ == old(out)@ + u64_bytes(x),
{
    out.push((x & 0xff) as u8);
    out.push(((x >> 8u64) & 0xff) as u8);
    out.push(((x >> 16u64) & 0xff) as u8);
    out.push(((x >> 24u64) & 0xff) as u8);
    out.push(((x >> 32u64) & 0xff) as u8);
    out.push(((x >> 40u64) & 0xff) as u8);
    out.push(((x >> 48u64) & 0xff) as u8);
    out.push(((x >> 56u64) & 0xff) as u8);
    assert(out@ =~= old(out)@ + u64_bytes(x));
}

/// Reads the number held in the eight bytes at `pos`.
pub fn read_u64(buf: &[u8], pos: usize) -> (r: u64)
    requires
        pos + 8 <= buf@.len(),
    ensures
        r == u64_of(buf@.subrange(pos as int, pos + 8)),
{
    (buf[pos] as u64) | ((buf[pos + 1] as u64) << 8u64) | ((buf[pos + 2] as u64) << 16u64) | ((
    buf[pos + 3] as u64) << 24u64) | ((buf[pos + 4] as u64) << 32u64) | ((buf[pos + 5] as u64)
        << 40u64) | ((buf[pos + 6] as u64) << 48u64) | ((buf[pos + 7] as u64) << 56u64)
}

/// Appends every byte of `b`.
pub fn push_bytes(out: &mut Vec<u8>, b: &[u8])
    ensures
        final(out)@ == old(out)@ + b@,
{
    let mut i: usize = 0;
    while i < b.len()
        invariant
            0 <= i <= b@.len(),
            out@ == old(out)@ + b@.subrange(0, i as int),
        decreases b@.len() - i,
    {
        out.push(b[i]);
        i = i + 1;
        assert(out@ =~= old(out)@ + b@.subrange(0, i as int));
    }
    assert(b@.subrange(0, b@.len() as int) =~= b@);
}

/// Appends `s` as a field.
pub fn push_field(out: &mut Vec<u8>, s: &str)
    ensures
        final(out)@ == old(out)@ + field_bytes(s@),
        text_bytes(s@).len() <= u64::MAX,
{
    let b = s.as_bytes();
    let n = b.len();
    assert(text_bytes(s@).len() == n);
    push_u64(out, b.len() as u64);
    push_bytes(out, b);
    assert(out@ =~= old(out)@ + field_bytes(s@));
}

/// Relies on std::str::from_utf8: a slice of bytes is text exactly when it is
/// valid UTF-8, and then the text is what the bytes decode to.
#[verifier::external_body]
pub(crate) fn utf8_text(b: &[u8]) -> (r: Option<String>)
    ensures
        r is Some <==> valid_utf8(b@),
        r is Some ==> r->0@ == decode_utf8(b@),
{
    std::str::from_utf8(b).ok().map(|s| s.to_string())
}

/// Reads the field that starts at `pos`: its text and the position just past it.
pub fn read_field(buf: &[u8], pos: usize) -> (r: Option<(String, usize)>)
    requires
        pos <= buf@.len(),
    ensures
        match parse_field(buf@.subrange(pos as int, buf@.len() as int)) {
            Some((s, n)) => r matches Some((t, e)) && t@ == s && e == pos + n,
            None => r is None,
        },
{
    let ghost rest = buf@.subrange(pos as int, buf@.len() as int);
    if buf.len() - pos < 8 {
        return None;
    }
    let n = read_u64(buf, pos);
    assert(buf@.subrange(pos as int, pos + 8) =~= rest.subrange(0, 8));
    assert(u64_of(rest) == n);
    if ((buf.len() - pos - 8) as u64) < n {
        return None;
    }
    let start = pos + 8;
    let end = start + n as usize;
    let body = &buf[start..end];
    assert(body@ =~= rest.subrange(8, 8 + n));
    match utf8_text(body) {
        Some(s) => Some((s, end)),
        None => None,
    }
}

} // verus!
