//! The records of the log: their byte format, and reading them back.

use vstd::prelude::*;
use crate::codec::{
    field_bytes, lemma_field_round_trip, lemma_u64_round_trip, parse_field, push_field, read_field,
    text_bytes, u64_bytes, u64_of,
};
use crate::error::StoreError;

verus! {

/// A log entry: a key set to a value, or a key removed.
#[derive(Debug)]
pub enum Record {
    Put { key: String, value: String },
    Remove { key: String },
}

/// The mathematical value of a [`Record`].
pub enum RecordModel {
    Put { key: Seq<char>, value: Seq<char> },
    Remove { key: Seq<char> },
}

impl RecordModel {
    /// The key that the record sets or removes.
    pub open spec fn record_key(self) -> Seq<char> {
        match self {
            RecordModel::Put { key, .. } => key,
            RecordModel::Remove { key } => key,
        }
    }
}

impl View for Record {
    type V = RecordModel;

    open spec fn view(&self) -> RecordModel {
        match self {
            Record::Put { key, value } => RecordModel::Put { key: key@, value: value@ },
            Record::Remove { key } => RecordModel::Remove { key: key@ },
        }
    }
}

/// The first byte of a `Put` record.
pub const PUT_TAG: u8 = 0;

/// The first byte of a `Remove` record.
pub const REMOVE_TAG: u8 = 1;

/// Every text of the record has a byte length that eight bytes can hold.
pub open spec fn record_fits(r: RecordModel) -> bool {
    match r {
        RecordModel::Put { key, value } => text_bytes(key).len() <= u64::MAX && text_bytes(
            value,
        ).len() <= u64::MAX,
        RecordModel::Remove { key } => text_bytes(key).len() <= u64::MAX,
    }
}

/// The bytes of a record in the log: its tag, then its fields.
pub open spec fn record_bytes(r: RecordModel) -> Seq<u8> {
    match r {
        RecordModel::Put { key, value } => seq![PUT_TAG] + field_bytes(key) + field_bytes(value),
        RecordModel::Remove { key } => seq![REMOVE_TAG] + field_bytes(key),
    }
}

/// The record at the start of `b` and how many bytes it takes; `None` where
/// `b` does not start with a whole record.
pub open spec fn parse_record(b: Seq<u8>) -> Option<(RecordModel, int)> {
    if b.len() < 1 {
        None
    } else if b[0] == PUT_TAG {
        match parse_field(b.subrange(1, b.len() as int)) {
            Some((key, n1)) => match parse_field(b.subrange(1 + n1, b.len() as int)) {
                Some((value, n2)) => Some((RecordModel::Put { key, value }, 1 + n1 + n2)),
                None => None,
            },
            None => None,
        }
    } else if b[0] == REMOVE_TAG {
        match parse_field(b.subrange(1, b.len() as int)) {
            Some((key, n1)) => Some((RecordModel::Remove { key }, 1 + n1)),
            None => None,
        }
    } else {
        None
    }
}

/// A record's bytes read back as the record, whatever follows them.
pub proof fn lemma_record_round_trip(r: RecordModel, rest: Seq<u8>)
    requires
        record_fits(r),
    ensures
        parse_record(record_bytes(r) + rest) == Some((r, record_bytes(r).len() as int)),
{
    let b = record_bytes(r) + rest;
    match r {
        RecordModel::Put { key, value } => {
            let fk = field_bytes(key);
            let fv = field_bytes(value);
            assert(b.subrange(1, b.len() as int) =~= fk + (fv + rest));
            lemma_field_round_trip(key, fv + rest);
            assert(b.subrange(1 + fk.len() as int, b.len() as int) =~= fv + rest);
            lemma_field_round_trip(value, rest);
        },
        RecordModel::Remove { key } => {
            assert(b.subrange(1, b.len() as int) =~= field_bytes(key) + rest);
            lemma_field_round_trip(key, rest);
        },
    }
}

/// What a parse of `b` finds does not change when bytes are added after it.
pub proof fn lemma_parse_record_extend(b: Seq<u8>, rest: Seq<u8>)
    requires
        parse_record(b) is Some,
    ensures
        parse_record(b + rest) == parse_record(b),
{
    let (r, n) = parse_record(b)->0;
    lemma_parse_record_is_bytes(b);
    let tail = b.subrange(n, b.len() as int);
    assert(b =~= record_bytes(r) + tail);
    assert(b + rest =~= record_bytes(r) + (tail + rest));
    lemma_record_round_trip(r, tail);
    lemma_record_round_trip(r, tail + rest);
}

/// A whole record that a parse finds is exactly the bytes of that record.
pub proof fn lemma_parse_record_is_bytes(b: Seq<u8>)
    requires
        parse_record(b) is Some,
    ensures
        ({
            let (r, n) = parse_record(b)->0;
            &&& 0 < n <= b.len()
            &&& b.subrange(0, n) == record_bytes(r)
            &&& record_fits(r)
        }),
{
    let (r, n) = parse_record(b)->0;
    let b1 = b.subrange(1, b.len() as int);
    lemma_parse_field_is_bytes(b1);
    let (k, n1) = parse_field(b1)->0;
    if b[0] == PUT_TAG {
        let b2 = b.subrange(1 + n1, b.len() as int);
        lemma_parse_field_is_bytes(b2);
        let (v, n2) = parse_field(b2)->0;
        assert(b.subrange(0, n) =~= seq![PUT_TAG] + b1.subrange(0, n1) + b2.subrange(0, n2));
    } else {
        assert(b.subrange(0, n) =~= seq![REMOVE_TAG] + b1.subrange(0, n1));
    }
}

/// A whole field that a parse finds is exactly the bytes of that field.
pub proof fn lemma_parse_field_is_bytes(b: Seq<u8>)
    requires
        parse_field(b) is Some,
    ensures
        ({
            let (s, n) = parse_field(b)->0;
            &&& 8 <= n <= b.len()
            &&& b.subrange(0, n) == field_bytes(s)
            &&& text_bytes(s).len() <= u64::MAX
        }),
{
    let (s, n) = parse_field(b)->0;
    let body = b.subrange(8, n);
    vstd::utf8::decode_utf8_encode_utf8(body);
    let len = u64_of(b);
    lemma_u64_round_trip(len);
    assert(b.subrange(0, 8) =~= u64_bytes(len)) by {
        lemma_u64_bytes_of(b.subrange(0, 8));
        assert(u64_of(b.subrange(0, 8)) == u64_of(b));
    }
    assert(b.subrange(0, n) =~= b.subrange(0, 8) + body);
}

/// Eight bytes are the bytes of the number they stand for.
pub proof fn lemma_u64_bytes_of(b: Seq<u8>)
    requires
        b.len() == 8,
    ensures
        u64_bytes(u64_of(b)) =~= b,
{
    let (b0, b1, b2, b3, b4, b5, b6, b7) = (b[0], b[1], b[2], b[3], b[4], b[5], b[6], b[7]);
    let x = u64_of(b);
    assert(x == (b0 as u64) | ((b1 as u64) << 8u64) | ((b2 as u64) << 16u64) | ((b3 as u64)
        << 24u64) | ((b4 as u64) << 32u64) | ((b5 as u64) << 40u64) | ((b6 as u64) << 48u64) | ((
    b7 as u64) << 56u64));
    assert((x & 0xff) as u8 == b0 && ((x >> 8u64) & 0xff) as u8 == b1 && ((x >> 16u64) & 0xff) as u8
        == b2 && ((x >> 24u64) & 0xff) as u8 == b3 && ((x >> 32u64) & 0xff) as u8 == b4 && ((x
        >> 40u64) & 0xff) as u8 == b5 && ((x >> 48u64) & 0xff) as u8 == b6 && ((x >> 56u64) & 0xff)
        as u8 == b7) by (bit_vector)
        requires
            x == (b0 as u64) | ((b1 as u64) << 8u64) | ((b2 as u64) << 16u64) | ((b3 as u64)
                << 24u64) | ((b4 as u64) << 32u64) | ((b5 as u64) << 40u64) | ((b6 as u64)
                << 48u64) | ((b7 as u64) << 56u64),
    ;
}

impl Record {
    /// The bytes of this record in the log.
    pub fn encode(&self) -> (r: Vec<u8>)
        ensures
            r@ == record_bytes(self@),
            record_fits(self@),
    {
        let mut out: Vec<u8> = Vec::new();
        match self {
            Record::Put { key, value } => {
                out.push(PUT_TAG);
                push_field(&mut out, key.as_str());
                push_field(&mut out, value.as_str());
            },
            Record::Remove { key } => {
                out.push(REMOVE_TAG);
                push_field(&mut out, key.as_str());
            },
        }
        assert(out@ =~= record_bytes(self@));
        out
    }
}

/// Reads the record that starts at `pos`, and the position just past it.
pub fn decode_record(buf: &[u8], pos: usize) -> (r: Result<(Record, usize), StoreError>)
    requires
        pos <= buf@.len(),
    ensures
        match parse_record(buf@.subrange(pos as int, buf@.len() as int)) {
            Some((m, n)) => r matches Ok((x, e)) && x@ == m && e == pos + n,
            None => r matches Err(StoreError::Serialization),
        },
{
    let ghost b = buf@.subrange(pos as int, buf@.len() as int);
    if pos == buf.len() {
        return Err(StoreError::Serialization);
    }
    let tag = buf[pos];
    if tag != PUT_TAG && tag != REMOVE_TAG {
        return Err(StoreError::Serialization);
    }
    let ghost b1 = b.subrange(1, b.len() as int);
    assert(buf@.subrange(pos + 1, buf@.len() as int) =~= b1);
    let (key, p1) = match read_field(buf, pos + 1) {
        Some(f) => f,
        None => return Err(StoreError::Serialization),
    };
    if tag == REMOVE_TAG {
        return Ok((Record::Remove { key }, p1));
    }
    let ghost n1 = p1 - pos - 1;
    assert(buf@.subrange(p1 as int, buf@.len() as int) =~= b.subrange(1 + n1, b.len() as int));
    let (value, p2) = match read_field(buf, p1) {
        Some(f) => f,
        None => return Err(StoreError::Serialization),
    };
    Ok((Record::Put { key, value }, p2))
}

} // verus!
