//! The byte form of one record: a key with a value, or a key with the mark
//! that it was deleted. A record is read from its end.

use crate::error::MalformedRecord;
use crate::le::{
    append_bytes, copy_range, le_bytes, le_value, lemma_le_bytes_len, lemma_le_value_of_bytes,
    lemma_radix_pow_values, push_le, read_le,
};
use crate::text::string_from_utf8;
use crate::value::{lemma_value_round_trip, parse_value, value_bytes, Value, ValueView, MAX_LEN};
use vstd::prelude::*;
use vstd::utf8::{decode_utf8, encode_utf8, valid_utf8};

verus! {

/// What stands in the place of a value's length where the key was deleted:
/// four bytes that read back as the signed number -1.
pub const TOMBSTONE: u32 = 0xffff_ffff;

/// The largest length that the key's length field of two bytes can hold:
/// the field is read back as a signed number.
pub const MAX_KEY_LEN: usize = 0x7fff;

/// What a stored value holds, if there is one.
pub open spec fn value_view(value: Option<Value>) -> Option<ValueView> {
    match value {
        Some(v) => Some(v@),
        None => None,
    }
}

/// What a borrowed value holds, if there is one.
pub open spec fn value_ref_view(value: Option<&Value>) -> Option<ValueView> {
    match value {
        Some(v) => Some(v@),
        None => None,
    }
}

/// The byte form of a record: the value's bytes and the four low bytes of
/// their count, or the tombstone mark alone; then the key in UTF-8 and the
/// two low bytes of its length.
pub open spec fn record_bytes(key: Seq<char>, value: Option<ValueView>) -> Seq<u8> {
    (match value {
        Some(v) => value_bytes(v) + le_bytes(value_bytes(v).len(), 4),
        None => le_bytes(TOMBSTONE as nat, 4),
    }) + encode_utf8(key) + le_bytes(encode_utf8(key).len(), 2)
}

/// The record that `b` holds, read back to front: the key's length, the
/// key, the value's length, and the value unless that length is negative.
/// `None` where a length reaches beyond `b`, the key is no valid UTF-8, or
/// the value's bytes hold no value.
pub open spec fn parse_record(b: Seq<u8>) -> Option<(Seq<char>, Option<ValueView>)> {
    if b.len() < 2 {
        None
    } else {
        let key_end = b.len() - 2;
        let key_len = le_value(b.subrange(key_end, b.len() as int));
        if key_len > MAX_KEY_LEN || key_len + 4 > key_end {
            None
        } else {
            let key_start = key_end - key_len;
            let key = b.subrange(key_start, key_end);
            let value_end = key_start - 4;
            let value_len = le_value(b.subrange(value_end, key_start));
            if !valid_utf8(key) {
                None
            } else if value_len > MAX_LEN {
                Some((decode_utf8(key), None))
            } else if value_len > value_end {
                None
            } else {
                match parse_value(b.subrange(value_end - value_len, value_end)) {
                    Some(v) => Some((decode_utf8(key), Some(v))),
                    None => None,
                }
            }
        }
    }
}

/// A key and a value fit a record where the key's UTF-8 form and the
/// value's byte form are no longer than their length fields can say.
pub open spec fn admissible(key: Seq<char>, value: Option<ValueView>) -> bool {
    &&& encode_utf8(key).len() <= MAX_KEY_LEN
    &&& value matches Some(v) ==> value_bytes(v).len() <= MAX_LEN
}

/// How long the byte form of a value is.
pub proof fn lemma_value_bytes_len(v: ValueView)
    ensures
        value_bytes(v).len() == encode_utf8(v.data).len() + 20,
{
    lemma_le_bytes_len(v.flags as nat, 8);
    lemma_le_bytes_len(v.exptime as nat, 8);
    lemma_le_bytes_len(encode_utf8(v.data).len(), 4);
}

/// Decoding the byte form of an admissible record gives the record.
pub proof fn lemma_record_round_trip(key: Seq<char>, value: Option<ValueView>)
    requires
        admissible(key, value),
    ensures
        parse_record(record_bytes(key, value)) == Some((key, value)),
{
    let b = record_bytes(key, value);
    let k = encode_utf8(key);
    let kl = le_bytes(k.len(), 2);
    lemma_radix_pow_values();
    lemma_le_value_of_bytes(k.len(), 2);
    vstd::utf8::encode_utf8_valid_utf8(key);
    vstd::utf8::encode_utf8_decode_utf8(key);
    let key_end = b.len() - 2;
    let key_start = key_end - k.len();
    let value_end = key_start - 4;
    match value {
        Some(v) => {
            let vb = value_bytes(v);
            let vl = le_bytes(vb.len(), 4);
            lemma_value_bytes_len(v);
            lemma_le_value_of_bytes(vb.len(), 4);
            lemma_value_round_trip(v);
            assert(b.subrange(key_end, b.len() as int) =~= kl);
            assert(b.subrange(key_start, key_end) =~= k);
            assert(b.subrange(value_end, key_start) =~= vl);
            assert(b.subrange(value_end - vb.len(), value_end) =~= vb);
        },
        None => {
            let vl = le_bytes(TOMBSTONE as nat, 4);
            lemma_le_value_of_bytes(TOMBSTONE as nat, 4);
            assert(b.subrange(key_end, b.len() as int) =~= kl);
            assert(b.subrange(key_start, key_end) =~= k);
            assert(b.subrange(value_end, key_start) =~= vl);
        },
    }
}

/// The byte form of the record that puts `value` under `key`, or that
/// deletes `key` where there is no value.
pub fn encode(key: &String, value: Option<&Value>) -> (record: Vec<u8>)
    ensures
        record@ == record_bytes(key@, value_ref_view(value)),
{
    let mut record: Vec<u8> = Vec::new();
    if let Some(v) = value {
        let value_bytes = v.as_bytes();
        append_bytes(&mut record, value_bytes.as_slice());
        push_le(&mut record, value_bytes.len() as u64, 4);
    } else {
        push_le(&mut record, TOMBSTONE as u64, 4);
    }
    let key_bytes = key.as_str().as_bytes();
    append_bytes(&mut record, key_bytes);
    push_le(&mut record, key_bytes.len() as u64, 2);
    record
}

/// Reads the record that `vec` holds.
pub fn decode(vec: Vec<u8>) -> (res: Result<(String, Option<Value>), MalformedRecord>)
    ensures
        match res {
            Ok((key, value)) => parse_record(vec@) == Some((key@, value_view(value))),
            Err(_) => parse_record(vec@) is None,
        },
{
    let bytes = vec.as_slice();
    let mut index = bytes.len();
    if index < 2 {
        return Err(MalformedRecord);
    }
    index -= 2;
    let key_len = read_le(bytes, index, 2);
    if key_len > MAX_KEY_LEN as u64 || key_len + 4 > index as u64 {
        return Err(MalformedRecord);
    }
    let key_len = key_len as usize;
    index -= key_len;
    let key = match string_from_utf8(copy_range(bytes, index, index + key_len)) {
        Some(key) => key,
        None => {
            return Err(MalformedRecord);
        },
    };
    index -= 4;
    let value_len = read_le(bytes, index, 4);
    if value_len > MAX_LEN as u64 {
        return Ok((key, None));
    }
    if value_len > index as u64 {
        return Err(MalformedRecord);
    }
    let value_len = value_len as usize;
    index -= value_len;
    match Value::from_bytes(copy_range(bytes, index, index + value_len)) {
        Ok(value) => Ok((key, Some(value))),
        Err(e) => Err(e),
    }
}

} // verus!
