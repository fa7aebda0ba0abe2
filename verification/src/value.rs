//! The stored payload: data with two numbers that the engine carries but
//! does not read.

use crate::error::MalformedRecord;
use crate::le::{
    append_bytes, copy_range, le_bytes, le_value, lemma_le_value_of_bytes, lemma_radix_pow_values,
    push_le, read_le,
};
use crate::text::{decimal, push_decimal, string_from_utf8};
use vstd::prelude::*;
use vstd::string::StringExecFns;
use vstd::utf8::{decode_utf8, encode_utf8, valid_utf8};

verus! {

/// A value as it is stored under a key.
#[derive(Debug, PartialEq)]
pub struct Value {
    data: String,
    flags: usize,
    exptime: usize,
}

/// What a `Value` holds.
pub struct ValueView {
    pub data: Seq<char>,
    pub flags: usize,
    pub exptime: usize,
}

impl View for Value {
    type V = ValueView;

    closed spec fn view(&self) -> ValueView {
        ValueView { data: self.data@, flags: self.flags, exptime: self.exptime }
    }
}

/// The largest length that a length field of four bytes can hold: such a
/// field is read back as a signed number.
pub const MAX_LEN: usize = 0x7fff_ffff;

/// The byte form of a value: flags and expiry time in eight bytes each, the
/// data in UTF-8, and the four low bytes of the data's length; all numbers
/// least significant byte first.
pub open spec fn value_bytes(v: ValueView) -> Seq<u8> {
    le_bytes(v.flags as nat, 8) + le_bytes(v.exptime as nat, 8) + encode_utf8(v.data) + le_bytes(
        encode_utf8(v.data).len(),
        4,
    )
}

/// The value that the end of `b` holds, read back to front: the length of
/// the data, the data, the expiry time and the flags. Bytes before the
/// flags are not looked at. `None` where a length reaches beyond `b`, the
/// data are no valid UTF-8 or a number does not fit the machine word.
pub open spec fn parse_value(b: Seq<u8>) -> Option<ValueView> {
    if b.len() < 4 {
        None
    } else {
        let data_end = b.len() - 4;
        let data_len = le_value(b.subrange(data_end, b.len() as int));
        if data_len > MAX_LEN || data_len + 16 > data_end {
            None
        } else {
            let data_start = data_end - data_len;
            let data = b.subrange(data_start, data_end);
            let exptime = le_value(b.subrange(data_start - 8, data_start));
            let flags = le_value(b.subrange(data_start - 16, data_start - 8));
            if !valid_utf8(data) || exptime > usize::MAX || flags > usize::MAX {
                None
            } else {
                Some(
                    ValueView {
                        data: decode_utf8(data),
                        flags: flags as usize,
                        exptime: exptime as usize,
                    },
                )
            }
        }
    }
}

/// The reply lines that give a value to a client: a header with the key,
/// flags, expiry time and the data's length in bytes, then the data.
pub open spec fn value_lines(key: Seq<char>, v: ValueView) -> Seq<char> {
    "VALUE "@ + key + " "@ + decimal(v.flags as nat) + " "@ + decimal(v.exptime as nat) + " "@
        + decimal(encode_utf8(v.data).len()) + "\n"@ + v.data + "\n"@
}

/// A value whose data are no longer than a length field can say reads
/// back from its byte form as it was.
pub proof fn lemma_value_round_trip(v: ValueView)
    requires
        encode_utf8(v.data).len() <= MAX_LEN,
    ensures
        parse_value(value_bytes(v)) == Some(v),
{
    let f = le_bytes(v.flags as nat, 8);
    let e = le_bytes(v.exptime as nat, 8);
    let d = encode_utf8(v.data);
    let l = le_bytes(d.len(), 4);
    let b = value_bytes(v);
    lemma_radix_pow_values();
    lemma_le_value_of_bytes(v.flags as nat, 8);
    lemma_le_value_of_bytes(v.exptime as nat, 8);
    lemma_le_value_of_bytes(d.len(), 4);
    let data_end = b.len() - 4;
    assert(b.subrange(data_end, b.len() as int) =~= l);
    let data_start = data_end - d.len();
    assert(b.subrange(data_start, data_end) =~= d);
    assert(b.subrange(data_start - 8, data_start) =~= e);
    assert(b.subrange(data_start - 16, data_start - 8) =~= f);
    vstd::utf8::encode_utf8_valid_utf8(v.data);
    vstd::utf8::encode_utf8_decode_utf8(v.data);
}

impl Clone for Value {
    fn clone(&self) -> (copy: Self)
        ensures
            copy@ == self@,
    {
        Value { data: self.data.clone(), flags: self.flags, exptime: self.exptime }
    }
}

impl Value {
    /// The value with these data, flags and expiry time.
    pub fn new(data: String, flags: usize, exptime: usize) -> (value: Self)
        ensures
            value@ == (ValueView { data: data@, flags, exptime }),
    {
        Self { data, flags, exptime }
    }

    /// The byte form of the value.
    pub fn as_bytes(&self) -> (bytes: Vec<u8>)
        ensures
            bytes@ == value_bytes(self@),
    {
        let mut value_bytes: Vec<u8> = Vec::new();
        push_le(&mut value_bytes, self.flags as u64, 8);
        push_le(&mut value_bytes, self.exptime as u64, 8);
        let data_bytes = self.data.as_str().as_bytes();
        append_bytes(&mut value_bytes, data_bytes);
        push_le(&mut value_bytes, data_bytes.len() as u64, 4);
        value_bytes
    }

    /// Reads a value from the end of `vec`.
    pub fn from_bytes(vec: Vec<u8>) -> (res: Result<Self, MalformedRecord>)
        ensures
            match res {
                Ok(value) => parse_value(vec@) == Some(value@),
                Err(_) => parse_value(vec@) is None,
            },
    {
        let bytes = vec.as_slice();
        let mut index = bytes.len();
        if index < 4 {
            return Err(MalformedRecord);
        }
        index -= 4;
        let data_len = read_le(bytes, index, 4);
        if data_len > MAX_LEN as u64 || data_len + 16 > index as u64 {
            return Err(MalformedRecord);
        }
        let data_len = data_len as usize;
        index -= data_len;
        let data = match string_from_utf8(copy_range(bytes, index, index + data_len)) {
            Some(data) => data,
            None => {
                return Err(MalformedRecord);
            },
        };
        index -= 8;
        let exptime = read_le(bytes, index, 8);
        index -= 8;
        let flags = read_le(bytes, index, 8);
        if exptime > usize::MAX as u64 || flags > usize::MAX as u64 {
            return Err(MalformedRecord);
        }
        Ok(Self::new(data, flags as usize, exptime as usize))
    }

    /// The reply lines that give this value to a client that asked for
    /// `key`.
    pub fn to_string(&self, key: String) -> (text: String)
        ensures
            text@ == value_lines(key@, self@),
    {
        let mut text = "VALUE ".to_owned();
        text.append(key.as_str());
        text.append(" ");
        push_decimal(&mut text, self.flags);
        text.append(" ");
        push_decimal(&mut text, self.exptime);
        text.append(" ");
        push_decimal(&mut text, self.data.as_str().as_bytes().len());
        text.append("\n");
        text.append(self.data.as_str());
        text.append("\n");
        proof {
            assert(text@ =~= value_lines(key@, self@));
        }
        text
    }
}

} // verus!
