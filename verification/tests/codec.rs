use lsm_engine::binary;
use lsm_engine::error::MalformedRecord;
use lsm_engine::le::{append_bytes, copy_range, push_le, read_le};
use lsm_engine::record::{self, decode_file, frame};
use lsm_engine::value::Value;

fn value(data: &str, flags: usize, exptime: usize) -> Value {
    Value::new(data.to_string(), flags, exptime)
}

fn abc_bytes() -> Vec<u8> {
    vec![
        1, 0, 0, 0, 0, 0, 0, 0, 2, 0, 0, 0, 0, 0, 0, 0, b'a', b'b', b'c', 3, 0, 0, 0,
    ]
}

#[test]
fn push_le_writes_the_low_bytes_least_significant_first() {
    let mut out = vec![9u8];
    push_le(&mut out, 0x0102_0304_0506_0708, 8);
    assert_eq!(out, vec![9, 8, 7, 6, 5, 4, 3, 2, 1]);
    let mut short = Vec::new();
    push_le(&mut short, 0x1_0000_0201, 2);
    assert_eq!(short, vec![1, 2]);
    push_le(&mut short, 7, 0);
    assert_eq!(short, vec![1, 2]);
}

#[test]
fn read_le_reads_back_what_push_le_wrote() {
    let mut out = vec![0xaau8, 0xbb];
    push_le(&mut out, 4_000_000_000, 4);
    assert_eq!(read_le(&out, 2, 4), 4_000_000_000);
    assert_eq!(read_le(&out, 0, 2), 0xbbaa);
    assert_eq!(read_le(&out, 1, 0), 0);
    assert_eq!(read_le(&[0xff; 8], 0, 8), u64::MAX);
}

#[test]
fn append_and_copy_range() {
    let mut out = vec![1u8];
    append_bytes(&mut out, &[2, 3]);
    append_bytes(&mut out, &[]);
    assert_eq!(out, vec![1, 2, 3]);
    assert_eq!(copy_range(&out, 1, 3), vec![2, 3]);
    assert_eq!(copy_range(&out, 2, 2), Vec::<u8>::new());
}

#[test]
fn value_as_bytes_has_the_documented_layout() {
    assert_eq!(value("abc", 1, 2).as_bytes(), abc_bytes());
    assert_eq!(value("", 0, 0).as_bytes(), vec![0u8; 20]);
    let wide = value("é", 0x0102, usize::MAX);
    let mut expected = vec![2u8, 1, 0, 0, 0, 0, 0, 0];
    expected.extend((usize::MAX as u64).to_le_bytes());
    expected.extend([0xc3, 0xa9, 2, 0, 0, 0]);
    assert_eq!(wide.as_bytes(), expected);
}

#[test]
fn value_from_bytes_reads_back_as_bytes() {
    for v in [value("abc", 1, 2), value("", 0, 0), value("a b\tc", 77, 123456789)] {
        assert_eq!(Value::from_bytes(v.as_bytes()), Ok(v));
    }
}

#[test]
fn value_from_bytes_ignores_what_stands_before_the_flags() {
    let mut bytes = vec![0xde, 0xad];
    bytes.extend(abc_bytes());
    assert_eq!(Value::from_bytes(bytes), Ok(value("abc", 1, 2)));
}

#[test]
fn value_from_bytes_refuses_short_and_overlong_lengths() {
    assert_eq!(Value::from_bytes(vec![]), Err(MalformedRecord));
    assert_eq!(Value::from_bytes(vec![0, 0, 0]), Err(MalformedRecord));
    assert_eq!(Value::from_bytes(vec![0; 19]), Err(MalformedRecord));
    let mut long = abc_bytes();
    let n = long.len();
    long[n - 4] = 4;
    assert_eq!(Value::from_bytes(long), Err(MalformedRecord));
    let mut negative = abc_bytes();
    negative[n - 1] = 0x80;
    assert_eq!(Value::from_bytes(negative), Err(MalformedRecord));
}

#[test]
fn value_from_bytes_refuses_data_that_are_no_utf8() {
    let mut bytes = abc_bytes();
    bytes[17] = 0xff;
    assert_eq!(Value::from_bytes(bytes), Err(MalformedRecord));
}

#[test]
fn value_to_string_gives_header_and_data() {
    assert_eq!(
        value("abc", 0, 0).to_string("a".to_string()),
        "VALUE a 0 0 3\nabc\n"
    );
    assert_eq!(
        value("héllo", 7, 1234567890).to_string("k".to_string()),
        "VALUE k 7 1234567890 6\nhéllo\n"
    );
    assert_eq!(value("", 10, 100).to_string("".to_string()), "VALUE  10 100 0\n\n");
}

#[test]
fn value_clone_is_equal() {
    let v = value("abc", 1, 2);
    assert_eq!(v.clone(), v);
}

#[test]
fn encode_has_the_documented_layout() {
    let mut put = abc_bytes();
    put.extend([23, 0, 0, 0, b'k', b'e', b'y', 3, 0]);
    let v = value("abc", 1, 2);
    assert_eq!(binary::encode(&"key".to_string(), Some(&v)), put);
    assert_eq!(record::encode(&"key".to_string(), Some(&v)), put);
    assert_eq!(
        binary::encode(&"key".to_string(), None),
        vec![0xff, 0xff, 0xff, 0xff, b'k', b'e', b'y', 3, 0]
    );
    assert_eq!(
        record::encode(&"".to_string(), None),
        vec![0xff, 0xff, 0xff, 0xff, 0, 0]
    );
}

#[test]
fn decode_reads_back_encode() {
    let cases: Vec<(String, Option<Value>)> = vec![
        ("a".to_string(), Some(value("abc", 1, 2))),
        ("a".to_string(), None),
        ("".to_string(), Some(value("", 0, 0))),
        ("ключ".to_string(), Some(value("значение", 3, 4))),
        ("k".repeat(0x7fff), None),
    ];
    for (key, v) in cases {
        let bytes = binary::encode(&key, v.as_ref());
        assert_eq!(binary::decode(bytes), Ok((key, v)));
    }
}

#[test]
fn decode_takes_any_negative_value_length_for_a_tombstone() {
    let bytes = vec![0, 0, 0, 0x80, b'k', 1, 0];
    assert_eq!(binary::decode(bytes), Ok(("k".to_string(), None)));
}

#[test]
fn decode_refuses_lengths_that_reach_beyond_the_buffer() {
    assert_eq!(binary::decode(vec![]), Err(MalformedRecord));
    assert_eq!(binary::decode(vec![0]), Err(MalformedRecord));
    assert_eq!(binary::decode(vec![0, 0]), Err(MalformedRecord));
    assert_eq!(binary::decode(vec![0xff, 0xff, 0xff, b'k', 1, 0]), Err(MalformedRecord));
    assert_eq!(
        binary::decode(vec![0xff, 0xff, 0xff, 0xff, b'k', 2, 0]),
        Err(MalformedRecord)
    );
    assert_eq!(
        binary::decode(vec![0xff, 0xff, 0xff, 0xff, b'k', 0xff, 0xff]),
        Err(MalformedRecord)
    );
    assert_eq!(binary::decode(vec![1, 0, 0, 0, b'k', 1, 0]), Err(MalformedRecord));
    assert_eq!(
        binary::decode(vec![7, 1, 0, 0, 0, b'k', 1, 0]),
        Err(MalformedRecord)
    );
}

#[test]
fn decode_refuses_a_key_that_is_no_utf8() {
    assert_eq!(
        binary::decode(vec![0xff, 0xff, 0xff, 0xff, 0xc3, 1, 0]),
        Err(MalformedRecord)
    );
    assert_eq!(
        binary::decode(vec![0xff, 0xff, 0xff, 0xff, 0xc3, 0xa9, 2, 0]),
        Ok(("é".to_string(), None))
    );
}

#[test]
fn an_encoded_key_longer_than_its_length_field_does_not_read_back() {
    let key = "k".repeat(0x8000);
    let bytes = binary::encode(&key, None);
    assert_eq!(&bytes[bytes.len() - 2..], &[0x00, 0x80]);
    assert_eq!(binary::decode(bytes), Err(MalformedRecord));
}

#[test]
fn frame_appends_the_length_of_the_record() {
    assert_eq!(
        frame(&"k".to_string(), None),
        vec![0xff, 0xff, 0xff, 0xff, b'k', 1, 0, 7, 0, 0, 0]
    );
    let v = value("abc", 1, 2);
    let mut put = binary::encode(&"k".to_string(), Some(&v));
    put.extend([30, 0, 0, 0]);
    assert_eq!(frame(&"k".to_string(), Some(&v)), put);
}

#[test]
fn decode_file_of_nothing_is_empty() {
    assert_eq!(decode_file(vec![]), Ok(vec![]));
}

#[test]
fn decode_file_keeps_the_newest_record_of_each_key_newest_first() {
    let a = "a".to_string();
    let b = "b".to_string();
    let mut file = Vec::new();
    file.extend(frame(&a, Some(&value("1", 0, 0))));
    file.extend(frame(&b, Some(&value("2", 0, 0))));
    file.extend(frame(&a, None));
    file.extend(frame(&a, Some(&value("3", 5, 6))));
    file.extend(frame(&b, None));
    assert_eq!(
        decode_file(file),
        Ok(vec![(b, None), (a, Some(value("3", 5, 6)))])
    );
}

#[test]
fn decode_file_refuses_a_length_beyond_the_start_of_the_file() {
    let mut file = frame(&"k".to_string(), None);
    let n = file.len();
    file[n - 4] = 8;
    assert_eq!(decode_file(file), Err(MalformedRecord));
    assert_eq!(decode_file(vec![200, 0, 0, 0]), Err(MalformedRecord));
    assert_eq!(decode_file(vec![0xff, 0xff, 0xff, 0xff]), Err(MalformedRecord));
}

#[test]
fn decode_file_refuses_a_torn_start_and_an_empty_record() {
    let mut file = vec![1u8, 2, 3];
    file.extend(frame(&"k".to_string(), None));
    assert_eq!(decode_file(file), Err(MalformedRecord));
    assert_eq!(decode_file(vec![0, 0, 0, 0]), Err(MalformedRecord));
    assert_eq!(decode_file(vec![0, 0]), Err(MalformedRecord));
}

#[test]
fn decode_file_refuses_a_record_that_does_not_decode() {
    let mut file = frame(&"k".to_string(), None);
    file[4] = 0xff;
    assert_eq!(decode_file(file), Err(MalformedRecord));
}

#[test]
fn malformed_record_has_a_message() {
    assert_eq!(MalformedRecord.message(), "malformed record");
}
