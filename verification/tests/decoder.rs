use lsm_engine::command::Command;
use lsm_engine::decoder::{self, DecodeError, DecodeErrorKind, Decoded};
use lsm_engine::value::Value;

fn refused(message: &str) -> Result<Decoded, DecodeError> {
    Err(DecodeError {
        kind: DecodeErrorKind::InvalidInput,
        message: message.to_string(),
    })
}

fn one(line: &str) -> Result<Decoded, DecodeError> {
    decoder::new().decode(Some(line))
}

#[test]
fn decode_get_and_delete() {
    assert_eq!(
        one("get k\n"),
        Ok(Decoded::Command(Command::new_get("k".to_string())))
    );
    assert_eq!(
        one("  delete   some-key \r\n"),
        Ok(Decoded::Command(Command::new_delete("some-key".to_string())))
    );
    assert_eq!(
        one("get ключ"),
        Ok(Decoded::Command(Command::new_get("ключ".to_string())))
    );
}

#[test]
fn decode_cuts_at_white_space_of_more_than_one_byte() {
    assert_eq!(
        one("get\u{a0}k\u{3000}\n"),
        Ok(Decoded::Command(Command::new_get("k".to_string())))
    );
    let mut d = decoder::new();
    assert_eq!(d.decode(Some("set\u{2003}a 1 2 3\n")), Ok(Decoded::Incomplete));
    assert_eq!(
        d.decode(Some("\u{2028}da\u{a0}ta\u{85}\n")),
        Ok(Decoded::Command(Command::new_set(
            "a".to_string(),
            Value::new("\u{2028}da\u{a0}ta\u{85}".to_string(), 1, 2)
        )))
    );
}

#[test]
fn decode_stats_takes_any_number_of_words() {
    assert_eq!(one("stats\n"), Ok(Decoded::Command(Command::new_stats())));
    assert_eq!(one("stats now please\n"), Ok(Decoded::Command(Command::new_stats())));
}

#[test]
fn decode_set_takes_its_data_from_the_next_line() {
    let mut d = decoder::new();
    assert_eq!(d.decode(Some("set a 1 2 3\n")), Ok(Decoded::Incomplete));
    assert_eq!(
        d.decode(Some("abc def\n")),
        Ok(Decoded::Command(Command::new_set(
            "a".to_string(),
            Value::new("abc def".to_string(), 1, 2)
        )))
    );
    assert_eq!(
        d.decode(Some("get a\n")),
        Ok(Decoded::Command(Command::new_get("a".to_string())))
    );
}

#[test]
fn decode_set_keeps_the_data_as_they_were_sent() {
    let cases = [
        (" abc \n", " abc "),
        ("\tabc\r\n", "\tabc\r"),
        ("   \n", "   "),
        ("abc", "abc"),
        ("a b\u{a0}\n", "a b\u{a0}"),
    ];
    for (line, data) in cases {
        let mut d = decoder::new();
        assert_eq!(d.decode(Some("set a 0 0 5\n")), Ok(Decoded::Incomplete));
        assert_eq!(
            d.decode(Some(line)),
            Ok(Decoded::Command(Command::new_set(
                "a".to_string(),
                Value::new(data.to_string(), 0, 0)
            )))
        );
    }
}

#[test]
fn decode_set_does_not_hold_the_data_to_the_length_given() {
    let mut d = decoder::new();
    assert_eq!(d.decode(Some("set a 0 0 100\n")), Ok(Decoded::Incomplete));
    assert_eq!(
        d.decode(Some("get a\n")),
        Ok(Decoded::Command(Command::new_set(
            "a".to_string(),
            Value::new("get a".to_string(), 0, 0)
        )))
    );
}

#[test]
fn decode_set_with_empty_data() {
    let mut d = decoder::new();
    assert_eq!(d.decode(Some("set a 0 0 0\n")), Ok(Decoded::Incomplete));
    assert_eq!(
        d.decode(Some("\n")),
        Ok(Decoded::Command(Command::new_set(
            "a".to_string(),
            Value::new("".to_string(), 0, 0)
        )))
    );
}

#[test]
fn decode_at_the_end_of_the_input() {
    let eof = Err(DecodeError {
        kind: DecodeErrorKind::UnexpectedEof,
        message: "got eof".to_string(),
    });
    assert_eq!(decoder::new().decode(None), eof);
    let mut d = decoder::new();
    assert_eq!(d.decode(Some("set a 0 0 1\n")), Ok(Decoded::Incomplete));
    assert_eq!(d.decode(None), eof);
    assert_eq!(
        d.decode(Some("get a\n")),
        Ok(Decoded::Command(Command::new_get("a".to_string())))
    );
}

#[test]
fn decode_refuses_lines_without_a_command() {
    assert_eq!(one("\n"), refused("no content"));
    assert_eq!(one(""), refused("no content"));
    assert_eq!(one("   \t\n"), refused("no content"));
    assert_eq!(one("frobnicate\n"), refused("unknown command: frobnicate"));
    assert_eq!(one("GET k\n"), refused("unknown command: GET"));
    assert_eq!(one("gets k\n"), refused("unknown command: gets"));
    assert_eq!(one("привет мир\n"), refused("unknown command: привет"));
}

#[test]
fn decode_refuses_the_wrong_number_of_words() {
    assert_eq!(one("get\n"), refused("get command length must be 2"));
    assert_eq!(one("get a b\n"), refused("get command length must be 2"));
    assert_eq!(one("delete\n"), refused("delete command length must be 2"));
    assert_eq!(one("delete a b\n"), refused("delete command length must be 2"));
    assert_eq!(one("set a 0 0\n"), refused("set command length must be 5"));
    assert_eq!(one("set a 0 0 1 2\n"), refused("set command length must be 5"));
}

#[test]
fn decode_refuses_a_set_whose_numbers_are_none() {
    assert_eq!(one("set a x 0 1\n"), refused("invalid digit found in string"));
    assert_eq!(one("set a 0 -1 1\n"), refused("invalid digit found in string"));
    assert_eq!(one("set a 0 0 1.5\n"), refused("invalid digit found in string"));
    assert_eq!(
        one("set a 99999999999999999999999 0 1\n"),
        refused("number too large to fit in target type")
    );
    assert_eq!(
        one("set a x 99999999999999999999999 1\n"),
        refused("invalid digit found in string")
    );
    assert_eq!(
        one("set a 0 0 99999999999999999999999999999999999999x\n"),
        refused("number too large to fit in target type")
    );
    assert_eq!(
        one("set a 9999999999x 0 1\n"),
        refused("invalid digit found in string")
    );
}

#[test]
fn decode_after_a_refused_set_reads_the_next_line_as_a_command() {
    let mut d = decoder::new();
    assert_eq!(d.decode(Some("set a 0 0\n")), refused("set command length must be 5"));
    assert_eq!(d.decode(Some("abc\n")), refused("unknown command: abc"));
}
