use lsm_engine::order::{compare_bytes, KeyOrder, TotalOrder};
use lsm_engine::text::{parse_number, push_decimal, push_decimal_padded, NumberError};
use lsm_engine::tokens::{line_data, space_width, split_words};

fn decimal(n: usize) -> String {
    let mut out = String::new();
    push_decimal(&mut out, n);
    out
}

fn padded(n: usize, width: usize) -> String {
    let mut out = String::from(">");
    push_decimal_padded(&mut out, n, width);
    out
}

#[test]
fn push_decimal_writes_the_numeral() {
    assert_eq!(decimal(0), "0");
    assert_eq!(decimal(7), "7");
    assert_eq!(decimal(10), "10");
    assert_eq!(decimal(1234567890), "1234567890");
    assert_eq!(decimal(usize::MAX), format!("{}", usize::MAX));
}

#[test]
fn push_decimal_padded_fills_with_zeros_on_the_left() {
    assert_eq!(padded(0, 5), ">00000");
    assert_eq!(padded(42, 5), ">00042");
    assert_eq!(padded(99999, 5), ">99999");
    assert_eq!(padded(100000, 5), ">100000");
    assert_eq!(padded(7, 0), ">7");
    assert_eq!(padded(7, 1), ">7");
}

#[test]
fn parse_number_reads_decimal_numbers() {
    assert_eq!(parse_number(b"0"), Ok(0));
    assert_eq!(parse_number(b"007"), Ok(7));
    assert_eq!(parse_number(b"+15"), Ok(15));
    assert_eq!(parse_number(b"1234567890"), Ok(1234567890));
    let max = format!("{}", usize::MAX);
    assert_eq!(parse_number(max.as_bytes()), Ok(usize::MAX));
}

#[test]
fn parse_number_says_why_a_word_is_no_number() {
    assert_eq!(parse_number(b""), Err(NumberError::Empty));
    assert_eq!(parse_number(b"+"), Err(NumberError::InvalidDigit));
    assert_eq!(parse_number(b"-"), Err(NumberError::InvalidDigit));
    assert_eq!(parse_number(b"-1"), Err(NumberError::InvalidDigit));
    assert_eq!(parse_number(b"++1"), Err(NumberError::InvalidDigit));
    assert_eq!(parse_number(b"12a"), Err(NumberError::InvalidDigit));
    assert_eq!(parse_number(b"1 2"), Err(NumberError::InvalidDigit));
    assert_eq!(
        parse_number(b"99999999999999999999999999999999999999x"),
        Err(NumberError::TooLarge)
    );
    let nines = "9".repeat(format!("{}", usize::MAX).len() - 1);
    assert_eq!(
        parse_number(format!("{}x", nines).as_bytes()),
        Err(NumberError::InvalidDigit)
    );
    let over = format!("{}0", usize::MAX);
    assert_eq!(parse_number(over.as_bytes()), Err(NumberError::TooLarge));
    let next = format!("{}", usize::MAX as u128 + 1);
    assert_eq!(parse_number(next.as_bytes()), Err(NumberError::TooLarge));
}

#[test]
fn parse_number_agrees_with_the_standard_parser() {
    let words = [
        "", "+", "-", "0", "+0", "-0", "9", "10", "99999999999999999999", "18446744073709551615",
        "18446744073709551616", "1844674407370955161x", "184467440737095516160x",
        "9999999999999999999x", "9999999999999999999", "99999999999999999990", "1844674407370955162x",
        "4294967295x", "429496729x", "999999999x9",
        "99999999999999999999999999x", "x9", "4294967295", "4294967296", "00000000000000000000001",
    ];
    for w in words {
        let ours = parse_number(w.as_bytes());
        let std = w.parse::<usize>();
        match (ours, std) {
            (Ok(a), Ok(b)) => assert_eq!(a, b),
            (Err(e), Err(s)) => assert_eq!(e.message(), s.to_string()),
            (a, b) => panic!("{:?}: {:?} against {:?}", w, a, b),
        }
    }
}

#[test]
fn number_errors_have_the_messages_of_the_standard_parser() {
    assert_eq!(
        NumberError::Empty.message(),
        "cannot parse integer from empty string"
    );
    assert_eq!(
        NumberError::InvalidDigit.message(),
        "invalid digit found in string"
    );
    assert_eq!(
        NumberError::TooLarge.message(),
        "number too large to fit in target type"
    );
}

#[test]
fn white_space_of_one_byte_is_the_blank_and_tab_to_carriage_return() {
    for b in 0..=255u8 {
        let expected = matches!(b, b' ' | b'\t' | b'\n' | 0x0b | 0x0c | b'\r');
        assert_eq!(space_width(&[b], 0), expected as usize);
        assert_eq!(space_width(&[b], 1), 0);
    }
}

#[test]
fn white_space_is_what_the_standard_library_takes_for_it() {
    for code in 0..=0x10ffffu32 {
        if let Some(c) = char::from_u32(code) {
            let mut buf = [0u8; 4];
            let text = c.encode_utf8(&mut buf).as_bytes().to_vec();
            let expected = if c.is_whitespace() { text.len() } else { 0 };
            assert_eq!(space_width(&text, 0), expected, "{:x}", code);
            let mut padded = vec![b'a'];
            padded.extend(&text);
            padded.push(b'b');
            assert_eq!(space_width(&padded, 1), expected, "{:x}", code);
        }
    }
}

#[test]
fn split_words_cuts_at_runs_of_white_space() {
    let none: Vec<Vec<u8>> = Vec::new();
    assert_eq!(split_words(b""), none);
    assert_eq!(split_words(b" \t\r\n"), none);
    assert_eq!(split_words(b"get k\n"), vec![b"get".to_vec(), b"k".to_vec()]);
    assert_eq!(
        split_words(b"  set   a\t0 0\x0b3 \r\n"),
        vec![
            b"set".to_vec(),
            b"a".to_vec(),
            b"0".to_vec(),
            b"0".to_vec(),
            b"3".to_vec()
        ]
    );
    assert_eq!(split_words(b"x"), vec![b"x".to_vec()]);
    assert_eq!(
        split_words("ключ é".as_bytes()),
        vec!["ключ".as_bytes().to_vec(), "é".as_bytes().to_vec()]
    );
}

fn lines() -> Vec<&'static str> {
    vec![
        "a b  c",
        " lead",
        "trail ",
        "\ta\nb\r",
        "one",
        "",
        "   ",
        "get\u{a0}k",
        "\u{3000}set\u{2003}ключ\u{85}0\u{1680}0 \u{205f}3\u{2028}\u{2029}",
        "\u{202f}é\u{202f}",
        "\u{200b}x\u{200b}",
        "a\u{2009}",
        "\u{2000}",
        "\u{a0}\u{a0}",
    ]
}

#[test]
fn split_words_agrees_with_the_standard_splitter() {
    for line in lines() {
        let ours: Vec<Vec<u8>> = split_words(line.as_bytes());
        let std: Vec<Vec<u8>> = line.split_whitespace().map(|w| w.as_bytes().to_vec()).collect();
        assert_eq!(ours, std, "{:?}", line);
    }
}

#[test]
fn line_data_drops_one_newline_at_the_end_and_nothing_else() {
    assert_eq!(line_data(b""), b"".to_vec());
    assert_eq!(line_data(b"\n"), b"".to_vec());
    assert_eq!(line_data(b"abc\n"), b"abc".to_vec());
    assert_eq!(line_data(b"abc"), b"abc".to_vec());
    assert_eq!(line_data(b" abc \n"), b" abc ".to_vec());
    assert_eq!(line_data(b"abc\n\n"), b"abc\n".to_vec());
    assert_eq!(line_data(b"abc\r\n"), b"abc\r".to_vec());
    assert_eq!(line_data(b"\na\tb\n"), b"\na\tb".to_vec());
    assert_eq!(line_data("é\u{a0}\n".as_bytes()), "é\u{a0}".as_bytes().to_vec());
}

#[test]
fn compare_bytes_is_lexicographic() {
    assert_eq!(compare_bytes(b"", b""), KeyOrder::Equal);
    assert_eq!(compare_bytes(b"", b"a"), KeyOrder::Less);
    assert_eq!(compare_bytes(b"a", b""), KeyOrder::Greater);
    assert_eq!(compare_bytes(b"ab", b"b"), KeyOrder::Less);
    assert_eq!(compare_bytes(b"abc", b"abd"), KeyOrder::Less);
    assert_eq!(compare_bytes(b"abd", b"abc"), KeyOrder::Greater);
    assert_eq!(compare_bytes(b"abc", b"abc"), KeyOrder::Equal);
    assert_eq!(compare_bytes(b"abc", b"ab"), KeyOrder::Greater);
    assert_eq!(compare_bytes(&[0xff], &[0x7f, 0x7f]), KeyOrder::Greater);
}

#[test]
fn keys_compare_as_the_standard_order_does() {
    let words = ["", "a", "A", "ab", "b", "é", "z", "ключ", "\u{10000}", "\u{ffff}"];
    for a in words {
        for b in words {
            let ours = a.to_string().compare(&b.to_string());
            let expected = match a.cmp(b) {
                std::cmp::Ordering::Less => KeyOrder::Less,
                std::cmp::Ordering::Equal => KeyOrder::Equal,
                std::cmp::Ordering::Greater => KeyOrder::Greater,
            };
            assert_eq!(ours, expected);
        }
    }
    assert_eq!(3usize.compare(&4), KeyOrder::Less);
    assert_eq!(4usize.compare(&4), KeyOrder::Equal);
    assert_eq!(5usize.compare(&4), KeyOrder::Greater);
}
