//! Text as it goes over the wire and into file names: UTF-8 and decimal
//! numbers.

use vstd::prelude::*;
use vstd::string::StringExecFns;
use vstd::utf8::{decode_utf8, valid_utf8};

verus! {

/// The text that `bytes` encode, where they are valid UTF-8.
///
/// Wraps `String::from_utf8` of the standard library, which gives the
/// string whose UTF-8 encoding is the bytes handed to it, and fails exactly
/// where they are no valid UTF-8.
#[verifier::external_body]
pub(crate) fn string_from_utf8(bytes: Vec<u8>) -> (text: Option<String>)
    ensures
        text is Some <==> valid_utf8(bytes@),
        text matches Some(t) ==> t@ == decode_utf8(bytes@),
{
    match String::from_utf8(bytes) {
        Ok(text) => Some(text),
        Err(_) => None,
    }
}

/// The character that stands for the digit `d`.
pub open spec fn digit_char(d: nat) -> char {
    ((48 + d) as u8) as char
}

/// The decimal numeral of `n`, without leading zeros.
pub open spec fn decimal(n: nat) -> Seq<char>
    decreases n,
{
    if n < 10 {
        seq![digit_char(n)]
    } else {
        decimal(n / 10).push(digit_char(n % 10))
    }
}

/// The decimal numeral of `n`, filled up with zeros on the left to `width`
/// characters where it is shorter.
pub open spec fn decimal_padded(n: nat, width: nat) -> Seq<char> {
    if decimal(n).len() >= width {
        decimal(n)
    } else {
        Seq::new((width - decimal(n).len()) as nat, |i: int| '0') + decimal(n)
    }
}

/// The digits `low`, given least significant first, as characters with the
/// most significant first.
pub open spec fn digits_reversed(low: Seq<u8>) -> Seq<char> {
    Seq::new(low.len(), |i: int| digit_char(low[low.len() - 1 - i] as nat))
}

/// The one-character text of a digit.
fn digit_text(d: u8) -> (text: &'static str)
    requires
        d < 10,
    ensures
        text@ == seq![digit_char(d as nat)],
{
    proof {
        reveal_strlit("0");
        reveal_strlit("1");
        reveal_strlit("2");
        reveal_strlit("3");
        reveal_strlit("4");
        reveal_strlit("5");
        reveal_strlit("6");
        reveal_strlit("7");
        reveal_strlit("8");
        reveal_strlit("9");
    }
    let text = if d == 0 {
        "0"
    } else if d == 1 {
        "1"
    } else if d == 2 {
        "2"
    } else if d == 3 {
        "3"
    } else if d == 4 {
        "4"
    } else if d == 5 {
        "5"
    } else if d == 6 {
        "6"
    } else if d == 7 {
        "7"
    } else if d == 8 {
        "8"
    } else {
        "9"
    };
    assert(text@ =~= seq![digit_char(d as nat)]);
    text
}

/// The digits of `n` but the most significant one, least significant
/// first, and the most significant one.
fn split_digits(n: usize) -> (parts: (Vec<u8>, u8))
    ensures
        parts.1 < 10,
        forall|i: int| 0 <= i < parts.0@.len() ==> parts.0@[i] < 10,
        decimal(n as nat) == seq![digit_char(parts.1 as nat)] + digits_reversed(parts.0@),
{
    let mut low: Vec<u8> = Vec::new();
    let mut rest: usize = n;
    while rest >= 10
        invariant
            forall|i: int| 0 <= i < low@.len() ==> low@[i] < 10,
            decimal(n as nat) == decimal(rest as nat) + digits_reversed(low@),
        decreases rest,
    {
        proof {
            let next = low@.push((rest % 10) as u8);
            assert(decimal((rest / 10) as nat) + digits_reversed(next) =~= decimal(rest as nat)
                + digits_reversed(low@));
        }
        low.push((rest % 10) as u8);
        rest = rest / 10;
    }
    (low, rest as u8)
}

/// Appends the decimal numeral of `n` to `out`.
pub fn push_decimal(out: &mut String, n: usize)
    ensures
        final(out)@ == old(out)@ + decimal(n as nat),
{
    push_decimal_padded(out, n, 0);
    proof {
        assert(decimal_padded(n as nat, 0) == decimal(n as nat));
    }
}

/// Appends the decimal numeral of `n` to `out`, filled up with zeros on the
/// left to `width` characters where it is shorter.
pub fn push_decimal_padded(out: &mut String, n: usize, width: usize)
    ensures
        final(out)@ == old(out)@ + decimal_padded(n as nat, width as nat),
{
    let (low, top) = split_digits(n);
    let count = low.len();
    let fill: usize = if width > count {
        width - count - 1
    } else {
        0
    };
    let mut filled: usize = 0;
    while filled < fill
        invariant
            filled <= fill,
            out@ == old(out)@ + Seq::new(filled as nat, |i: int| '0'),
        decreases fill - filled,
    {
        out.append(digit_text(0));
        filled += 1;
        proof {
            assert(out@ =~= old(out)@ + Seq::new(filled as nat, |i: int| '0'));
        }
    }
    let ghost padded = out@;
    out.append(digit_text(top));
    let mut i: usize = count;
    while i > 0
        invariant
            i <= count,
            count == low@.len(),
            forall|j: int| 0 <= j < low@.len() ==> low@[j] < 10,
            out@ == padded + seq![digit_char(top as nat)] + digits_reversed(low@).take(count - i),
        decreases i,
    {
        i -= 1;
        proof {
            assert(digits_reversed(low@).take(count - i) =~= digits_reversed(low@).take(
                count - i - 1,
            ).push(digit_char(low@[i as int] as nat)));
        }
        out.append(digit_text(low[i]));
    }
    proof {
        assert(digits_reversed(low@).take(count as int) =~= digits_reversed(low@));
        assert(decimal(n as nat).len() == count + 1);
        assert(out@ =~= old(out)@ + decimal_padded(n as nat, width as nat));
    }
}

/// Why a word is no number.
#[derive(Debug, Clone, Copy, PartialEq, Eq, Structural)]
pub enum NumberError {
    /// The word is empty.
    Empty,
    /// The word holds something other than decimal digits after an
    /// optional plus sign.
    InvalidDigit,
    /// The number does not fit the machine word.
    TooLarge,
}

/// The text under which a `NumberError` is reported.
pub open spec fn number_error_text(e: NumberError) -> Seq<char> {
    match e {
        NumberError::Empty => "cannot parse integer from empty string"@,
        NumberError::InvalidDigit => "invalid digit found in string"@,
        NumberError::TooLarge => "number too large to fit in target type"@,
    }
}

impl NumberError {
    /// The text under which the error is reported.
    pub fn message(&self) -> (text: String)
        ensures
            text@ == number_error_text(*self),
    {
        match self {
            NumberError::Empty => "cannot parse integer from empty string".to_owned(),
            NumberError::InvalidDigit => "invalid digit found in string".to_owned(),
            NumberError::TooLarge => "number too large to fit in target type".to_owned(),
        }
    }
}

/// The number that the digits `s` continue from `acc`, read left to right.
/// A character that is no digit fails as such, whatever the number so far;
/// a digit fails where ten times the number so far with the digit added no
/// longer fits the machine word.
pub open spec fn digits_value(s: Seq<u8>, acc: nat) -> Result<usize, NumberError>
    decreases s.len(),
{
    if s.len() == 0 {
        Ok(acc as usize)
    } else if !(0x30 <= s[0] && s[0] <= 0x39) {
        Err(NumberError::InvalidDigit)
    } else if acc * 10 + (s[0] - 0x30) > usize::MAX {
        Err(NumberError::TooLarge)
    } else {
        digits_value(s.skip(1), (acc * 10 + (s[0] - 0x30)) as nat)
    }
}

/// The unsigned number that the word `s` stands for: decimal digits,
/// which a plus sign may precede.
pub open spec fn number_value(s: Seq<u8>) -> Result<usize, NumberError> {
    if s.len() == 0 {
        Err(NumberError::Empty)
    } else if s.len() == 1 && (s[0] == 0x2b || s[0] == 0x2d) {
        Err(NumberError::InvalidDigit)
    } else if s[0] == 0x2b {
        digits_value(s.skip(1), 0)
    } else {
        digits_value(s, 0)
    }
}

/// Reads an unsigned decimal number.
pub fn parse_number(word: &[u8]) -> (res: Result<usize, NumberError>)
    ensures
        res == number_value(word@),
{
    let len = word.len();
    if len == 0 {
        return Err(NumberError::Empty);
    }
    if len == 1 && (word[0] == 0x2b || word[0] == 0x2d) {
        return Err(NumberError::InvalidDigit);
    }
    let mut i: usize = if word[0] == 0x2b {
        1
    } else {
        0
    };
    let mut acc: usize = 0;
    proof {
        assert(word@.skip(0) =~= word@);
    }
    while i < len
        invariant
            i <= len,
            len == word@.len(),
            number_value(word@) == digits_value(word@.skip(i as int), acc as nat),
        decreases len - i,
    {
        proof {
            assert(word@.skip(i as int).skip(1) =~= word@.skip(i + 1));
            assert(word@.skip(i as int)[0] == word@[i as int]);
        }
        let byte = word[i];
        if !(0x30 <= byte && byte <= 0x39) {
            return Err(NumberError::InvalidDigit);
        }
        let tens = match acc.checked_mul(10) {
            Some(tens) => tens,
            None => {
                return Err(NumberError::TooLarge);
            },
        };
        acc = match tens.checked_add((byte - 0x30) as usize) {
            Some(sum) => sum,
            None => {
                return Err(NumberError::TooLarge);
            },
        };
        i += 1;
    }
    Ok(acc)
}

} // verus!
