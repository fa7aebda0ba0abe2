//! Lines of the text protocol cut into words at white space.

use crate::le::copy_range;
use vstd::prelude::*;
use vstd::utf8::{is_char_boundary, length_of_first_scalar, pop_first_scalar, valid_utf8};

verus! {

/// `b` is a white-space character of one byte: the blank, or a control
/// character from tab to carriage return.
pub open spec fn is_space(b: u8) -> bool {
    b == 0x20 || (0x09 <= b && b <= 0x0d)
}

/// `a`, `b` are the UTF-8 form of a white-space character of two bytes:
/// next line, or the no-break space.
pub open spec fn is_space2(a: u8, b: u8) -> bool {
    a == 0xc2 && (b == 0x85 || b == 0xa0)
}

/// `a`, `b`, `c` are the UTF-8 form of a white-space character of three
/// bytes: the ogham space mark, a space of the general punctuation, the line
/// or the paragraph separator, the narrow no-break space, the medium
/// mathematical space, or the ideographic space.
pub open spec fn is_space3(a: u8, b: u8, c: u8) -> bool {
    ||| a == 0xe1 && b == 0x9a && c == 0x80
    ||| a == 0xe2 && b == 0x80 && ((0x80 <= c && c <= 0x8a) || c == 0xa8 || c == 0xa9 || c == 0xaf)
    ||| a == 0xe2 && b == 0x81 && c == 0x9f
    ||| a == 0xe3 && b == 0x80 && c == 0x80
}

/// How many bytes the white-space character takes that `s` starts with;
/// zero where it starts with none.
pub open spec fn space_len(s: Seq<u8>) -> nat {
    if s.len() >= 1 && is_space(s[0]) {
        1
    } else if s.len() >= 2 && is_space2(s[0], s[1]) {
        2
    } else if s.len() >= 3 && is_space3(s[0], s[1], s[2]) {
        3
    } else {
        0
    }
}

/// `word`, as a list of one word, unless it is empty.
pub open spec fn finished(word: Seq<u8>) -> Seq<Seq<u8>> {
    if word.len() > 0 {
        seq![word]
    } else {
        Seq::empty()
    }
}

/// The words of `word` followed by `s`, where `word` holds no white space:
/// the maximal runs of bytes between white-space characters.
pub open spec fn words_after(s: Seq<u8>, word: Seq<u8>) -> Seq<Seq<u8>>
    decreases s.len(),
{
    if s.len() == 0 {
        finished(word)
    } else if space_len(s) > 0 {
        finished(word) + words_after(s.skip(space_len(s) as int), Seq::empty())
    } else {
        words_after(s.skip(1), word.push(s[0]))
    }
}

/// The words of a line: its maximal runs of bytes between white-space
/// characters.
pub open spec fn words(s: Seq<u8>) -> Seq<Seq<u8>> {
    words_after(s, Seq::empty())
}

/// A line without the newline that ends it: the data of a `set` as they
/// were sent. A line that the end of the input cut short stays whole.
pub open spec fn without_newline(s: Seq<u8>) -> Seq<u8> {
    if s.len() > 0 && s.last() == 0x0a {
        s.drop_last()
    } else {
        s
    }
}

/// In valid UTF-8 a character starts where the character before it ends.
pub proof fn lemma_boundary_after_char(bytes: Seq<u8>, i: int)
    requires
        valid_utf8(bytes),
        0 <= i < bytes.len(),
        is_char_boundary(bytes, i),
    ensures
        i + length_of_first_scalar(bytes.skip(i)) <= bytes.len(),
        is_char_boundary(bytes, i + length_of_first_scalar(bytes.skip(i))),
    decreases bytes.len(),
{
    reveal_with_fuel(is_char_boundary, 2);
    reveal_with_fuel(valid_utf8, 2);
    let tail = pop_first_scalar(bytes);
    let first = length_of_first_scalar(bytes);
    if i == 0 {
        assert(bytes.skip(0) =~= bytes);
    } else {
        assert(is_char_boundary(tail, i - first));
        if i - first < tail.len() {
            assert(tail.skip(i - first) =~= bytes.skip(i));
            lemma_boundary_after_char(tail, i - first);
        }
    }
}

/// In valid UTF-8 a character starts at every white-space character and
/// after it.
pub proof fn lemma_boundary_at_space(bytes: Seq<u8>, i: int)
    requires
        valid_utf8(bytes),
        0 <= i < bytes.len(),
        space_len(bytes.skip(i)) > 0,
    ensures
        i + space_len(bytes.skip(i)) <= bytes.len(),
        is_char_boundary(bytes, i),
        is_char_boundary(bytes, i + space_len(bytes.skip(i))),
{
    assert(bytes.skip(i)[0] == bytes[i]);
    vstd::utf8::is_char_boundary_iff_not_is_continuation_byte(bytes, i);
    lemma_boundary_after_char(bytes, i);
}

/// The bytes between two places of valid UTF-8 where characters start are
/// valid UTF-8.
pub proof fn lemma_valid_between(bytes: Seq<u8>, start: int, end: int)
    requires
        valid_utf8(bytes),
        0 <= start <= end <= bytes.len(),
        is_char_boundary(bytes, start),
        is_char_boundary(bytes, end),
    ensures
        valid_utf8(bytes.subrange(start, end)),
{
    let prefix = bytes.subrange(0, end);
    vstd::utf8::valid_utf8_split(bytes, end);
    if start < end {
        vstd::utf8::is_char_boundary_iff_not_is_continuation_byte(bytes, start);
        assert(prefix[start] == bytes[start]);
        vstd::utf8::is_char_boundary_iff_not_is_continuation_byte(prefix, start);
    } else {
        vstd::utf8::is_char_boundary_start_end_of_seq(prefix);
    }
    vstd::utf8::valid_utf8_split(prefix, start);
    assert(prefix.subrange(start, prefix.len() as int) =~= bytes.subrange(start, end));
}

/// What a list of words holds.
pub open spec fn token_views(tokens: Seq<Vec<u8>>) -> Seq<Seq<u8>> {
    tokens.map_values(|t: Vec<u8>| t@)
}

/// How many bytes the white-space character takes that stands at `i`;
/// zero where none stands there.
pub fn space_width(bytes: &[u8], i: usize) -> (width: usize)
    requires
        i <= bytes@.len(),
    ensures
        width == space_len(bytes@.skip(i as int)),
        i + width <= bytes@.len(),
{
    let len = bytes.len();
    let rest = len - i;
    if rest == 0 {
        return 0;
    }
    let a = bytes[i];
    if a == 0x20 || (0x09 <= a && a <= 0x0d) {
        return 1;
    }
    if rest < 2 {
        return 0;
    }
    let b = bytes[i + 1];
    if a == 0xc2 && (b == 0x85 || b == 0xa0) {
        return 2;
    }
    if rest < 3 {
        return 0;
    }
    let c = bytes[i + 2];
    if (a == 0xe1 && b == 0x9a && c == 0x80) || (a == 0xe2 && b == 0x80 && ((0x80 <= c && c
        <= 0x8a) || c == 0xa8 || c == 0xa9 || c == 0xaf)) || (a == 0xe2 && b == 0x81 && c == 0x9f)
        || (a == 0xe3 && b == 0x80 && c == 0x80) {
        3
    } else {
        0
    }
}

/// Cuts a line into its words. The words of a line of valid UTF-8 are
/// valid UTF-8.
pub fn split_words(bytes: &[u8]) -> (tokens: Vec<Vec<u8>>)
    ensures
        token_views(tokens@) == words(bytes@),
        valid_utf8(bytes@) ==> forall|i: int|
            0 <= i < tokens@.len() ==> valid_utf8(#[trigger] tokens@[i]@),
{
    let ghost all = bytes@;
    let mut tokens: Vec<Vec<u8>> = Vec::new();
    let mut start: usize = 0;
    let mut in_word = false;
    let mut i: usize = 0;
    proof {
        assert(all.skip(0) =~= all);
        assert(token_views(tokens@) =~= Seq::<Seq<u8>>::empty());
        assert(token_views(tokens@) + words(all) =~= words(all));
        if valid_utf8(all) {
            vstd::utf8::is_char_boundary_start_end_of_seq(all);
        }
    }
    while i < bytes.len()
        invariant
            all == bytes@,
            i <= bytes@.len(),
            in_word ==> start < i,
            words(all) == token_views(tokens@) + words_after(
                all.skip(i as int),
                if in_word {
                    all.subrange(start as int, i as int)
                } else {
                    Seq::empty()
                },
            ),
            valid_utf8(all) ==> forall|j: int|
                0 <= j < tokens@.len() ==> valid_utf8(#[trigger] tokens@[j]@),
            valid_utf8(all) && in_word ==> is_char_boundary(all, start as int),
            valid_utf8(all) && !in_word ==> is_char_boundary(all, i as int),
        decreases bytes.len() - i,
    {
        let ghost word = if in_word {
            all.subrange(start as int, i as int)
        } else {
            Seq::empty()
        };
        let width = space_width(bytes, i);
        proof {
            assert(all.skip(i as int).skip(1) =~= all.skip(i + 1));
            assert(all.skip(i as int).skip(width as int) =~= all.skip(i + width));
            assert(all.skip(i as int)[0] == all[i as int]);
        }
        if width > 0 {
            if in_word {
                let token = copy_range(bytes, start, i);
                proof {
                    if valid_utf8(all) {
                        lemma_boundary_at_space(all, i as int);
                        lemma_valid_between(all, start as int, i as int);
                    }
                    assert(token_views(tokens@).push(token@) =~= token_views(tokens@) + finished(
                        word,
                    ));
                }
                let ghost before = token_views(tokens@);
                tokens.push(token);
                proof {
                    assert(token_views(tokens@) =~= before.push(token@));
                }
                in_word = false;
            } else {
                proof {
                    assert(token_views(tokens@) + finished(word) =~= token_views(tokens@));
                }
            }
            proof {
                if valid_utf8(all) {
                    lemma_boundary_at_space(all, i as int);
                }
                assert(token_views(tokens@) + words_after(all.skip(i + width), Seq::empty())
                    =~= words(all));
            }
            i += width;
        } else {
            if !in_word {
                start = i;
                in_word = true;
            }
            proof {
                assert(word.push(all[i as int]) =~= all.subrange(start as int, i + 1));
            }
            i += 1;
        }
    }
    proof {
        assert(all.skip(i as int) =~= Seq::<u8>::empty());
    }
    if in_word {
        let token = copy_range(bytes, start, i);
        proof {
            if valid_utf8(all) {
                vstd::utf8::is_char_boundary_start_end_of_seq(all);
                lemma_valid_between(all, start as int, i as int);
            }
        }
        let ghost before = token_views(tokens@);
        tokens.push(token);
        proof {
            assert(token_views(tokens@) =~= before.push(token@));
            assert(token_views(tokens@) =~= words(all));
        }
    } else {
        proof {
            assert(token_views(tokens@) =~= words(all));
        }
    }
    tokens
}

/// The line without the newline that ends it. What is left of a line of
/// valid UTF-8 is valid UTF-8.
pub fn line_data(bytes: &[u8]) -> (data: Vec<u8>)
    ensures
        data@ == without_newline(bytes@),
        valid_utf8(bytes@) ==> valid_utf8(data@),
{
    let len = bytes.len();
    let end = if len > 0 && bytes[len - 1] == 0x0a {
        len - 1
    } else {
        len
    };
    proof {
        let all = bytes@;
        assert(all.subrange(0, end as int) =~= without_newline(all));
        if valid_utf8(all) {
            vstd::utf8::is_char_boundary_start_end_of_seq(all);
            if end < len {
                vstd::utf8::is_char_boundary_iff_not_is_continuation_byte(all, end as int);
            }
            lemma_valid_between(all, 0, end as int);
        }
    }
    copy_range(bytes, 0, end)
}

} // verus!
