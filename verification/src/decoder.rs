//! Reads commands from the lines of a connection. A `set` takes two lines:
//! the decoder asks for the second once the first has been found in order.

use crate::command::{Command, CommandView};
use crate::text::{number_error_text, number_value, parse_number, string_from_utf8};
use crate::tokens::{line_data, split_words, token_views, without_newline, words};
use crate::value::{Value, ValueView};
use vstd::prelude::*;
use vstd::string::{StringExecFns, StringSliceAdditionalSpecFns};
use vstd::utf8::{decode_utf8, encode_utf8, valid_utf8};

verus! {

/// The two ways in which reading a command fails.
#[derive(Debug, Clone, Copy, PartialEq, Eq, Structural)]
pub enum DecodeErrorKind {
    /// The input ended: the connection is to be closed.
    UnexpectedEof,
    /// The line holds no command: the client is told so, and the
    /// connection stays open.
    InvalidInput,
}

/// Why no command was read.
#[derive(Debug, PartialEq)]
pub struct DecodeError {
    pub kind: DecodeErrorKind,
    pub message: String,
}

/// What a line gave.
#[derive(Debug, PartialEq)]
pub enum Decoded {
    /// A whole command.
    Command(Command),
    /// The first line of a `set`: its data are on the next line.
    Incomplete,
}

/// What `decode` gives, over views.
pub enum Outcome {
    Command(CommandView),
    Incomplete,
    Failed { kind: DecodeErrorKind, message: Seq<char> },
}

/// What is kept of the first line of a `set` until its data arrive.
pub struct SetHead {
    key: String,
    flags: usize,
    exptime: usize,
}

/// What a `SetHead` holds.
pub struct SetHeadView {
    pub key: Seq<char>,
    pub flags: usize,
    pub exptime: usize,
}

impl View for SetHead {
    type V = SetHeadView;

    closed spec fn view(&self) -> SetHeadView {
        SetHeadView { key: self.key@, flags: self.flags, exptime: self.exptime }
    }
}

/// What a line that starts a command asks for.
pub enum Header {
    /// A command of one line.
    Whole(CommandView),
    /// A `set`, whose data follow.
    SetHead(SetHeadView),
    /// No command, and why.
    Refused(Seq<char>),
}

/// The bytes of a text of ASCII characters.
pub open spec fn ascii_bytes(text: Seq<char>) -> Seq<u8> {
    Seq::new(text.len(), |i: int| text[i] as u8)
}

/// What the words of a line that starts with `set` ask for: the key and
/// three numbers, of which the last is read and not used.
pub open spec fn set_header(w: Seq<Seq<u8>>) -> Header {
    if w.len() != 5 {
        Header::Refused("set command length must be 5"@)
    } else {
        match (number_value(w[2]), number_value(w[3]), number_value(w[4])) {
            (Err(e), _, _) => Header::Refused(number_error_text(e)),
            (Ok(_), Err(e), _) => Header::Refused(number_error_text(e)),
            (Ok(_), Ok(_), Err(e)) => Header::Refused(number_error_text(e)),
            (Ok(flags), Ok(exptime), Ok(_)) => Header::SetHead(
                SetHeadView { key: decode_utf8(w[1]), flags, exptime },
            ),
        }
    }
}

/// What a line that starts a command asks for.
pub open spec fn header(line: Seq<u8>) -> Header {
    let w = words(line);
    if w.len() == 0 {
        Header::Refused("no content"@)
    } else if w[0] == ascii_bytes("set"@) {
        set_header(w)
    } else if w[0] == ascii_bytes("get"@) {
        if w.len() != 2 {
            Header::Refused("get command length must be 2"@)
        } else {
            Header::Whole(CommandView::Get { key: decode_utf8(w[1]) })
        }
    } else if w[0] == ascii_bytes("delete"@) {
        if w.len() != 2 {
            Header::Refused("delete command length must be 2"@)
        } else {
            Header::Whole(CommandView::Delete { key: decode_utf8(w[1]) })
        }
    } else if w[0] == ascii_bytes("stats"@) {
        Header::Whole(CommandView::Stats)
    } else {
        Header::Refused("unknown command: "@ + decode_utf8(w[0]))
    }
}

/// What the decoder does with a line, or with the end of the input where
/// there is no line: the `set` it then waits for data of, and what it gives.
pub open spec fn step(pending: Option<SetHeadView>, line: Option<Seq<char>>) -> (
    Option<SetHeadView>,
    Outcome,
) {
    match line {
        None => (
            None,
            Outcome::Failed { kind: DecodeErrorKind::UnexpectedEof, message: "got eof"@ },
        ),
        Some(text) => match pending {
            Some(head) => (
                None,
                Outcome::Command(
                    CommandView::Store {
                        key: head.key,
                        value: ValueView {
                            data: decode_utf8(without_newline(encode_utf8(text))),
                            flags: head.flags,
                            exptime: head.exptime,
                        },
                    },
                ),
            ),
            None => match header(encode_utf8(text)) {
                Header::Whole(command) => (None, Outcome::Command(command)),
                Header::SetHead(head) => (Some(head), Outcome::Incomplete),
                Header::Refused(message) => (
                    None,
                    Outcome::Failed { kind: DecodeErrorKind::InvalidInput, message },
                ),
            },
        },
    }
}

/// What a result of `decode` holds.
pub open spec fn outcome_of(res: Result<Decoded, DecodeError>) -> Outcome {
    match res {
        Ok(Decoded::Command(command)) => Outcome::Command(command@),
        Ok(Decoded::Incomplete) => Outcome::Incomplete,
        Err(e) => Outcome::Failed { kind: e.kind, message: e.message@ },
    }
}

/// Whether two byte strings are the same.
fn same_bytes(a: &[u8], b: &[u8]) -> (same: bool)
    ensures
        same == (a@ == b@),
{
    if a.len() != b.len() {
        return false;
    }
    let mut i: usize = 0;
    while i < a.len()
        invariant
            a@.len() == b@.len(),
            i <= a@.len(),
            forall|j: int| 0 <= j < i ==> a@[j] == b@[j],
        decreases a.len() - i,
    {
        if a[i] != b[i] {
            return false;
        }
        i += 1;
    }
    proof {
        assert(a@ =~= b@);
    }
    true
}

/// Whether `token` is the word `text`.
fn is_word(token: &Vec<u8>, text: &str) -> (yes: bool)
    requires
        vstd::string::is_ascii(text),
    ensures
        yes == (token@ == ascii_bytes(text@)),
{
    proof {
        vstd::string::is_ascii_spec_bytes(text);
        assert(text.spec_bytes() =~= ascii_bytes(text@));
    }
    same_bytes(token.as_slice(), text.as_bytes())
}

/// The text of a word of valid UTF-8.
fn word_text(word: Vec<u8>) -> (text: String)
    requires
        valid_utf8(word@),
    ensures
        text@ == decode_utf8(word@),
{
    match string_from_utf8(word) {
        Some(text) => text,
        None => {
            proof {
                assert(false);
            }
            unreached()
        },
    }
}

/// An error that leaves the connection open.
fn refused(message: String) -> (e: DecodeError)
    ensures
        e.kind == DecodeErrorKind::InvalidInput,
        e.message == message,
{
    DecodeError { kind: DecodeErrorKind::InvalidInput, message }
}

/// A new decoder, which waits for a command.
pub fn new() -> (decoder: Decoder)
    ensures
        decoder.pending() is None,
{
    Decoder { pending: None }
}

/// Reads commands line by line.
pub struct Decoder {
    pending: Option<SetHead>,
}

impl Decoder {
    /// The `set` whose data the decoder waits for, if it waits for any.
    pub closed spec fn pending(&self) -> Option<SetHeadView> {
        match self.pending {
            Some(head) => Some(head@),
            None => None,
        }
    }

    /// Takes the next line of the input, or `None` where the input has
    /// ended, and gives the command that it completes.
    pub fn decode(&mut self, line: Option<&str>) -> (res: Result<Decoded, DecodeError>)
        ensures
            (final(self).pending(), outcome_of(res)) == step(
                old(self).pending(),
                match line {
                    Some(text) => Some(text@),
                    None => None,
                },
            ),
    {
        let pending = self.pending.take();
        let text = match line {
            Some(text) => text,
            None => {
                return Err(
                    DecodeError {
                        kind: DecodeErrorKind::UnexpectedEof,
                        message: "got eof".to_owned(),
                    },
                );
            },
        };
        let bytes = text.as_bytes();
        proof {
            vstd::utf8::encode_utf8_valid_utf8(text@);
        }
        match pending {
            Some(head) => {
                let data = word_text(line_data(bytes));
                let value = Value::new(data, head.flags, head.exptime);
                Ok(Decoded::Command(Command::new_set(head.key, value)))
            },
            None => {
                let commands = split_words(bytes);
                if commands.len() == 0 {
                    return Err(refused("no content".to_owned()));
                }
                proof {
                    reveal_strlit("set");
                    reveal_strlit("get");
                    reveal_strlit("delete");
                    reveal_strlit("stats");
                    assert(token_views(commands@)[0] == commands@[0]@);
                }
                if is_word(&commands[0], "set") {
                    match Self::decode_set(commands) {
                        Ok(head) => {
                            self.pending = Some(head);
                            Ok(Decoded::Incomplete)
                        },
                        Err(e) => Err(e),
                    }
                } else if is_word(&commands[0], "get") {
                    match Self::decode_get(commands) {
                        Ok(command) => Ok(Decoded::Command(command)),
                        Err(e) => Err(e),
                    }
                } else if is_word(&commands[0], "delete") {
                    match Self::decode_delete(commands) {
                        Ok(command) => Ok(Decoded::Command(command)),
                        Err(e) => Err(e),
                    }
                } else if is_word(&commands[0], "stats") {
                    Ok(Decoded::Command(Command::new_stats()))
                } else {
                    let mut commands = commands;
                    let mut message = "unknown command: ".to_owned();
                    let word = word_text(commands.swap_remove(0));
                    message.append(word.as_str());
                    Err(refused(message))
                }
            },
        }
    }

    /// Reads the first line of a `set` from its words.
    fn decode_set(commands: Vec<Vec<u8>>) -> (res: Result<SetHead, DecodeError>)
        requires
            forall|i: int| 0 <= i < commands@.len() ==> valid_utf8(#[trigger] commands@[i]@),
        ensures
            match res {
                Ok(head) => set_header(token_views(commands@)) == Header::SetHead(head@),
                Err(e) => e.kind == DecodeErrorKind::InvalidInput && set_header(
                    token_views(commands@),
                ) == Header::Refused(e.message@),
            },
    {
        if commands.len() != 5 {
            return Err(refused("set command length must be 5".to_owned()));
        }
        proof {
            assert(token_views(commands@)[1] == commands@[1]@);
            assert(token_views(commands@)[2] == commands@[2]@);
            assert(token_views(commands@)[3] == commands@[3]@);
            assert(token_views(commands@)[4] == commands@[4]@);
        }
        let flags = match parse_number(commands[2].as_slice()) {
            Ok(flags) => flags,
            Err(e) => {
                return Err(refused(e.message()));
            },
        };
        let exptime = match parse_number(commands[3].as_slice()) {
            Ok(exptime) => exptime,
            Err(e) => {
                return Err(refused(e.message()));
            },
        };
        let _bytes = match parse_number(commands[4].as_slice()) {
            Ok(bytes) => bytes,
            Err(e) => {
                return Err(refused(e.message()));
            },
        };
        let mut commands = commands;
        let key = word_text(commands.swap_remove(1));
        Ok(SetHead { key, flags, exptime })
    }

    /// Reads a `get` from its words.
    fn decode_get(commands: Vec<Vec<u8>>) -> (res: Result<Command, DecodeError>)
        requires
            forall|i: int| 0 <= i < commands@.len() ==> valid_utf8(#[trigger] commands@[i]@),
        ensures
            match res {
                Ok(command) => {
                    &&& commands@.len() == 2
                    &&& command@ == (CommandView::Get { key: decode_utf8(commands@[1]@) })
                },
                Err(e) => {
                    &&& commands@.len() != 2
                    &&& e.kind == DecodeErrorKind::InvalidInput
                    &&& e.message@ == "get command length must be 2"@
                },
            },
    {
        if commands.len() != 2 {
            return Err(refused("get command length must be 2".to_owned()));
        }
        let mut commands = commands;
        let key = word_text(commands.swap_remove(1));
        Ok(Command::new_get(key))
    }

    /// Reads a `delete` from its words.
    fn decode_delete(commands: Vec<Vec<u8>>) -> (res: Result<Command, DecodeError>)
        requires
            forall|i: int| 0 <= i < commands@.len() ==> valid_utf8(#[trigger] commands@[i]@),
        ensures
            match res {
                Ok(command) => {
                    &&& commands@.len() == 2
                    &&& command@ == (CommandView::Delete { key: decode_utf8(commands@[1]@) })
                },
                Err(e) => {
                    &&& commands@.len() != 2
                    &&& e.kind == DecodeErrorKind::InvalidInput
                    &&& e.message@ == "delete command length must be 2"@
                },
            },
    {
        if commands.len() != 2 {
            return Err(refused("delete command length must be 2".to_owned()));
        }
        let mut commands = commands;
        let key = word_text(commands.swap_remove(1));
        Ok(Command::new_delete(key))
    }
}

} // verus!
