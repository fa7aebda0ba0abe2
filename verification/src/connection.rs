//! What a connection does with what its decoder read, and what goes back
//! over it once a command is done.

use crate::command::{Command, CommandView};
use crate::decoder::{outcome_of, DecodeError, DecodeErrorKind, Decoded, Outcome};
use crate::executor::{error_lines, error_text, reply_lines, reply_text, Step};
use crate::store::StepView;
use vstd::prelude::*;

verus! {

/// What a connection does next.
#[derive(Debug, PartialEq)]
pub enum Turn {
    /// It has the command carried out, and sends what comes of it.
    Execute(Command),
    /// It reads the next line: a `set` waits for its data.
    ReadOn,
    /// It sends these lines, and stays open.
    Answer(String),
    /// It closes: the input has ended.
    Close,
}

/// What a `Turn` holds.
pub enum TurnView {
    Execute(CommandView),
    ReadOn,
    Answer(Seq<char>),
    Close,
}

impl View for Turn {
    type V = TurnView;

    open spec fn view(&self) -> TurnView {
        match self {
            Turn::Execute(command) => TurnView::Execute(command@),
            Turn::ReadOn => TurnView::ReadOn,
            Turn::Answer(lines) => TurnView::Answer(lines@),
            Turn::Close => TurnView::Close,
        }
    }
}

/// What a connection does with what its decoder gave: the end of the
/// input closes it; any other error is sent to the client, and the
/// connection stays open.
pub open spec fn turn_of(outcome: Outcome) -> TurnView {
    match outcome {
        Outcome::Command(command) => TurnView::Execute(command),
        Outcome::Incomplete => TurnView::ReadOn,
        Outcome::Failed { kind, message } => match kind {
            DecodeErrorKind::UnexpectedEof => TurnView::Close,
            DecodeErrorKind::InvalidInput => TurnView::Answer(error_lines(message)),
        },
    }
}

/// The lines that go to the client once a command is done: the reply, or
/// the error; none while the executor waits for outside work.
pub open spec fn response_of(step: StepView) -> Option<Seq<char>> {
    match step {
        StepView::Reply(text) => Some(reply_lines(text)),
        StepView::Fail(message) => Some(error_lines(message)),
        _ => None,
    }
}

/// What a connection does with what its decoder gave.
pub fn next_turn(decoded: Result<Decoded, DecodeError>) -> (turn: Turn)
    ensures
        turn@ == turn_of(outcome_of(decoded)),
{
    match decoded {
        Ok(Decoded::Command(command)) => Turn::Execute(command),
        Ok(Decoded::Incomplete) => Turn::ReadOn,
        Err(e) => match e.kind {
            DecodeErrorKind::UnexpectedEof => Turn::Close,
            DecodeErrorKind::InvalidInput => Turn::Answer(error_text(e.message.as_str())),
        },
    }
}

/// The lines that go to the client for a step of the executor that ends
/// a command.
pub fn response(step: &Step) -> (lines: Option<String>)
    ensures
        (match lines {
            Some(text) => Some(text@),
            None => None,
        }) == response_of(step@),
{
    match step {
        Step::Reply(text) => Some(reply_text(text.as_str())),
        Step::Fail(message) => Some(error_text(message.as_str())),
        _ => None,
    }
}

} // verus!
