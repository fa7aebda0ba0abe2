//! Carries out commands on a memtable and the segments. Where a command
//! needs outside work, a write to the log or to a segment's file, the
//! executor says so and goes on once it is told how the work went.

use crate::avl::tree::{ascending, lemma_listed_len, lists};
use crate::binary::value_ref_view;
use crate::command::Command;
use crate::error::MalformedRecord;
use crate::memtable::{entry_refs_view, live, record_refs_view, AvlMemtable, Memtable};
use crate::record::{frame, parse_log};
use crate::sstable::{file_views, HashMapSSTable, SSTable};
use crate::store::{
    lemma_left_writable, lemma_live_len, lemma_sorted_is, OutcomeView, StepView, StoreView,
    WaitingView, FLUSH_THRESHOLD,
};
use crate::text::push_decimal;
use crate::value::{Value, ValueView};
use vstd::prelude::*;
use vstd::string::StringExecFns;

verus! {

/// What the executor asks of its caller.
#[derive(Debug, PartialEq)]
pub enum Step {
    /// To send this reply; the command is done.
    Reply(String),
    /// To report this error; the command is done.
    Fail(String),
    /// To append these bytes to the log, and then to `resume`.
    AppendWal(Vec<u8>),
    /// To write a new file of this name with these contents, and then
    /// to `resume`.
    WriteSegment { file_name: String, bytes: Vec<u8> },
    /// To empty the log, and then to `resume`.
    TruncateWal,
}

impl View for Step {
    type V = StepView;

    open spec fn view(&self) -> StepView {
        match self {
            Step::Reply(text) => StepView::Reply(text@),
            Step::Fail(text) => StepView::Fail(text@),
            Step::AppendWal(bytes) => StepView::AppendWal(bytes@),
            Step::WriteSegment { file_name, bytes } => StepView::WriteSegment {
                file_name: file_name@,
                bytes: bytes@,
            },
            Step::TruncateWal => StepView::TruncateWal,
        }
    }
}

/// How outside work went.
#[derive(Debug, PartialEq)]
pub enum IoOutcome {
    Done,
    Failed(String),
}

impl View for IoOutcome {
    type V = OutcomeView;

    open spec fn view(&self) -> OutcomeView {
        match self {
            IoOutcome::Done => OutcomeView::Done,
            IoOutcome::Failed(message) => OutcomeView::Failed(message@),
        }
    }
}

/// The write that waits for outside work.
enum Waiting {
    Idle,
    Put { key: String, value: Value },
    Delete { key: String },
    Segment,
    Truncate,
}

impl View for Waiting {
    type V = WaitingView;

    closed spec fn view(&self) -> WaitingView {
        match self {
            Waiting::Idle => WaitingView::Idle,
            Waiting::Put { key, value } => WaitingView::Put { key: key@, value: value@ },
            Waiting::Delete { key } => WaitingView::Delete { key: key@ },
            Waiting::Segment => WaitingView::Segment,
            Waiting::Truncate => WaitingView::Truncate,
        }
    }
}

/// The lines that go to the client for a reply.
pub open spec fn reply_lines(text: Seq<char>) -> Seq<char> {
    text + "\n"@
}

/// The line that goes to the client for an error.
pub open spec fn error_lines(message: Seq<char>) -> Seq<char> {
    "[error] "@ + message + "\n"@
}

/// The lines that go to the client for a reply.
pub fn reply_text(text: &str) -> (lines: String)
    ensures
        lines@ == reply_lines(text@),
{
    let mut lines = text.to_owned();
    lines.append("\n");
    lines
}

/// The line that goes to the client for an error.
pub fn error_text(message: &str) -> (lines: String)
    ensures
        lines@ == error_lines(message@),
{
    let mut lines = "[error] ".to_owned();
    lines.append(message);
    lines.append("\n");
    lines
}

/// The store that a start finds: the memtable that the log with the
/// contents `log` leaves behind, and the segments of the files with the
/// contents `files`, which stand in the order of the files' names. Fails
/// where the log or a file does not read back.
pub fn recover(log: Vec<u8>, files: Vec<Vec<u8>>) -> (res: Result<
    Executor<AvlMemtable, HashMapSSTable>,
    MalformedRecord,
>)
    ensures
        match res {
            Ok(executor) => {
                &&& executor.well_formed()
                &&& executor@.durable()
                &&& executor@.log == log@
                &&& executor@.files == file_views(files@)
                &&& executor@.waiting is Idle
            },
            Err(_) => parse_log(log@) is None || exists|i: int|
                0 <= i < files@.len() && parse_log(#[trigger] files@[i]@) is None,
        },
{
    let memtable = match AvlMemtable::new(log) {
        Ok(memtable) => memtable,
        Err(e) => {
            return Err(e);
        },
    };
    let sstable = match HashMapSSTable::new(files) {
        Ok(sstable) => sstable,
        Err(e) => {
            return Err(e);
        },
    };
    proof {
        lemma_left_writable(memtable.log(), memtable.table());
    }
    Ok(Executor::new(memtable, sstable))
}

/// Carries out commands on a memtable and the segments.
pub struct Executor<M: Memtable, S: SSTable> {
    memtable: M,
    sstable: S,
    waiting: Waiting,
}

impl<M: Memtable, S: SSTable> View for Executor<M, S> {
    type V = StoreView;

    closed spec fn view(&self) -> StoreView {
        StoreView {
            table: self.memtable.table(),
            segments: self.sstable.tables(),
            log: self.memtable.log(),
            files: self.sstable.files(),
            waiting: self.waiting@,
        }
    }
}

impl<M: Memtable, S: SSTable> Executor<M, S> {
    /// The memtable and the segments keep their rules, and the memtable
    /// has room for the write that is under way.
    pub closed spec fn well_formed(&self) -> bool {
        &&& self.memtable.well_formed()
        &&& self.sstable.well_formed()
        &&& (self.waiting@ is Put || self.waiting@ is Delete) ==> self.memtable.table().dom().len()
            < usize::MAX
    }

    /// A well-formed executor holds finitely many keys in its memtable,
    /// and has one file for each segment.
    pub proof fn lemma_well_formed(&self)
        requires
            self.well_formed(),
        ensures
            self@.table.dom().finite(),
            self@.segments.len() == self@.files.len(),
    {
        self.memtable.lemma_finite();
        self.sstable.lemma_file_per_table();
    }

    /// An idle executor over `memtable` and `sstable`.
    pub fn new(memtable: M, sstable: S) -> (executor: Self)
        requires
            memtable.well_formed(),
            sstable.well_formed(),
        ensures
            executor.well_formed(),
            executor@ == (StoreView {
                table: memtable.table(),
                segments: sstable.tables(),
                log: memtable.log(),
                files: sstable.files(),
                waiting: WaitingView::Idle,
            }),
    {
        Self { memtable, sstable, waiting: Waiting::Idle }
    }

    /// Whether the memtable has room for one more key.
    pub fn has_room(&self) -> (yes: bool)
        requires
            self.well_formed(),
        ensures
            yes == (self@.table.dom().len() < usize::MAX),
    {
        let records = self.memtable.to_records();
        proof {
            lemma_listed_len::<String, Option<ValueView>>(
                record_refs_view(records@),
                self.memtable.table(),
            );
        }
        records.len() < usize::MAX
    }

    /// What a lookup finds for `key`: what the memtable has for it, else
    /// what the newest segment that holds the key has; nothing where the key
    /// was deleted there.
    pub fn get(&self, key: &String) -> (found: Option<&Value>)
        requires
            self.well_formed(),
        ensures
            value_ref_view(found) == self@.get(key@),
    {
        match self.memtable.search(key) {
            Some(found) => found,
            None => match self.sstable.search(key) {
                Some(found) => found,
                None => None,
            },
        }
    }

    /// The reply to a `get` of `key`.
    fn get_reply(&self, key: String) -> (text: String)
        requires
            self.well_formed(),
        ensures
            text@ == self@.get_reply(key@),
    {
        match self.get(&key) {
            Some(v) => {
                let mut text = v.to_string(key);
                text.append("END");
                text
            },
            None => "END".to_owned(),
        }
    }

    /// The reply to `stats`.
    fn stats_reply(&self) -> (text: String)
        requires
            self.well_formed(),
        ensures
            text@ == self@.stats_reply(),
    {
        let entries = self.memtable.to_vec();
        proof {
            let records = choose|records: Seq<(Seq<char>, Option<ValueView>)>|
                {
                    &&& ascending::<String, Option<ValueView>>(records)
                    &&& lists(records, self.memtable.table())
                    &&& entry_refs_view(entries@) == #[trigger] live(records)
                };
            lemma_live_len(records, self.memtable.table());
        }
        let mut text = "STAT curr_items ".to_owned();
        push_decimal(&mut text, entries.len());
        text
    }

    /// The reply to a command that changes nothing, a lookup or the
    /// statistics, while no write is under way; `None` for a write, and
    /// while a write is under way.
    pub fn query(&self, command: &Command) -> (reply: Option<String>)
        requires
            self.well_formed(),
        ensures
            match reply {
                Some(text) => self@.execute(command@) == (self@, StepView::Reply(text@)),
                None => !(self@.execute(command@).1 is Reply),
            },
    {
        match self.waiting {
            Waiting::Idle => {},
            _ => {
                return None;
            },
        }
        match command {
            Command::Get { key } => Some(self.get_reply(key.clone())),
            Command::Stats {  } => Some(self.stats_reply()),
            _ => None,
        }
    }

    /// Takes a command. A lookup or the statistics are answered at once;
    /// a write first asks for its record to be appended to the log. While a
    /// write is under way no command is taken.
    pub fn execute(&mut self, command: Command) -> (step: Step)
        requires
            old(self).well_formed(),
            command@ is Store || command@ is Delete ==> old(self)@.table.dom().len() < usize::MAX,
        ensures
            final(self).well_formed(),
            (final(self)@, step@) == old(self)@.execute(command@),
    {
        match self.waiting {
            Waiting::Idle => {},
            _ => {
                return Step::Fail("a write is under way".to_owned());
            },
        }
        match command {
            Command::Store { key, value } => {
                let bytes = frame(&key, Some(&value));
                self.waiting = Waiting::Put { key, value };
                Step::AppendWal(bytes)
            },
            Command::Get { key } => Step::Reply(self.get_reply(key)),
            Command::Delete { key } => {
                let bytes = frame(&key, None);
                self.waiting = Waiting::Delete { key };
                Step::AppendWal(bytes)
            },
            Command::Stats {  } => Step::Reply(self.stats_reply()),
        }
    }

    /// Goes on with the write that is under way, once the outside work
    /// that the last step asked for is done or has failed.
    pub fn resume(&mut self, outcome: IoOutcome) -> (step: Step)
        requires
            old(self).well_formed(),
        ensures
            final(self).well_formed(),
            (final(self)@, step@) == old(self)@.resume(outcome@),
    {
        let mut waiting = Waiting::Idle;
        std::mem::swap(&mut waiting, &mut self.waiting);
        if let IoOutcome::Failed(message) = outcome {
            return Step::Fail(message);
        }
        match waiting {
            Waiting::Idle => Step::Fail("nothing to resume".to_owned()),
            Waiting::Put { key, value } => self.put(key, value),
            Waiting::Delete { key } => {
                self.memtable.delete(&key);
                Step::Reply("DELETED".to_owned())
            },
            Waiting::Segment => self.add_segment(),
            Waiting::Truncate => {
                self.memtable.clear();
                Step::Reply("STORED".to_owned())
            },
        }
    }

    /// Puts a value whose record is in the log into the memtable, and
    /// starts a flush where the memtable then holds more than
    /// `FLUSH_THRESHOLD` keys.
    fn put(&mut self, key: String, value: Value) -> (step: Step)
        requires
            old(self).well_formed(),
            old(self).waiting@ is Idle,
            old(self).memtable.table().dom().len() < usize::MAX,
        ensures
            final(self).well_formed(),
            (final(self)@, step@) == old(self)@.with_waiting(
                WaitingView::Put { key: key@, value: value@ },
            ).resume(OutcomeView::Done),
    {
        self.memtable.insert(key, value);
        let records = self.memtable.to_records();
        proof {
            lemma_sorted_is(record_refs_view(records@), self.memtable.table());
        }
        if records.len() > FLUSH_THRESHOLD {
            let (file_name, bytes) = self.sstable.next_file(&records);
            self.waiting = Waiting::Segment;
            Step::WriteSegment { file_name, bytes }
        } else {
            Step::Reply("STORED".to_owned())
        }
    }

    /// Makes the memtable, whose file is written, the newest segment, and
    /// asks for the log to be emptied.
    fn add_segment(&mut self) -> (step: Step)
        requires
            old(self).well_formed(),
            old(self).waiting@ is Idle,
        ensures
            final(self).well_formed(),
            (final(self)@, step@) == old(self)@.with_waiting(WaitingView::Segment).resume(
                OutcomeView::Done,
            ),
    {
        let records = self.memtable.to_records();
        proof {
            lemma_sorted_is(record_refs_view(records@), self.memtable.table());
        }
        self.sstable.create(records);
        self.waiting = Waiting::Truncate;
        Step::TruncateWal
    }
}

} // verus!
