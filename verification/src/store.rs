//! The store as a state machine: what it holds, what it does with a
//! command, and what it does once the outside work that it asked for is done.

use crate::avl::tree::{ascending, lemma_listed_len, lists};
use crate::binary::{lemma_value_bytes_len, parse_record};
use crate::command::CommandView;
use crate::le::lemma_le_bytes_len;
use crate::memtable::live;
use crate::order::TotalOrder;
use crate::record::{
    distinct_keys, first_with_key, frame_bytes, has_key, leaves, lemma_latest,
    lemma_parse_log_append, lemma_with_records, parse_log, with_records, writable, Table,
};
use crate::sstable::{find_in, segment_bytes, segment_name, segments_match};
use crate::text::decimal;
use crate::value::{value_bytes, value_lines, ValueView, MAX_LEN};
use vstd::prelude::*;

verus! {

/// The write that waits for outside work, if one does.
pub enum WaitingView {
    /// No write is under way: the store takes commands.
    Idle,
    /// A value waits for its record to be appended to the log.
    Put { key: Seq<char>, value: ValueView },
    /// A deletion waits for its record to be appended to the log.
    Delete { key: Seq<char> },
    /// A flush waits for the file of the new segment to be written.
    Segment,
    /// A flush waits for the log to be emptied.
    Truncate,
}

/// What a store holds.
pub struct StoreView {
    /// The memtable: the keys written since the last flush.
    pub table: Table,
    /// The segments' tables, the newest first.
    pub segments: Seq<Table>,
    /// What the log holds.
    pub log: Seq<u8>,
    /// What the files of the segments hold, in the order of their ordinals.
    pub files: Seq<Seq<u8>>,
    /// The write that is under way.
    pub waiting: WaitingView,
}

/// What the store asks of its caller.
pub enum StepView {
    /// To send this reply; the command is done.
    Reply(Seq<char>),
    /// To report this error; the command is done.
    Fail(Seq<char>),
    /// To append these bytes to the log, and to say how that went.
    AppendWal(Seq<u8>),
    /// To write a new file of this name with these contents, and to say
    /// how that went.
    WriteSegment { file_name: Seq<char>, bytes: Seq<u8> },
    /// To empty the log, and to say how that went.
    TruncateWal,
}

/// How outside work went.
pub enum OutcomeView {
    Done,
    Failed(Seq<char>),
}

/// A write that a client asks for.
pub enum WriteView {
    Put { key: Seq<char>, value: ValueView },
    Delete { key: Seq<char> },
}

/// The record of a write can be written and read back.
pub open spec fn write_writable(w: WriteView) -> bool {
    match w {
        WriteView::Put { key, value } => writable(key, Some(value)),
        WriteView::Delete { key } => writable(key, None),
    }
}

/// What a plain map holds after the writes `ws`, first to last: a value
/// written is put under its key, a key deleted is taken out.
pub open spec fn applied(m: Map<Seq<char>, ValueView>, ws: Seq<WriteView>) -> Map<
    Seq<char>,
    ValueView,
>
    decreases ws.len(),
{
    if ws.len() == 0 {
        m
    } else {
        match ws.last() {
            WriteView::Put { key, value } => applied(m, ws.drop_last()).insert(key, value),
            WriteView::Delete { key } => applied(m, ws.drop_last()).remove(key),
        }
    }
}

/// What the memtable holds after one write: the value or the mark of
/// the deletion under the key beside what it held; or nothing, where a value
/// was written and the memtable then held more than `FLUSH_THRESHOLD` keys
/// and was flushed.
pub open spec fn memtable_after(table: Table, w: WriteView) -> Table {
    match w {
        WriteView::Put { key, value } => if table.insert(key, Some(value)).dom().len()
            > FLUSH_THRESHOLD {
            Map::empty()
        } else {
            table.insert(key, Some(value))
        },
        WriteView::Delete { key } => table.insert(key, None),
    }
}

/// What a plain map holds after one write.
pub proof fn lemma_applied_one(m: Map<Seq<char>, ValueView>, w: WriteView)
    ensures
        applied(m, seq![w]) == (match w {
            WriteView::Put { key, value } => m.insert(key, value),
            WriteView::Delete { key } => m.remove(key),
        }),
{
    assert(seq![w].drop_last() =~= Seq::<WriteView>::empty());
    assert(seq![w].last() == w);
    assert(applied(m, Seq::<WriteView>::empty()) == m);
}

/// The number of entries of the memtable above which it is flushed.
pub const FLUSH_THRESHOLD: usize = 10;

/// What a lookup gives for `key`: what the memtable has for it, else what
/// the newest segment that holds the key has; nothing where that is the mark
/// of a deletion, or where no layer holds the key.
pub open spec fn lookup(table: Table, segments: Seq<Table>, key: Seq<char>) -> Option<ValueView> {
    if table.contains_key(key) {
        table[key]
    } else {
        match find_in(segments, key) {
            Some(found) => found,
            None => None,
        }
    }
}

/// The keys of `table` that hold a value.
pub open spec fn live_keys(table: Table) -> Set<Seq<char>> {
    table.dom().filter(|k: Seq<char>| table[k] is Some)
}

/// The entries of `table` in ascending order of their keys.
pub open spec fn sorted(table: Table) -> Seq<(Seq<char>, Option<ValueView>)> {
    choose|s: Seq<(Seq<char>, Option<ValueView>)>|
        ascending::<String, Option<ValueView>>(s) && lists(s, table)
}

impl StoreView {
    /// What a lookup gives for `key`.
    pub open spec fn get(self, key: Seq<char>) -> Option<ValueView> {
        lookup(self.table, self.segments, key)
    }

    /// The keys that a lookup finds, with their values.
    pub open spec fn contents(self) -> Map<Seq<char>, ValueView> {
        Map::new(|k: Seq<char>| self.get(k) is Some, |k: Seq<char>| self.get(k).unwrap())
    }

    /// The log leaves the memtable behind and each segment's file its
    /// table, and what the memtable holds can be written and read back: a
    /// restart finds the store as it is.
    pub open spec fn durable(self) -> bool {
        &&& leaves(self.log, self.table)
        &&& segments_match(self.segments, self.files)
        &&& forall|k: Seq<char>| #[trigger] self.table.contains_key(k) ==> writable(k, self.table[k])
    }

    /// The store with `waiting` under way.
    pub open spec fn with_waiting(self, waiting: WaitingView) -> Self {
        StoreView { waiting, ..self }
    }

    /// The store after the write of `value` under `key` to the memtable
    /// and the log, where `value` is `None` for a deletion.
    pub open spec fn written(self, key: Seq<char>, value: Option<ValueView>) -> Self {
        StoreView {
            table: self.table.insert(key, value),
            log: self.log + frame_bytes(key, value),
            waiting: WaitingView::Idle,
            ..self
        }
    }

    /// The reply to a `get` of `key`.
    pub open spec fn get_reply(self, key: Seq<char>) -> Seq<char> {
        match self.get(key) {
            Some(v) => value_lines(key, v) + "END"@,
            None => "END"@,
        }
    }

    /// The reply to `stats`.
    pub open spec fn stats_reply(self) -> Seq<char> {
        "STAT curr_items "@ + decimal(live_keys(self.table).len())
    }

    /// What an idle store does with a command: a lookup or the statistics
    /// are answered at once; a write first asks for its record to be
    /// appended to the log.
    pub open spec fn execute(self, command: CommandView) -> (StoreView, StepView) {
        if !(self.waiting is Idle) {
            (self, StepView::Fail("a write is under way"@))
        } else {
            self.execute_idle(command)
        }
    }

    /// What an idle store does with a command.
    pub open spec fn execute_idle(self, command: CommandView) -> (StoreView, StepView) {
        match command {
            CommandView::Store { key, value } => (
                self.with_waiting(WaitingView::Put { key, value }),
                StepView::AppendWal(frame_bytes(key, Some(value))),
            ),
            CommandView::Delete { key } => (
                self.with_waiting(WaitingView::Delete { key }),
                StepView::AppendWal(frame_bytes(key, None)),
            ),
            CommandView::Get { key } => (self, StepView::Reply(self.get_reply(key))),
            CommandView::Stats => (self, StepView::Reply(self.stats_reply())),
        }
    }

    /// What the store does once the outside work that it asked for is
    /// done. Where the work failed nothing changes and the error is
    /// reported. Where it went well: the write is made in the memtable; a
    /// value written to a memtable that then holds more than
    /// `FLUSH_THRESHOLD` keys starts a flush, which writes the memtable to a
    /// new segment, then empties the log and the memtable.
    pub open spec fn resume(self, outcome: OutcomeView) -> (StoreView, StepView) {
        match outcome {
            OutcomeView::Failed(message) => (
                self.with_waiting(WaitingView::Idle),
                StepView::Fail(message),
            ),
            OutcomeView::Done => match self.waiting {
                WaitingView::Idle => (self, StepView::Fail("nothing to resume"@)),
                WaitingView::Put { key, value } => {
                    let next = self.written(key, Some(value));
                    if next.table.dom().len() > FLUSH_THRESHOLD {
                        (
                            next.with_waiting(WaitingView::Segment),
                            StepView::WriteSegment {
                                file_name: segment_name(self.segments.len()),
                                bytes: segment_bytes(sorted(next.table)),
                            },
                        )
                    } else {
                        (next, StepView::Reply("STORED"@))
                    }
                },
                WaitingView::Delete { key } => (
                    self.written(key, None),
                    StepView::Reply("DELETED"@),
                ),
                WaitingView::Segment => (
                    StoreView {
                        segments: seq![self.table] + self.segments,
                        files: self.files.push(segment_bytes(sorted(self.table))),
                        waiting: WaitingView::Truncate,
                        ..self
                    },
                    StepView::TruncateWal,
                ),
                WaitingView::Truncate => (
                    StoreView {
                        table: Map::empty(),
                        log: Seq::empty(),
                        waiting: WaitingView::Idle,
                        ..self
                    },
                    StepView::Reply("STORED"@),
                ),
            },
        }
    }
}

/// Two lists with strictly ascending keys of the entries of one map are
/// the same list.
pub proof fn lemma_sorted_unique(
    a: Seq<(Seq<char>, Option<ValueView>)>,
    b: Seq<(Seq<char>, Option<ValueView>)>,
    m: Table,
    n: int,
)
    requires
        ascending::<String, Option<ValueView>>(a),
        ascending::<String, Option<ValueView>>(b),
        lists(a, m),
        lists(b, m),
        0 <= n <= a.len(),
    ensures
        a.len() == b.len(),
        a.take(n) == b.take(n),
    decreases n,
{
    lemma_listed_len::<String, Option<ValueView>>(a, m);
    lemma_listed_len::<String, Option<ValueView>>(b, m);
    if n == 0 {
        assert(a.take(0) =~= b.take(0));
    } else {
        lemma_sorted_unique(a, b, m, n - 1);
        let i = n - 1;
        assert forall|j: int| 0 <= j < i implies a[j] == b[j] by {
            assert(a.take(i)[j] == b.take(i)[j]);
        }
        let ka = a[i].0;
        let kb = b[i].0;
        String::lemma_precedes_total(ka, kb);
        String::lemma_precedes_irreflexive(ka);
        String::lemma_precedes_irreflexive(kb);
        if ka != kb {
            if String::precedes(ka, kb) {
                assert(m.contains_key(ka));
                let j = choose|j: int| 0 <= j < b.len() && (#[trigger] b[j]).0 == ka;
                if j < i {
                    assert(a[j].0 == ka);
                } else if j > i {
                    String::lemma_precedes_transitive(ka, kb, ka);
                }
            } else {
                assert(m.contains_key(kb));
                let j = choose|j: int| 0 <= j < a.len() && (#[trigger] a[j]).0 == kb;
                if j < i {
                    assert(b[j].0 == kb);
                } else if j > i {
                    String::lemma_precedes_transitive(kb, ka, kb);
                }
            }
        }
        assert(a[i].1 == m[ka] && b[i].1 == m[kb]);
        assert(a.take(n) =~= b.take(n));
    }
}

/// A list with strictly ascending keys of the entries of a table is the
/// table's sorted list, and the table is what putting the list's records
/// into the empty table gives.
pub proof fn lemma_sorted_is(r: Seq<(Seq<char>, Option<ValueView>)>, table: Table)
    requires
        ascending::<String, Option<ValueView>>(r),
        lists(r, table),
    ensures
        sorted(table) == r,
        with_records(Map::empty(), r) == table,
        distinct_keys(r),
        table.dom().finite(),
        table.dom().len() == r.len(),
{
    let s = sorted(table);
    lemma_sorted_unique(r, s, table, r.len() as int);
    assert(r.take(r.len() as int) =~= r);
    assert(s.take(r.len() as int) =~= s);
    assert forall|i: int, j: int| 0 <= i < j < r.len() implies (#[trigger] r[i]).0 != (
    #[trigger] r[j]).0 by {
        String::lemma_precedes_irreflexive(r[i].0);
    }
    lemma_with_records(r);
    let w = with_records(Map::empty(), r);
    assert forall|k: Seq<char>| w.contains_key(k) <==> table.contains_key(k) by {
        if table.contains_key(k) {
            let i = choose|i: int| 0 <= i < r.len() && (#[trigger] r[i]).0 == k;
            assert(has_key(r, k));
        }
        if w.contains_key(k) {
            assert(has_key(r, k));
            let i = choose|i: int| 0 <= i < r.len() && (#[trigger] r[i]).0 == k;
            assert(table.contains_key(r[i].0));
        }
    }
    assert forall|k: Seq<char>| w.contains_key(k) implies w[k] == table[k] by {
        assert(has_key(r, k));
        let i = choose|i: int| 0 <= i < r.len() && (#[trigger] r[i]).0 == k;
        assert(w[r[i].0] == r[i].1);
    }
    assert(w =~= table);
    lemma_listed_len::<String, Option<ValueView>>(r, table);
}

/// Of a list with strictly ascending keys of the entries of a table, as
/// many records hold a value as the table has keys that hold one.
pub proof fn lemma_live_len(r: Seq<(Seq<char>, Option<ValueView>)>, table: Table)
    requires
        ascending::<String, Option<ValueView>>(r),
        lists(r, table),
    ensures
        live_keys(table).finite(),
        live_keys(table).len() == live(r).len(),
    decreases r.len(),
{
    if r.len() == 0 {
        assert(live_keys(table) =~= Set::empty());
    } else {
        let last = r.last();
        let rest = r.drop_last();
        let t2 = table.remove(last.0);
        assert(r[r.len() - 1] == last);
        String::lemma_precedes_irreflexive(last.0);
        assert forall|i: int| 0 <= i < rest.len() implies t2.contains_key((#[trigger] rest[i]).0)
            && t2[rest[i].0] == rest[i].1 by {
            assert(rest[i] == r[i]);
        }
        assert forall|k: Seq<char>| #[trigger] t2.contains_key(k) implies exists|i: int|
            0 <= i < rest.len() && (#[trigger] rest[i]).0 == k by {
            assert(table.contains_key(k));
            let i = choose|i: int| 0 <= i < r.len() && (#[trigger] r[i]).0 == k;
            assert(rest[i] == r[i]);
        }
        assert forall|i: int, j: int| 0 <= i < j < rest.len() implies String::precedes(
            (#[trigger] rest[i]).0,
            (#[trigger] rest[j]).0,
        ) by {
            assert(rest[i] == r[i]);
            assert(rest[j] == r[j]);
        }
        lemma_live_len(rest, t2);
        if last.1 is Some {
            assert(live_keys(table) =~= live_keys(t2).insert(last.0));
        } else {
            assert(live_keys(table) =~= live_keys(t2));
        }
    }
}

/// A record that was read from bytes whose count fits a length field can
/// be written and read back.
pub proof fn lemma_parsed_writable(b: Seq<u8>)
    requires
        b.len() <= MAX_LEN,
        parse_record(b) is Some,
    ensures
        writable(parse_record(b).unwrap().0, parse_record(b).unwrap().1),
{
    let (key, value) = parse_record(b).unwrap();
    let key_end = b.len() - 2;
    let key_len = crate::le::le_value(b.subrange(key_end, b.len() as int));
    let key_start = key_end - key_len;
    let kb = b.subrange(key_start, key_end);
    vstd::utf8::decode_utf8_encode_utf8(kb);
    lemma_le_bytes_len(vstd::utf8::encode_utf8(key).len(), 2);
    match value {
        Some(v) => {
            let value_end = key_start - 4;
            let value_len = crate::le::le_value(b.subrange(value_end, key_start));
            let vb = b.subrange(value_end - value_len, value_end);
            let data_end = vb.len() - 4;
            let data_len = crate::le::le_value(vb.subrange(data_end, vb.len() as int));
            let data = vb.subrange(data_end - data_len, data_end);
            vstd::utf8::decode_utf8_encode_utf8(data);
            lemma_value_bytes_len(v);
            lemma_le_bytes_len(value_bytes(v).len(), 4);
        },
        None => {
            lemma_le_bytes_len(crate::binary::TOMBSTONE as nat, 4);
        },
    }
}

/// Every record of a file that reads back can be written and read back.
pub proof fn lemma_parsed_log_writable(b: Seq<u8>)
    requires
        parse_log(b) is Some,
    ensures
        forall|i: int|
            0 <= i < parse_log(b).unwrap().len() ==> writable(
                (#[trigger] parse_log(b).unwrap()[i]).0,
                parse_log(b).unwrap()[i].1,
            ),
    decreases b.len(),
{
    if b.len() > 0 {
        let end = b.len() - 4;
        let len = crate::le::le_value(b.subrange(end, b.len() as int));
        let rb = b.subrange(end - len, end);
        let older = b.take(end - len);
        lemma_parsed_writable(rb);
        lemma_parsed_log_writable(older);
        let all = parse_log(b).unwrap();
        assert forall|i: int| 0 <= i < all.len() implies writable((#[trigger] all[i]).0, all[i].1) by {
            if i > 0 {
                assert(all[i] == parse_log(older).unwrap()[i - 1]);
            }
        }
    }
}

/// What a file that reads back leaves behind can be written and read back.
pub proof fn lemma_left_writable(file: Seq<u8>, table: Table)
    requires
        leaves(file, table),
    ensures
        forall|k: Seq<char>| #[trigger] table.contains_key(k) ==> writable(k, table[k]),
{
    let all = parse_log(file).unwrap();
    lemma_parsed_log_writable(file);
    lemma_latest(all);
    assert forall|k: Seq<char>| #[trigger] table.contains_key(k) implies writable(k, table[k]) by {
        assert(has_key(all, k));
        lemma_first_index(all, k);
        let i = choose|i: int| first_with_key(all, i) && all[i].0 == k;
        assert(first_with_key(all, i));
    }
}

/// A list that has a record with the key `k` has a first such record.
pub proof fn lemma_first_index<V>(s: Seq<(Seq<char>, V)>, k: Seq<char>)
    requires
        has_key(s, k),
    ensures
        exists|i: int| first_with_key(s, i) && s[i].0 == k,
    decreases s.len(),
{
    let rest = s.drop_last();
    if has_key(rest, k) {
        lemma_first_index(rest, k);
        let i = choose|i: int| first_with_key(rest, i) && rest[i].0 == k;
        assert forall|j: int| 0 <= j < i implies (#[trigger] s[j]).0 != s[i].0 by {
            assert(rest[j].0 != rest[i].0);
        }
        assert(first_with_key(s, i) && s[i].0 == k);
    } else {
        let j = choose|j: int| 0 <= j < s.len() && (#[trigger] s[j]).0 == k;
        if j < rest.len() {
            assert(rest[j].0 == k);
        }
        let i = s.len() - 1;
        assert forall|j2: int| 0 <= j2 < i implies (#[trigger] s[j2]).0 != s[i].0 by {
            if s[j2].0 == s[i].0 {
                assert(rest[j2].0 == k);
            }
        }
        assert(first_with_key(s, i) && s[i].0 == k);
    }
}

/// The file of a segment of records that can be written reads back as
/// those records, the last first, and leaves behind the table that putting
/// the records into the empty table gives.
pub proof fn lemma_segment_file(r: Seq<(Seq<char>, Option<ValueView>)>)
    requires
        forall|i: int| 0 <= i < r.len() ==> writable((#[trigger] r[i]).0, r[i].1),
    ensures
        parse_log(segment_bytes(r)) == Some(r.reverse()),
        leaves(segment_bytes(r), with_records(Map::empty(), r)),
    decreases r.len(),
{
    if r.len() == 0 {
        assert(r.reverse() =~= Seq::empty());
    } else {
        let rest = r.drop_last();
        let last = r.last();
        assert forall|i: int| 0 <= i < rest.len() implies writable(
            (#[trigger] rest[i]).0,
            rest[i].1,
        ) by {
            assert(rest[i] == r[i]);
        }
        lemma_segment_file(rest);
        assert(writable(r[r.len() - 1].0, r[r.len() - 1].1));
        lemma_parse_log_append(segment_bytes(rest), last.0, last.1);
        assert(seq![last] + rest.reverse() =~= r.reverse());
        assert(r.reverse().skip(1) =~= rest.reverse());
    }
}

impl StoreView {
    /// The store after a write has run from its command to its reply,
    /// with all the outside work that it asked for done.
    #[verifier::opaque]
    pub open spec fn after_write(self, w: WriteView) -> StoreView {
        match w {
            WriteView::Put { key, value } => {
                let appended = self.execute(CommandView::Store { key, value }).0.resume(
                    OutcomeView::Done,
                );
                if appended.1 is WriteSegment {
                    appended.0.resume(OutcomeView::Done).0.resume(OutcomeView::Done).0
                } else {
                    appended.0
                }
            },
            WriteView::Delete { key } => self.execute(CommandView::Delete { key }).0.resume(
                OutcomeView::Done,
            ).0,
        }
    }

    /// The store after the writes `ws`, first to last.
    pub open spec fn after_writes(self, ws: Seq<WriteView>) -> StoreView
        decreases ws.len(),
    {
        if ws.len() == 0 {
            self
        } else {
            self.after_writes(ws.drop_last()).after_write(ws.last())
        }
    }

    /// After any writes a lookup finds what a plain map holds to which
    /// the same writes were applied, whatever flushes there were on the way.
    /// And if a restart would have found the store as it was, and the
    /// records of the writes can be written and read back, a restart finds
    /// the store as it then is.
    pub proof fn lemma_writes(self, ws: Seq<WriteView>)
        requires
            self.waiting is Idle,
            self.table.dom().finite(),
        ensures
            self.after_writes(ws).waiting is Idle,
            self.after_writes(ws).table.dom().finite(),
            self.after_writes(ws).contents() == applied(self.contents(), ws),
            self.durable() && (forall|i: int| 0 <= i < ws.len() ==> write_writable(#[trigger] ws[i]))
                ==> self.after_writes(ws).durable(),
        decreases ws.len(),
    {
        if ws.len() > 0 {
            let before = self.after_writes(ws.drop_last());
            self.lemma_writes(ws.drop_last());
            before.lemma_write(ws.last());
            lemma_applied_one(before.contents(), ws.last());
            if self.durable() && (forall|i: int|
                0 <= i < ws.len() ==> write_writable(#[trigger] ws[i])) {
                assert forall|i: int| 0 <= i < ws.drop_last().len() implies write_writable(
                    #[trigger] ws.drop_last()[i],
                ) by {
                    assert(ws.drop_last()[i] == ws[i]);
                }
                assert(write_writable(ws[ws.len() - 1]));
            }
        }
    }

    /// What `lemma_writes` says, of one write.
    pub proof fn lemma_write(self, w: WriteView)
        requires
            self.waiting is Idle,
            self.table.dom().finite(),
        ensures
            self.after_write(w).waiting is Idle,
            self.after_write(w).table.dom().finite(),
            self.after_write(w).table == memtable_after(self.table, w),
            self.after_write(w).contents() == applied(self.contents(), seq![w]),
            self.durable() && write_writable(w) ==> self.after_write(w).durable(),
    {
        lemma_applied_one(self.contents(), w);
        match w {
            WriteView::Put { key, value } => {
                self.lemma_put_contents(key, value);
                if self.durable() && write_writable(w) {
                    self.lemma_put_durable(key, value);
                }
            },
            WriteView::Delete { key } => {
                self.lemma_delete_write(key);
            },
        }
    }

    /// After a key was deleted a lookup no longer finds it, and finds all
    /// else as before; and a restart finds the store as it then is, if it
    /// would have found it as it was and the record of the deletion can be
    /// written and read back.
    proof fn lemma_delete_write(self, key: Seq<char>)
        requires
            self.waiting is Idle,
            self.table.dom().finite(),
        ensures
            self.after_write(WriteView::Delete { key }).waiting is Idle,
            self.after_write(WriteView::Delete { key }).table.dom().finite(),
            self.after_write(WriteView::Delete { key }).table == self.table.insert(key, None),
            self.after_write(WriteView::Delete { key }).contents() == self.contents().remove(key),
            self.durable() && writable(key, None) ==> self.after_write(
                WriteView::Delete { key },
            ).durable(),
    {
        reveal(StoreView::after_write);
        let started = self.with_waiting(WaitingView::Delete { key });
        assert(started.contents() == self.contents());
        started.lemma_delete(key);
        if self.durable() && writable(key, None) {
            started.lemma_resume_keeps_durable(OutcomeView::Done);
        }
    }

    /// What the store is after a value was written, by the steps on the
    /// way: the write to the memtable and the log, and the two steps of a
    /// flush where the memtable has grown beyond the threshold.
    proof fn lemma_put_steps(self, key: Seq<char>, value: ValueView) -> (steps: (
        StoreView,
        StoreView,
        StoreView,
    ))
        requires
            self.waiting is Idle,
        ensures
            steps.0 == self.with_waiting(WaitingView::Put { key, value }),
            steps.1 == steps.0.resume(OutcomeView::Done).0,
            steps.1.table == self.table.insert(key, Some(value)),
            steps.0.resume(OutcomeView::Done).1 is WriteSegment ==> steps.1.waiting is Segment
                && steps.2 == steps.1.resume(OutcomeView::Done).0 && steps.2.waiting is Truncate
                && self.after_write(WriteView::Put { key, value }) == steps.2.resume(
                OutcomeView::Done,
            ).0,
            !(steps.0.resume(OutcomeView::Done).1 is WriteSegment) ==> steps.1.waiting is Idle
                && self.after_write(WriteView::Put { key, value }) == steps.1,
    {
        reveal(StoreView::after_write);
        let started = self.with_waiting(WaitingView::Put { key, value });
        let appended = started.resume(OutcomeView::Done).0;
        let flushed = appended.resume(OutcomeView::Done).0;
        (started, appended, flushed)
    }

    /// After a value was written a lookup finds it, and all else as
    /// before, whether or not the write led to a flush.
    proof fn lemma_put_contents(self, key: Seq<char>, value: ValueView)
        requires
            self.waiting is Idle,
            self.table.dom().finite(),
        ensures
            self.after_write(WriteView::Put { key, value }).waiting is Idle,
            self.after_write(WriteView::Put { key, value }).table.dom().finite(),
            self.after_write(WriteView::Put { key, value }).table == memtable_after(
                self.table,
                WriteView::Put { key, value },
            ),
            self.after_write(WriteView::Put { key, value }).contents() == self.contents().insert(
                key,
                value,
            ),
    {
        let (started, appended, flushed) = self.lemma_put_steps(key, value);
        let last = self.after_write(WriteView::Put { key, value });
        assert(started.contents() == self.contents());
        started.lemma_put(key, value);
        if started.resume(OutcomeView::Done).1 is WriteSegment {
            assert forall|k: Seq<char>| last.get(k) == appended.get(k) by {
                appended.lemma_flush_keeps_contents(k);
            }
            assert(last.contents() =~= appended.contents());
            appended.lemma_flush_keeps_contents(key);
            assert(last.table.dom().len() == 0);
            assert(last.table.dom() =~= Set::empty()) by {
                assert(last.table == Map::<Seq<char>, Option<ValueView>>::empty());
            }
        }
    }

    /// If a restart would find the store as it is, it finds it as it is
    /// after a value was written whose record can be written and read back.
    proof fn lemma_put_durable(self, key: Seq<char>, value: ValueView)
        requires
            self.waiting is Idle,
            self.table.dom().finite(),
            self.durable(),
            writable(key, Some(value)),
        ensures
            self.after_write(WriteView::Put { key, value }).durable(),
    {
        let (started, appended, flushed) = self.lemma_put_steps(key, value);
        assert(started.durable());
        started.lemma_resume_keeps_durable(OutcomeView::Done);
        if started.resume(OutcomeView::Done).1 is WriteSegment {
            appended.lemma_resume_keeps_durable(OutcomeView::Done);
            flushed.lemma_resume_keeps_durable(OutcomeView::Done);
        }
    }

    /// A command changes nothing of what the store holds until the
    /// outside work that it asks for is done.
    pub proof fn lemma_execute_keeps(self, command: CommandView)
        ensures
            self.execute(command).0.with_waiting(self.waiting) == self,
    {
    }

    /// A `get` replies with what the lookup finds; a `set` or a `delete`
    /// of an idle store asks for its record to be appended to the log.
    pub proof fn lemma_execute_idle(self, command: CommandView)
        requires
            self.waiting is Idle,
        ensures
            command matches CommandView::Get { key } ==> self.execute(command).1
                == StepView::Reply(self.get_reply(key)),
            command matches CommandView::Store { key, value } ==> self.execute(command).1
                == StepView::AppendWal(frame_bytes(key, Some(value))),
            command matches CommandView::Delete { key } ==> self.execute(command).1
                == StepView::AppendWal(frame_bytes(key, None)),
    {
    }

    /// Outside work that failed leaves the store as it was, and idle.
    pub proof fn lemma_failure_keeps(self, message: Seq<char>)
        ensures
            self.resume(OutcomeView::Failed(message)) == (
                self.with_waiting(WaitingView::Idle),
                StepView::Fail(message),
            ),
    {
    }

    /// Once its record is in the log, a value is in the memtable under
    /// its key, and a lookup finds it there and all else as before. A flush
    /// starts exactly where the memtable then holds more than
    /// `FLUSH_THRESHOLD` keys.
    pub proof fn lemma_put(self, key: Seq<char>, value: ValueView)
        requires
            self.waiting == (WaitingView::Put { key, value }),
            self.table.dom().finite(),
        ensures
            self.resume(OutcomeView::Done).0.table == self.table.insert(key, Some(value)),
            self.resume(OutcomeView::Done).0.contents() == self.contents().insert(key, value),
            self.resume(OutcomeView::Done).0.get(key) == Some(value),
            self.resume(OutcomeView::Done).1 is WriteSegment <==> self.table.insert(
                key,
                Some(value),
            ).dom().len() > FLUSH_THRESHOLD,
            !(self.resume(OutcomeView::Done).1 is WriteSegment) ==> self.resume(
                OutcomeView::Done,
            ).1 == StepView::Reply("STORED"@),
    {
        let next = self.resume(OutcomeView::Done).0;
        assert(next.contents() =~= self.contents().insert(key, value));
    }

    /// Once its record is in the log, a deletion is marked in the
    /// memtable, and a lookup no longer finds the key, whatever the segments
    /// hold for it, and finds all else as before.
    pub proof fn lemma_delete(self, key: Seq<char>)
        requires
            self.waiting == (WaitingView::Delete { key }),
        ensures
            self.resume(OutcomeView::Done).0.table == self.table.insert(key, None),
            self.resume(OutcomeView::Done).0.contents() == self.contents().remove(key),
            self.resume(OutcomeView::Done).0.get(key) is None,
            self.resume(OutcomeView::Done).1 == StepView::Reply("DELETED"@),
    {
        let next = self.resume(OutcomeView::Done).0;
        assert(next.contents() =~= self.contents().remove(key));
    }

    /// The two steps of a flush change nothing of what a lookup finds:
    /// the memtable becomes the newest segment, and is then emptied.
    pub proof fn lemma_flush_keeps_contents(self, key: Seq<char>)
        requires
            self.waiting is Segment,
        ensures
            self.resume(OutcomeView::Done).0.get(key) == self.get(key),
            self.resume(OutcomeView::Done).0.resume(OutcomeView::Done).0.get(key) == self.get(key),
            self.resume(OutcomeView::Done).0.resume(OutcomeView::Done).0.table.dom().len() == 0,
            self.resume(OutcomeView::Done).0.resume(OutcomeView::Done).0.log.len() == 0,
            self.resume(OutcomeView::Done).0.resume(OutcomeView::Done).0.segments[0] == self.table,
    {
        let one = self.resume(OutcomeView::Done).0;
        let two = one.resume(OutcomeView::Done).0;
        assert(one.segments.skip(1) =~= self.segments);
        assert(two.table.dom() =~= Set::empty());
    }

    /// A store that a restart would find as it is stays so through every
    /// step, as long as the records of its writes can be written and read
    /// back.
    pub proof fn lemma_resume_keeps_durable(self, outcome: OutcomeView)
        requires
            self.durable(),
            self.table.dom().finite(),
            self.waiting matches WaitingView::Put { key, value } ==> writable(key, Some(value)),
            self.waiting matches WaitingView::Delete { key } ==> writable(key, None),
        ensures
            self.resume(outcome).0.durable(),
    {
        let next = self.resume(outcome).0;
        match outcome {
            OutcomeView::Failed(_) => {},
            OutcomeView::Done => match self.waiting {
                WaitingView::Idle => {},
                WaitingView::Put { key, value } => {
                    lemma_parse_log_append(self.log, key, Some(value));
                    let all = parse_log(self.log).unwrap();
                    assert((seq![(key, Some(value))] + all).skip(1) =~= all);
                },
                WaitingView::Delete { key } => {
                    lemma_parse_log_append(self.log, key, None);
                    let all = parse_log(self.log).unwrap();
                    assert((seq![(key, None::<ValueView>)] + all).skip(1) =~= all);
                },
                WaitingView::Segment => {
                    self.lemma_flushed_segment();
                    let n = self.files.len() as int;
                    assert forall|i: int| 0 <= i < next.files.len() implies leaves(
                        #[trigger] next.files[i],
                        next.segments[next.files.len() - 1 - i],
                    ) by {
                        if i < n {
                            assert(leaves(self.files[i], self.segments[n - 1 - i]));
                            assert(next.segments[n - i] == self.segments[n - 1 - i]);
                        }
                    }
                },
                WaitingView::Truncate => {
                    assert(next.table.dom() =~= Set::empty());
                },
            },
        }
    }

    /// The file that a flush writes reads back, and leaves behind what
    /// the memtable held.
    pub proof fn lemma_flushed_segment(self)
        requires
            self.table.dom().finite(),
            forall|k: Seq<char>| #[trigger]
                self.table.contains_key(k) ==> writable(k, self.table[k]),
        ensures
            leaves(segment_bytes(sorted(self.table)), self.table),
            parse_log(segment_bytes(sorted(self.table))) == Some(sorted(self.table).reverse()),
            lists(sorted(self.table), self.table),
    {
        lemma_sorted_exists(self.table);
        let r = sorted(self.table);
        lemma_sorted_is(r, self.table);
        assert forall|i: int| 0 <= i < r.len() implies writable((#[trigger] r[i]).0, r[i].1) by {
            assert(self.table.contains_key(r[i].0));
        }
        lemma_segment_file(r);
    }

    /// Two stores that a restart would find as they are, with the same
    /// log and the same files, hold the same: a lookup finds in one what it
    /// finds in the other.
    pub proof fn lemma_restart(self, other: StoreView, key: Seq<char>)
        requires
            self.durable(),
            other.durable(),
            self.log == other.log,
            self.files == other.files,
        ensures
            self.table == other.table,
            self.segments == other.segments,
            self.get(key) == other.get(key),
    {
        let n = self.files.len() as int;
        assert forall|j: int| 0 <= j < n implies self.segments[j] == other.segments[j] by {
            let i = n - 1 - j;
            assert(leaves(self.files[i], self.segments[n - 1 - i]));
            assert(leaves(other.files[i], other.segments[n - 1 - i]));
        }
        assert(self.segments =~= other.segments);
    }
}

/// A finite table has a list of its entries with strictly ascending keys.
pub proof fn lemma_sorted_exists(table: Table)
    requires
        table.dom().finite(),
    ensures
        ascending::<String, Option<ValueView>>(sorted(table)),
        lists(sorted(table), table),
    decreases table.dom().len(),
{
    if table.dom().len() == 0 {
        let s = Seq::<(Seq<char>, Option<ValueView>)>::empty();
        assert(table.dom() =~= Set::empty()) by {
            if table.dom().len() == 0 {
                vstd::set_lib::lemma_set_empty_equivalency_len(table.dom());
            }
        }
        assert(ascending::<String, Option<ValueView>>(s) && lists(s, table));
    } else {
        let top = greatest_key(table.dom());
        lemma_greatest_key(table.dom());
        let rest = table.remove(top);
        lemma_sorted_exists(rest);
        let r = sorted(rest);
        let s = r.push((top, table[top]));
        assert forall|i: int, j: int| 0 <= i < j < s.len() implies String::precedes(
            (#[trigger] s[i]).0,
            (#[trigger] s[j]).0,
        ) by {
            assert(s[i] == r[i]);
            assert(rest.contains_key(r[i].0));
            if j < r.len() {
                assert(s[j] == r[j]);
            }
        }
        assert forall|i: int| 0 <= i < s.len() implies table.contains_key((#[trigger] s[i]).0)
            && table[s[i].0] == s[i].1 by {
            if i < r.len() {
                assert(s[i] == r[i]);
                assert(rest.contains_key(r[i].0));
            }
        }
        assert forall|k: Seq<char>| #[trigger] table.contains_key(k) implies exists|i: int|
            0 <= i < s.len() && (#[trigger] s[i]).0 == k by {
            if k == top {
                assert(s[r.len() as int].0 == k);
            } else {
                assert(rest.contains_key(k));
                let i = choose|i: int| 0 <= i < r.len() && (#[trigger] r[i]).0 == k;
                assert(s[i].0 == k);
            }
        }
        assert(ascending::<String, Option<ValueView>>(s) && lists(s, table));
    }
}

/// A key of `keys` that none of the others comes after.
pub open spec fn greatest_key(keys: Set<Seq<char>>) -> Seq<char> {
    choose|top: Seq<char>|
        keys.contains(top) && forall|k: Seq<char>|
            keys.contains(k) && k != top ==> #[trigger] String::precedes(k, top)
}

/// A finite set of keys that is not empty has a greatest key.
pub proof fn lemma_greatest_key(keys: Set<Seq<char>>)
    requires
        keys.finite(),
        keys.len() > 0,
    ensures
        keys.contains(greatest_key(keys)),
        forall|k: Seq<char>|
            keys.contains(k) && k != greatest_key(keys) ==> #[trigger] String::precedes(
                k,
                greatest_key(keys),
            ),
    decreases keys.len(),
{
    let any = keys.choose();
    let rest = keys.remove(any);
    if rest.len() == 0 {
        assert(rest =~= Set::empty()) by {
            vstd::set_lib::lemma_set_empty_equivalency_len(rest);
        }
        assert forall|k: Seq<char>| keys.contains(k) && k != any implies #[trigger] String::precedes(
            k,
            any,
        ) by {
            assert(rest.contains(k));
        }
    } else {
        lemma_greatest_key(rest);
        let top = greatest_key(rest);
        String::lemma_precedes_total(any, top);
        if String::precedes(any, top) {
            assert forall|k: Seq<char>| keys.contains(k) && k != top implies #[trigger] String::precedes(
                k,
                top,
            ) by {
                if k != any {
                    assert(rest.contains(k));
                }
            }
        } else {
            assert forall|k: Seq<char>| keys.contains(k) && k != any implies #[trigger] String::precedes(
                k,
                any,
            ) by {
                assert(rest.contains(k));
                if k != top {
                    String::lemma_precedes_transitive(k, top, any);
                }
            }
        }
    }
}

} // verus!
