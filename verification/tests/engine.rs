use lsm_engine::command::Command;
use lsm_engine::connection::{next_turn, response, Turn};
use lsm_engine::decoder::{self, DecodeError, DecodeErrorKind, Decoded, Decoder};
use lsm_engine::error::MalformedRecord;
use lsm_engine::executor::{error_text, recover, reply_text, Executor, IoOutcome, Step};
use lsm_engine::memtable::{AvlMemtable, Memtable};
use lsm_engine::record::{decode_file, frame};
use lsm_engine::sstable::{HashMapSSTable, SSTable};
use lsm_engine::value::Value;

/// A store with its log and its segment files kept in memory.
struct Machine {
    executor: Executor<AvlMemtable, HashMapSSTable>,
    decoder: Decoder,
    wal: Vec<u8>,
    segments: Vec<(String, Vec<u8>)>,
    fail_append: bool,
    fail_segment: bool,
    fail_truncate: bool,
}

impl Machine {
    fn start(wal: Vec<u8>, segments: Vec<(String, Vec<u8>)>) -> Machine {
        let files = segments.iter().map(|(_, f)| f.clone()).collect();
        Machine {
            executor: recover(wal.clone(), files).unwrap(),
            decoder: decoder::new(),
            wal,
            segments,
            fail_append: false,
            fail_segment: false,
            fail_truncate: false,
        }
    }

    fn fresh() -> Machine {
        Machine::start(Vec::new(), Vec::new())
    }

    fn restart(self) -> Machine {
        Machine::start(self.wal, self.segments)
    }

    fn outcome(failed: bool, what: &str) -> IoOutcome {
        if failed {
            IoOutcome::Failed(what.to_string())
        } else {
            IoOutcome::Done
        }
    }

    fn execute(&mut self, command: Command) -> String {
        assert!(self.executor.has_room());
        let mut step = self.executor.execute(command);
        loop {
            step = match step {
                Step::AppendWal(bytes) => {
                    if !self.fail_append {
                        self.wal.extend(bytes);
                    }
                    self.executor
                        .resume(Machine::outcome(self.fail_append, "log is read-only"))
                }
                Step::WriteSegment { file_name, bytes } => {
                    if !self.fail_segment {
                        self.segments.push((file_name, bytes));
                    }
                    self.executor
                        .resume(Machine::outcome(self.fail_segment, "disk is full"))
                }
                Step::TruncateWal => {
                    if !self.fail_truncate {
                        self.wal.clear();
                    }
                    self.executor
                        .resume(Machine::outcome(self.fail_truncate, "log is busy"))
                }
                done => return response(&done).unwrap(),
            };
        }
    }

    /// Feeds the bytes of a connection and gives what goes back over it.
    fn talk(&mut self, input: &str) -> String {
        let mut out = String::new();
        let mut lines: Vec<Option<&str>> = input.split_inclusive('\n').map(Some).collect();
        lines.push(None);
        for line in lines {
            match next_turn(self.decoder.decode(line)) {
                Turn::Execute(command) => out.push_str(&self.execute(command)),
                Turn::ReadOn => {}
                Turn::Answer(lines) => out.push_str(&lines),
                Turn::Close => break,
            }
        }
        out
    }

    fn set(&mut self, key: &str, data: &str) -> String {
        self.talk(&format!("set {} 0 0 {}\n{}\n", key, data.len(), data))
    }
}

fn value(data: &str) -> Value {
    Value::new(data.to_string(), 0, 0)
}

#[test]
fn simple_set_get() {
    let mut m = Machine::fresh();
    assert_eq!(
        m.talk("set a 0 0 3\nabc\nget a\n"),
        "STORED\nVALUE a 0 0 3\nabc\nEND\n"
    );
}

#[test]
fn miss_then_stored_then_hit() {
    let mut m = Machine::fresh();
    assert_eq!(
        m.talk("get k\nset k 7 0 5\nhello\nget k\n"),
        "END\nSTORED\nVALUE k 7 0 5\nhello\nEND\n"
    );
}

#[test]
fn delete_masks_older_value() {
    let mut m = Machine::fresh();
    assert_eq!(m.talk("set x 0 0 1\n1\n"), "STORED\n");
    for i in 0..10 {
        assert_eq!(m.set(&format!("k{}", i), "v"), "STORED\n");
    }
    assert_eq!(m.segments.len(), 1);
    assert_eq!(m.talk("get x\n"), "VALUE x 0 0 1\n1\nEND\n");
    let mut m = m.restart();
    assert_eq!(m.talk("get x\n"), "VALUE x 0 0 1\n1\nEND\n");
    assert_eq!(m.talk("delete x\nget x\n"), "DELETED\nEND\n");
    let mut m = m.restart();
    assert_eq!(m.talk("get x\n"), "END\n");
    assert_eq!(m.talk("get k3\n"), "VALUE k3 0 0 1\nv\nEND\n");
}

#[test]
fn stats_counts_live_entries_only() {
    let mut m = Machine::fresh();
    assert_eq!(
        m.talk("set a 0 0 1\n1\nset b 0 0 1\n2\ndelete a\nstats\n"),
        "STORED\nSTORED\nDELETED\nSTAT curr_items 1\n"
    );
    assert_eq!(Machine::fresh().talk("stats\n"), "STAT curr_items 0\n");
}

#[test]
fn recovery_after_crash_mid_session() {
    let a = "a".to_string();
    let b = "b".to_string();
    let mut wal = Vec::new();
    wal.extend(frame(&a, Some(&value("1"))));
    wal.extend(frame(&a, Some(&value("2"))));
    wal.extend(frame(&a, None));
    wal.extend(frame(&b, Some(&Value::new("bee".to_string(), 3, 4))));
    let mut m = Machine::start(wal, Vec::new());
    assert_eq!(m.talk("get a\n"), "END\n");
    assert_eq!(m.talk("get b\n"), "VALUE b 3 4 3\nbee\nEND\n");
}

#[test]
fn unknown_command() {
    let mut m = Machine::fresh();
    assert_eq!(m.talk("frobnicate\n"), "[error] unknown command: frobnicate\n");
    assert_eq!(m.talk("get a\n"), "END\n");
}

#[test]
fn empty_log_gives_an_empty_memtable() {
    let memtable = AvlMemtable::new(Vec::new()).unwrap();
    assert!(memtable.to_records().is_empty());
    assert!(memtable.to_vec().is_empty());
    assert_eq!(memtable.search(&"a".to_string()), None);
}

#[test]
fn interleaved_writes_to_one_key_leave_the_newest() {
    let k = "k".to_string();
    let mut wal = Vec::new();
    wal.extend(frame(&k, Some(&value("old"))));
    wal.extend(frame(&k, None));
    wal.extend(frame(&k, Some(&value("new"))));
    let memtable = AvlMemtable::new(wal.clone()).unwrap();
    assert_eq!(memtable.to_records(), vec![(&k, Some(&value("new")))]);
    wal.extend(frame(&k, None));
    let memtable = AvlMemtable::new(wal).unwrap();
    assert_eq!(memtable.to_records(), vec![(&k, None)]);
    assert_eq!(memtable.search(&k), Some(None));
    assert!(memtable.to_vec().is_empty());
}

#[test]
fn a_length_beyond_the_file_is_a_malformed_record() {
    let mut wal = frame(&"k".to_string(), Some(&value("v")));
    let n = wal.len();
    wal[n - 4] += 1;
    assert!(matches!(AvlMemtable::new(wal.clone()), Err(MalformedRecord)));
    assert!(matches!(recover(wal.clone(), Vec::new()), Err(MalformedRecord)));
    assert!(matches!(recover(Vec::new(), vec![Vec::new(), wal.clone()]), Err(MalformedRecord)));
    assert!(matches!(HashMapSSTable::new(vec![wal]), Err(MalformedRecord)));
}

#[test]
fn a_tombstone_masks_the_value_in_an_older_segment() {
    let x = "x".to_string();
    let older = frame(&x, Some(&value("1")));
    let newer = frame(&x, None);
    let sstable = HashMapSSTable::new(vec![older.clone(), newer.clone()]).unwrap();
    assert_eq!(sstable.search(&x), Some(None));
    let sstable = HashMapSSTable::new(vec![newer.clone(), older.clone()]).unwrap();
    assert_eq!(sstable.search(&x), Some(Some(&value("1"))));
    assert_eq!(sstable.search(&"y".to_string()), None);
    let mut m = Machine::start(Vec::new(), vec![("00000.bin".to_string(), older.clone())]);
    assert_eq!(m.talk("get x\n"), "VALUE x 0 0 1\n1\nEND\n");
    let mut m = Machine::start(newer, vec![("00000.bin".to_string(), older)]);
    assert_eq!(m.talk("get x\n"), "END\n");
}

#[test]
fn set_then_get_hits() {
    let mut m = Machine::fresh();
    for i in 0..40 {
        let key = format!("key{}", i % 7);
        let data = format!("data{}", i);
        assert_eq!(m.set(&key, &data), "STORED\n");
        assert_eq!(
            m.talk(&format!("get {}\n", key)),
            format!("VALUE {} 0 0 {}\n{}\nEND\n", key, data.len(), data)
        );
    }
}

#[test]
fn eleven_keys_force_a_flush_and_ten_do_not() {
    let mut m = Machine::fresh();
    for i in 0..10 {
        m.set(&format!("k{:02}", i), "v");
    }
    assert!(m.segments.is_empty());
    assert!(!m.wal.is_empty());
    m.set("k03", "again");
    m.talk("delete k04\n");
    assert!(m.segments.is_empty());
    m.set("k10", "v");
    assert_eq!(m.segments.len(), 1);
    assert_eq!(m.segments[0].0, "00000.bin");
    assert!(m.wal.is_empty());
    assert_eq!(m.talk("stats\n"), "STAT curr_items 0\n");
    assert_eq!(m.talk("get k03\n"), "VALUE k03 0 0 5\nagain\nEND\n");
    assert_eq!(m.talk("get k04\n"), "END\n");
}

#[test]
fn a_flush_writes_the_memtable_in_key_order() {
    let mut m = Machine::fresh();
    let mut expected = Vec::new();
    for i in (0..11).rev() {
        m.set(&format!("k{:02}", i), &format!("v{}", i));
    }
    for i in 0..11 {
        expected.extend(frame(&format!("k{:02}", i), Some(&value(&format!("v{}", i)))));
    }
    assert_eq!(m.segments, vec![("00000.bin".to_string(), expected)]);
}

#[test]
fn a_flushed_segment_reads_back_as_the_flushed_records() {
    let mut m = Machine::fresh();
    for i in 0..9 {
        m.set(&format!("k{}", i), &format!("v{}", i));
    }
    m.talk("delete k4\ndelete gone\n");
    m.set("z", "last");
    assert_eq!(m.segments.len(), 1);
    assert!(m.wal.is_empty());
    let mut expected: Vec<(String, Option<Value>)> = (0..9)
        .map(|i| {
            let v = if i == 4 { None } else { Some(value(&format!("v{}", i))) };
            (format!("k{}", i), v)
        })
        .collect();
    expected.insert(0, ("gone".to_string(), None));
    expected.push(("z".to_string(), Some(value("last"))));
    expected.reverse();
    assert_eq!(decode_file(m.segments[0].1.clone()), Ok(expected));
}

#[test]
fn lookups_agree_with_a_plain_map() {
    let mut m = Machine::fresh();
    let mut model = std::collections::BTreeMap::new();
    let mut seed: u32 = 12345;
    for step in 0..400 {
        seed = seed.wrapping_mul(1103515245).wrapping_add(12345);
        let key = format!("k{}", (seed >> 16) % 23);
        if (seed >> 8) % 3 == 0 {
            assert_eq!(m.talk(&format!("delete {}\n", key)), "DELETED\n");
            model.remove(&key);
        } else {
            let data = format!("d{}", step);
            assert_eq!(m.set(&key, &data), "STORED\n");
            model.insert(key, data);
        }
        if step % 50 == 49 {
            m = m.restart();
        }
        for i in 0..23 {
            let key = format!("k{}", i);
            let expected = match model.get(&key) {
                Some(d) => format!("VALUE {} 0 0 {}\n{}\nEND\n", key, d.len(), d),
                None => "END\n".to_string(),
            };
            assert_eq!(m.talk(&format!("get {}\n", key)), expected);
        }
    }
    assert!(m.segments.len() > 3);
}

#[test]
fn deletes_alone_do_not_flush() {
    let mut m = Machine::fresh();
    for i in 0..20 {
        assert_eq!(m.talk(&format!("delete k{}\n", i)), "DELETED\n");
    }
    assert!(m.segments.is_empty());
    assert_eq!(m.set("a", "1"), "STORED\n");
    assert_eq!(m.segments.len(), 1);
    assert_eq!(m.set("b", "2"), "STORED\n");
    assert_eq!(m.segments.len(), 1);
}

#[test]
fn segments_are_numbered_in_the_order_of_their_flushes() {
    let mut m = Machine::fresh();
    for round in 0..3 {
        for i in 0..11 {
            m.set(&format!("r{}k{}", round, i), "v");
        }
    }
    let names: Vec<&str> = m.segments.iter().map(|(n, _)| n.as_str()).collect();
    assert_eq!(names, vec!["00000.bin", "00001.bin", "00002.bin"]);
    let mut m = m.restart();
    for i in 0..11 {
        m.set(&format!("late{}", i), "v");
    }
    assert_eq!(m.segments[3].0, "00003.bin");
}

#[test]
fn a_restart_finds_what_a_lookup_found() {
    let mut m = Machine::fresh();
    let keys: Vec<String> = (0..30).map(|i| format!("k{}", i)).collect();
    for (i, key) in keys.iter().enumerate() {
        m.set(key, &format!("v{}", i));
        if i % 3 == 0 {
            m.talk(&format!("delete k{}\n", i / 2));
        }
    }
    let before: Vec<String> = keys.iter().map(|k| m.talk(&format!("get {}\n", k))).collect();
    let mut m = m.restart();
    let after: Vec<String> = keys.iter().map(|k| m.talk(&format!("get {}\n", k))).collect();
    assert_eq!(before, after);
}

#[test]
fn a_failed_append_changes_nothing() {
    let mut m = Machine::fresh();
    m.set("a", "1");
    m.fail_append = true;
    assert_eq!(m.set("a", "2"), "[error] log is read-only\n");
    assert_eq!(m.talk("delete a\n"), "[error] log is read-only\n");
    assert_eq!(m.talk("get a\n"), "VALUE a 0 0 1\n1\nEND\n");
    m.fail_append = false;
    assert_eq!(m.talk("delete a\nget a\n"), "DELETED\nEND\n");
}

#[test]
fn a_failed_flush_keeps_the_memtable_and_is_tried_again() {
    let mut m = Machine::fresh();
    for i in 0..10 {
        m.set(&format!("k{}", i), "v");
    }
    m.fail_segment = true;
    assert_eq!(m.set("k10", "v"), "[error] disk is full\n");
    assert!(m.segments.is_empty());
    assert_eq!(m.talk("stats\n"), "STAT curr_items 11\n");
    assert_eq!(m.talk("get k10\n"), "VALUE k10 0 0 1\nv\nEND\n");
    m.fail_segment = false;
    assert_eq!(m.set("k11", "v"), "STORED\n");
    assert_eq!(m.segments.len(), 1);
    assert_eq!(m.talk("stats\n"), "STAT curr_items 0\n");
    assert_eq!(m.talk("get k10\n"), "VALUE k10 0 0 1\nv\nEND\n");
}

#[test]
fn a_failed_truncation_keeps_the_memtable_beside_the_new_segment() {
    let mut m = Machine::fresh();
    for i in 0..10 {
        m.set(&format!("k{}", i), "v");
    }
    m.fail_truncate = true;
    assert_eq!(m.set("k10", "v"), "[error] log is busy\n");
    assert_eq!(m.segments.len(), 1);
    assert_eq!(m.talk("stats\n"), "STAT curr_items 11\n");
    let mut m = m.restart();
    assert_eq!(m.talk("stats\n"), "STAT curr_items 11\n");
    assert_eq!(m.talk("get k10\n"), "VALUE k10 0 0 1\nv\nEND\n");
}

#[test]
fn the_executor_says_what_outside_work_it_needs() {
    let mut e = recover(Vec::new(), Vec::new()).unwrap();
    let k = "k".to_string();
    let v = value("v");
    assert_eq!(
        e.execute(Command::new_set(k.clone(), v.clone())),
        Step::AppendWal(frame(&k, Some(&v)))
    );
    assert_eq!(e.get(&k), None);
    assert_eq!(
        e.execute(Command::new_get(k.clone())),
        Step::Fail("a write is under way".to_string())
    );
    assert_eq!(e.resume(IoOutcome::Done), Step::Reply("STORED".to_string()));
    assert_eq!(e.get(&k), Some(&v));
    assert_eq!(
        e.resume(IoOutcome::Done),
        Step::Fail("nothing to resume".to_string())
    );
    assert_eq!(
        e.resume(IoOutcome::Failed("late".to_string())),
        Step::Fail("late".to_string())
    );
    assert_eq!(
        e.execute(Command::new_delete(k.clone())),
        Step::AppendWal(frame(&k, None))
    );
    assert_eq!(e.resume(IoOutcome::Done), Step::Reply("DELETED".to_string()));
    assert_eq!(e.get(&k), None);
    assert_eq!(
        e.execute(Command::new_stats()),
        Step::Reply("STAT curr_items 0".to_string())
    );
    assert_eq!(
        e.execute(Command::new_get(k.clone())),
        Step::Reply("END".to_string())
    );
}

#[test]
fn the_flush_goes_through_segment_and_truncation() {
    let mut e = recover(Vec::new(), Vec::new()).unwrap();
    for i in 0..10 {
        e.execute(Command::new_set(format!("k{}", i), value("v")));
        assert_eq!(e.resume(IoOutcome::Done), Step::Reply("STORED".to_string()));
    }
    e.execute(Command::new_set("z".to_string(), value("v")));
    match e.resume(IoOutcome::Done) {
        Step::WriteSegment { file_name, bytes } => {
            assert_eq!(file_name, "00000.bin");
            assert_eq!(bytes.len(), 11 * frame(&"z".to_string(), Some(&value("v"))).len() + 10);
        }
        other => panic!("{:?}", other),
    }
    assert_eq!(e.resume(IoOutcome::Done), Step::TruncateWal);
    assert_eq!(e.resume(IoOutcome::Done), Step::Reply("STORED".to_string()));
    assert_eq!(e.get(&"z".to_string()), Some(&value("v")));
}

#[test]
fn memtable_keeps_tombstones_and_lists_in_key_order() {
    let mut memtable = AvlMemtable::new(Vec::new()).unwrap();
    let (a, b, c) = ("a".to_string(), "b".to_string(), "c".to_string());
    memtable.insert(c.clone(), value("3"));
    memtable.insert(a.clone(), value("1"));
    memtable.delete(&b);
    memtable.insert(a.clone(), value("one"));
    assert_eq!(memtable.search(&a), Some(Some(&value("one"))));
    assert_eq!(memtable.search(&b), Some(None));
    assert_eq!(memtable.search(&"d".to_string()), None);
    assert_eq!(
        memtable.to_records(),
        vec![(&a, Some(&value("one"))), (&b, None), (&c, Some(&value("3")))]
    );
    assert_eq!(memtable.to_vec(), vec![(&a, &value("one")), (&c, &value("3"))]);
    memtable.clear();
    assert!(memtable.to_records().is_empty());
    assert_eq!(memtable.search(&a), None);
}

#[test]
fn sstable_create_puts_the_new_segment_first() {
    let mut sstable = HashMapSSTable::new(Vec::new()).unwrap();
    let (a, b) = ("a".to_string(), "b".to_string());
    let (one, two) = (value("1"), value("2"));
    let first = vec![(&a, Some(&one)), (&b, Some(&two))];
    let (name, bytes) = sstable.next_file(&first);
    assert_eq!(name, "00000.bin");
    let mut expected = frame(&a, Some(&one));
    expected.extend(frame(&b, Some(&two)));
    assert_eq!(bytes, expected);
    sstable.create(first);
    let second = vec![(&a, None)];
    assert_eq!(sstable.next_file(&second).0, "00001.bin");
    sstable.create(second);
    assert_eq!(sstable.search(&a), Some(None));
    assert_eq!(sstable.search(&b), Some(Some(&two)));
    assert_eq!(sstable.search(&"c".to_string()), None);
}

#[test]
fn data_with_blanks_at_its_ends_are_stored_whole() {
    let mut m = Machine::fresh();
    assert_eq!(
        m.talk("set a 0 0 5\n abc \nget a\n"),
        "STORED\nVALUE a 0 0 5\n abc \nEND\n"
    );
    let mut m = m.restart();
    assert_eq!(m.talk("get a\n"), "VALUE a 0 0 5\n abc \nEND\n");
    assert_eq!(
        m.talk("set b 0 0 0\n\nget b\n"),
        "STORED\nVALUE b 0 0 0\n\nEND\n"
    );
}

#[test]
fn the_end_of_the_input_closes_and_any_other_error_is_answered() {
    let eof = DecodeError {
        kind: DecodeErrorKind::UnexpectedEof,
        message: "got eof".to_string(),
    };
    let bad = DecodeError {
        kind: DecodeErrorKind::InvalidInput,
        message: "no content".to_string(),
    };
    assert_eq!(next_turn(Err(eof)), Turn::Close);
    assert_eq!(
        next_turn(Err(bad)),
        Turn::Answer("[error] no content\n".to_string())
    );
    assert_eq!(next_turn(Ok(Decoded::Incomplete)), Turn::ReadOn);
    assert_eq!(
        next_turn(Ok(Decoded::Command(Command::new_stats()))),
        Turn::Execute(Command::new_stats())
    );
    let mut m = Machine::fresh();
    assert_eq!(
        m.talk("\nget\nset a 0 0 1\n"),
        "[error] no content\n[error] get command length must be 2\n"
    );
}

#[test]
fn a_step_that_ends_a_command_has_a_response() {
    assert_eq!(
        response(&Step::Reply("STORED".to_string())),
        Some("STORED\n".to_string())
    );
    assert_eq!(
        response(&Step::Fail("disk is full".to_string())),
        Some("[error] disk is full\n".to_string())
    );
    assert_eq!(response(&Step::AppendWal(vec![1])), None);
    assert_eq!(response(&Step::TruncateWal), None);
    assert_eq!(
        response(&Step::WriteSegment {
            file_name: "00000.bin".to_string(),
            bytes: Vec::new()
        }),
        None
    );
}

#[test]
fn replies_and_errors_end_in_a_newline() {
    assert_eq!(reply_text("STORED"), "STORED\n");
    assert_eq!(reply_text(""), "\n");
    assert_eq!(error_text("no content"), "[error] no content\n");
}
