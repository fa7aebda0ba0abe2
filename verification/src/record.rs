//! Records as they stand in a log or a segment: each followed by its
//! length, so that a file is read from its end towards its start.

use crate::binary::{
    admissible, lemma_record_round_trip, parse_record, record_bytes, value_ref_view, value_view,
};
use crate::error::MalformedRecord;
use crate::le::{
    copy_range, le_bytes, le_value, lemma_le_value_of_bytes, lemma_radix_pow_values, push_le, read_le,
};
use crate::value::{Value, ValueView, MAX_LEN};
use vstd::hash_set::StringHashSet;
use vstd::prelude::*;

verus! {

/// What a decoded record holds: the key, and the value unless the key was
/// deleted.
pub open spec fn record_view(record: (String, Option<Value>)) -> (Seq<char>, Option<ValueView>) {
    (record.0@, value_view(record.1))
}

/// What a list of decoded records holds.
pub open spec fn records_view(records: Seq<(String, Option<Value>)>) -> Seq<
    (Seq<char>, Option<ValueView>),
> {
    records.map_values(|r: (String, Option<Value>)| record_view(r))
}

/// A record as it is appended to a file: its byte form and the four low
/// bytes of that form's length.
pub open spec fn frame_bytes(key: Seq<char>, value: Option<ValueView>) -> Seq<u8> {
    record_bytes(key, value) + le_bytes(record_bytes(key, value).len(), 4)
}

/// All the records of a file, the last written first. `None` where a
/// length reaches beyond the start of the file or bytes hold no record.
pub open spec fn parse_log(b: Seq<u8>) -> Option<Seq<(Seq<char>, Option<ValueView>)>>
    decreases b.len(),
{
    if b.len() == 0 {
        Some(Seq::empty())
    } else if b.len() < 4 {
        None
    } else {
        let end = b.len() - 4;
        let len = le_value(b.subrange(end, b.len() as int));
        if len > MAX_LEN || len > end {
            None
        } else {
            match (parse_record(b.subrange(end - len, end)), parse_log(b.take(end - len))) {
                (Some(record), Some(older)) => Some(seq![record] + older),
                _ => None,
            }
        }
    }
}

/// Some record of `s` has the key `key`.
pub open spec fn has_key<V>(s: Seq<(Seq<char>, V)>, key: Seq<char>) -> bool {
    exists|i: int| 0 <= i < s.len() && (#[trigger] s[i]).0 == key
}

/// Of the records of `s` with one key, the first alone; the order stays.
pub open spec fn first_per_key<V>(s: Seq<(Seq<char>, V)>) -> Seq<(Seq<char>, V)>
    decreases s.len(),
{
    if s.len() == 0 {
        Seq::empty()
    } else if has_key(s.drop_last(), s.last().0) {
        first_per_key(s.drop_last())
    } else {
        first_per_key(s.drop_last()).push(s.last())
    }
}

/// A list with one more record at its end has the keys it had, and that
/// record's.
pub proof fn lemma_has_key_push<V>(s: Seq<(Seq<char>, V)>, r: (Seq<char>, V), k: Seq<char>)
    ensures
        has_key(s.push(r), k) <==> has_key(s, k) || k == r.0,
{
    let t = s.push(r);
    if has_key(s, k) {
        let i = choose|i: int| 0 <= i < s.len() && (#[trigger] s[i]).0 == k;
        assert(t[i].0 == k);
    }
    if k == r.0 {
        assert(t[s.len() as int].0 == k);
    }
    if has_key(t, k) {
        let i = choose|i: int| 0 <= i < t.len() && (#[trigger] t[i]).0 == k;
        if i < s.len() {
            assert(s[i].0 == k);
        }
    }
}

/// What `first_per_key` keeps of a list with one more record at its end.
pub proof fn lemma_first_per_key_push<V>(s: Seq<(Seq<char>, V)>, r: (Seq<char>, V))
    ensures
        first_per_key(s.push(r)) == if has_key(s, r.0) {
            first_per_key(s)
        } else {
            first_per_key(s).push(r)
        },
{
    assert(s.push(r).drop_last() =~= s);
}

/// Where the end of `part` holds the record `record`, `part` reads as
/// that record and then what stands before it.
proof fn lemma_parse_log_step(
    part: Seq<u8>,
    seen: Seq<(Seq<char>, Option<ValueView>)>,
    record: (Seq<char>, Option<ValueView>),
)
    requires
        part.len() >= 4,
        le_value(part.subrange(part.len() - 4, part.len() as int)) <= MAX_LEN,
        le_value(part.subrange(part.len() - 4, part.len() as int)) <= part.len() - 4,
        parse_record(
            part.subrange(
                part.len() - 4 - le_value(part.subrange(part.len() - 4, part.len() as int)),
                part.len() - 4,
            ),
        ) == Some(record),
    ensures
        (match parse_log(part) {
            Some(older) => Some(seen + older),
            None => None,
        }) == (match parse_log(
            part.take(part.len() - 4 - le_value(part.subrange(part.len() - 4, part.len() as int))),
        ) {
            Some(older) => Some(seen.push(record) + older),
            None => None,
        }),
{
    let end = part.len() - 4;
    let len = le_value(part.subrange(end, part.len() as int));
    let older = parse_log(part.take(end - len));
    if older is Some {
        assert(seen + (seq![record] + older.unwrap()) =~= seen.push(record) + older.unwrap());
    }
}

/// The byte form of the record that puts `value` under `key`, or that
/// deletes `key` where there is no value.
pub fn encode(key: &String, value: Option<&Value>) -> (record: Vec<u8>)
    ensures
        record@ == record_bytes(key@, value_ref_view(value)),
{
    crate::binary::encode(key, value)
}

/// The record for `key` and `value` as it is appended to a log or a
/// segment.
pub fn frame(key: &String, value: Option<&Value>) -> (bytes: Vec<u8>)
    ensures
        bytes@ == frame_bytes(key@, value_ref_view(value)),
{
    let mut binary = encode(key, value);
    let binary_len = binary.len();
    push_le(&mut binary, binary_len as u64, 4);
    binary
}

/// Reads the records of a file from its contents, the last written first,
/// and keeps for each key the record that was written last.
pub fn decode_file(buffer: Vec<u8>) -> (res: Result<Vec<(String, Option<Value>)>, MalformedRecord>)
    ensures
        match res {
            Ok(records) => parse_log(buffer@) matches Some(all) && records_view(records@)
                == first_per_key(all),
            Err(_) => parse_log(buffer@) is None,
        },
{
    let bytes = buffer.as_slice();
    let mut index = bytes.len();
    let mut exist_key = StringHashSet::new();
    let mut vec: Vec<(String, Option<Value>)> = Vec::new();
    let ghost mut seen: Seq<(Seq<char>, Option<ValueView>)> = Seq::empty();
    proof {
        assert(bytes@.take(index as int) =~= bytes@);
        assert(records_view(vec@) =~= first_per_key(seen));
    }
    while index > 0
        invariant
            index <= bytes@.len(),
            bytes@ == buffer@,
            parse_log(bytes@) == (match parse_log(bytes@.take(index as int)) {
                Some(older) => Some(seen + older),
                None => None,
            }),
            records_view(vec@) == first_per_key(seen),
            forall|k: Seq<char>| exist_key@.contains(k) <==> has_key(seen, k),
        decreases index,
    {
        let ghost part = bytes@.take(index as int);
        if index < 4 {
            return Err(MalformedRecord);
        }
        let end = index - 4;
        let binary_len = read_le(bytes, end, 4);
        proof {
            assert(part.subrange(end as int, index as int) =~= bytes@.subrange(
                end as int,
                end + 4,
            ));
        }
        if binary_len > MAX_LEN as u64 || binary_len > end as u64 {
            return Err(MalformedRecord);
        }
        let start = end - binary_len as usize;
        proof {
            assert(part.subrange(start as int, end as int) =~= bytes@.subrange(
                start as int,
                end as int,
            ));
            assert(part.take(start as int) =~= bytes@.take(start as int));
        }
        let (key, value) = match crate::binary::decode(copy_range(bytes, start, end)) {
            Ok(record) => record,
            Err(e) => {
                return Err(e);
            },
        };
        let ghost record = (key@, value_view(value));
        proof {
            assert(part.len() == index);
            lemma_parse_log_step(part, seen, record);
            assert forall|k: Seq<char>|
                (exist_key@.contains(k) || k == key@) <==> has_key(seen.push(record), k) by {
                lemma_has_key_push(seen, record, k);
            }
            lemma_first_per_key_push(seen, record);
        }
        if !exist_key.contains(key.as_str()) {
            exist_key.insert(key.clone());
            proof {
                assert(records_view(vec@.push((key, value))) =~= records_view(vec@).push(record));
            }
            vec.push((key, value));
        }
        proof {
            seen = seen.push(record);
        }
        index = start;
    }
    proof {
        assert(seen + Seq::empty() =~= seen);
    }
    Ok(vec)
}

/// What a store holds for its keys: a value, or the mark that the key was
/// deleted.
pub type Table = Map<Seq<char>, Option<ValueView>>;

/// What a table of stored values holds.
pub open spec fn table_of(m: Map<Seq<char>, Option<Value>>) -> Table {
    m.map_values(|v: Option<Value>| value_view(v))
}

/// The table that a list of records, the last written first, leaves behind:
/// for each key what the record written last says.
pub open spec fn latest(all: Seq<(Seq<char>, Option<ValueView>)>) -> Table
    decreases all.len(),
{
    if all.len() == 0 {
        Map::empty()
    } else {
        latest(all.skip(1)).insert(all[0].0, all[0].1)
    }
}

/// The file with the contents `file` reads back, and leaves `table` behind.
pub open spec fn leaves(file: Seq<u8>, table: Table) -> bool {
    parse_log(file) matches Some(all) && table == latest(all)
}

/// The table that putting the records of `s` into `m` gives, first to last.
pub open spec fn with_records(m: Table, s: Seq<(Seq<char>, Option<ValueView>)>) -> Table
    decreases s.len(),
{
    if s.len() == 0 {
        m
    } else {
        with_records(m, s.drop_last()).insert(s.last().0, s.last().1)
    }
}

/// No two records of `s` have one key.
pub open spec fn distinct_keys<V>(s: Seq<(Seq<char>, V)>) -> bool {
    forall|i: int, j: int| 0 <= i < j < s.len() ==> (#[trigger] s[i]).0 != (#[trigger] s[j]).0
}

/// The record at `i` is the first of `s` with its key.
pub open spec fn first_with_key<V>(s: Seq<(Seq<char>, V)>, i: int) -> bool {
    &&& 0 <= i < s.len()
    &&& forall|j: int| 0 <= j < i ==> (#[trigger] s[j]).0 != s[i].0
}

/// `r` is the first record of `s` with its key.
pub open spec fn is_first_of<V>(s: Seq<(Seq<char>, V)>, r: (Seq<char>, V)) -> bool {
    exists|i: int| #[trigger] first_with_key(s, i) && s[i] == r
}

/// `first_per_key` keeps one record for each key, the first.
pub proof fn lemma_first_per_key<V>(s: Seq<(Seq<char>, V)>)
    ensures
        distinct_keys(first_per_key(s)),
        forall|k: Seq<char>| has_key(s, k) <==> #[trigger] has_key(first_per_key(s), k),
        forall|j: int|
            0 <= j < first_per_key(s).len() ==> is_first_of(s, #[trigger] first_per_key(s)[j]),
    decreases s.len(),
{
    let f = first_per_key(s);
    if s.len() > 0 {
        let rest = s.drop_last();
        let g = first_per_key(rest);
        let last = s.last();
        lemma_first_per_key(rest);
        assert(f == if has_key(rest, last.0) {
            g
        } else {
            g.push(last)
        });
        assert forall|k: Seq<char>| has_key(s, k) <==> #[trigger] has_key(f, k) by {
            assert(has_key(rest, k) <==> has_key(g, k));
            if has_key(s, k) {
                let i = choose|i: int| 0 <= i < s.len() && (#[trigger] s[i]).0 == k;
                if i < rest.len() {
                    assert(rest[i].0 == k);
                    assert(has_key(rest, k));
                    let j = choose|j: int| 0 <= j < g.len() && (#[trigger] g[j]).0 == k;
                    assert(f[j].0 == k);
                } else if has_key(rest, k) {
                    let j = choose|j: int| 0 <= j < g.len() && (#[trigger] g[j]).0 == k;
                    assert(f[j].0 == k);
                } else {
                    assert(k == last.0);
                    assert(f[g.len() as int].0 == k);
                }
            }
            if has_key(f, k) {
                let j = choose|j: int| 0 <= j < f.len() && (#[trigger] f[j]).0 == k;
                if j < g.len() {
                    assert(g[j].0 == k);
                    assert(has_key(g, k));
                    assert(has_key(rest, k));
                    let i = choose|i: int| 0 <= i < rest.len() && (#[trigger] rest[i]).0 == k;
                    assert(s[i].0 == k);
                } else {
                    assert(s[s.len() - 1].0 == k);
                }
            }
        }
        assert forall|j: int| 0 <= j < f.len() implies is_first_of(s, #[trigger] f[j]) by {
            if j < g.len() {
                assert(f[j] == g[j]);
                assert(is_first_of(rest, g[j]));
                let i = choose|i: int| #[trigger] first_with_key(rest, i) && rest[i] == g[j];
                assert forall|i2: int| 0 <= i2 < i implies (#[trigger] s[i2]).0 != s[i].0 by {
                    assert(rest[i2].0 != rest[i].0);
                }
                assert(first_with_key(s, i) && s[i] == f[j]);
            } else {
                let i = s.len() - 1;
                assert forall|i2: int| 0 <= i2 < i implies (#[trigger] s[i2]).0 != s[i].0 by {
                    if s[i2].0 == s[i].0 {
                        assert(rest[i2].0 == last.0);
                    }
                }
                assert(first_with_key(s, i) && s[i] == f[j]);
            }
        }
        assert forall|i: int, j: int| 0 <= i < j < f.len() implies (#[trigger] f[i]).0 != (
        #[trigger] f[j]).0 by {
            if j < g.len() {
                assert(f[i] == g[i] && f[j] == g[j]);
            } else {
                assert(f[i] == g[i]);
                if f[i].0 == f[j].0 {
                    assert(has_key(g, last.0));
                    assert(has_key(rest, last.0) <==> has_key(g, last.0));
                }
            }
        }
    }
}

/// `latest` holds the keys of its records, each with what the first record
/// with that key says.
pub proof fn lemma_latest(all: Seq<(Seq<char>, Option<ValueView>)>)
    ensures
        forall|k: Seq<char>| (#[trigger] latest(all).contains_key(k)) <==> has_key(all, k),
        forall|i: int|
            (#[trigger] first_with_key(all, i)) ==> latest(all).contains_key(all[i].0) && latest(
                all,
            )[all[i].0] == all[i].1,
    decreases all.len(),
{
    if all.len() > 0 {
        let older = all.skip(1);
        lemma_latest(older);
        assert(latest(all) == latest(older).insert(all[0].0, all[0].1));
        assert forall|k: Seq<char>| (#[trigger] latest(all).contains_key(k)) <==> has_key(
            all,
            k,
        ) by {
            if has_key(all, k) {
                let i = choose|i: int| 0 <= i < all.len() && (#[trigger] all[i]).0 == k;
                if i > 0 {
                    assert(older[i - 1].0 == k);
                    assert(has_key(older, k));
                }
            }
            if latest(all).contains_key(k) {
                if k == all[0].0 {
                    assert(all[0].0 == k);
                } else {
                    assert(latest(older).contains_key(k));
                    assert(has_key(older, k));
                    let i = choose|i: int| 0 <= i < older.len() && (#[trigger] older[i]).0 == k;
                    assert(all[i + 1].0 == k);
                }
            }
        }
        assert forall|i: int| (#[trigger] first_with_key(all, i)) implies latest(
            all,
        ).contains_key(all[i].0) && latest(all)[all[i].0] == all[i].1 by {
            if i > 0 {
                assert(all[0].0 != all[i].0);
                assert forall|j: int| 0 <= j < i - 1 implies (#[trigger] older[j]).0 != older[i
                    - 1].0 by {
                    assert(all[j + 1].0 != all[i].0);
                }
                assert(first_with_key(older, i - 1));
                assert(older[i - 1] == all[i]);
            }
        }
    }
}

/// Putting records with distinct keys into the empty table gives the table
/// of exactly those records.
pub proof fn lemma_with_records(s: Seq<(Seq<char>, Option<ValueView>)>)
    requires
        distinct_keys(s),
    ensures
        forall|k: Seq<char>|
            (#[trigger] with_records(Map::empty(), s).contains_key(k)) <==> has_key(s, k),
        forall|i: int|
            0 <= i < s.len() ==> with_records(Map::empty(), s)[(#[trigger] s[i]).0] == s[i].1,
    decreases s.len(),
{
    if s.len() > 0 {
        let rest = s.drop_last();
        assert forall|i: int, j: int| 0 <= i < j < rest.len() implies (#[trigger] rest[i]).0 != (
        #[trigger] rest[j]).0 by {
            assert(rest[i] == s[i] && rest[j] == s[j]);
        }
        lemma_with_records(rest);
        let w = with_records(Map::empty(), s);
        let v = with_records(Map::empty(), rest);
        assert(w == v.insert(s.last().0, s.last().1));
        assert forall|k: Seq<char>| (#[trigger] w.contains_key(k)) <==> has_key(s, k) by {
            if has_key(s, k) {
                let i = choose|i: int| 0 <= i < s.len() && (#[trigger] s[i]).0 == k;
                if i < rest.len() {
                    assert(rest[i].0 == k);
                    assert(has_key(rest, k));
                }
            }
            if w.contains_key(k) && k != s.last().0 {
                assert(v.contains_key(k));
                assert(has_key(rest, k));
                let i = choose|i: int| 0 <= i < rest.len() && (#[trigger] rest[i]).0 == k;
                assert(s[i].0 == k);
            }
            if k == s.last().0 {
                assert(s[s.len() - 1].0 == k);
            }
        }
        assert forall|i: int| 0 <= i < s.len() implies w[(#[trigger] s[i]).0] == s[i].1 by {
            if i < rest.len() {
                assert(rest[i] == s[i]);
                assert(s[i].0 != s[s.len() - 1].0);
            }
        }
    }
}

/// The records that reading a log keeps make up the table that the log
/// leaves behind.
pub proof fn lemma_recovered_table(all: Seq<(Seq<char>, Option<ValueView>)>)
    ensures
        with_records(Map::empty(), first_per_key(all)) == latest(all),
{
    let f = first_per_key(all);
    lemma_first_per_key(all);
    lemma_latest(all);
    lemma_with_records(f);
    let w = with_records(Map::empty(), f);
    assert forall|k: Seq<char>| w.contains_key(k) implies #[trigger] latest(all)[k] == w[k] by {
        assert(has_key(f, k));
        let j = choose|j: int| 0 <= j < f.len() && (#[trigger] f[j]).0 == k;
        assert(is_first_of(all, f[j]));
        let i = choose|i: int| #[trigger] first_with_key(all, i) && all[i] == f[j];
        assert(first_with_key(all, i));
    }
    assert forall|k: Seq<char>| w.contains_key(k) <==> latest(all).contains_key(k) by {
        assert(has_key(f, k) <==> has_key(all, k));
    }
    assert(w =~= latest(all));
}

/// A record can be written and read back where its key and its value fit
/// their length fields, and its byte form fits the length that follows it.
pub open spec fn writable(key: Seq<char>, value: Option<ValueView>) -> bool {
    admissible(key, value) && record_bytes(key, value).len() <= MAX_LEN
}

/// A log to which a writable record was appended reads back as that
/// record, then what the log held before.
pub proof fn lemma_parse_log_append(log: Seq<u8>, key: Seq<char>, value: Option<ValueView>)
    requires
        writable(key, value),
    ensures
        parse_log(log + frame_bytes(key, value)) == (match parse_log(log) {
            Some(all) => Some(seq![(key, value)] + all),
            None => None,
        }),
{
    let r = record_bytes(key, value);
    let l = le_bytes(r.len(), 4);
    let b = log + frame_bytes(key, value);
    lemma_radix_pow_values();
    lemma_le_value_of_bytes(r.len(), 4);
    lemma_record_round_trip(key, value);
    let end = b.len() - 4;
    assert(b.subrange(end, b.len() as int) =~= l);
    assert(b.subrange(end - r.len(), end) =~= r);
    assert(b.take(end - r.len()) =~= log);
}

} // verus!
