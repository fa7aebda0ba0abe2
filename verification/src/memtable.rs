//! The table that takes the writes: an ordered map in memory, bound to
//! the log that makes each write last.

use crate::avl::tree::{ascending, lists};
use crate::avl::AvlTreeMap;
use crate::binary::{value_ref_view, value_view};
use crate::error::MalformedRecord;
use crate::order::TotalOrder;
use crate::record::{
    decode_file, frame_bytes, leaves, lemma_recovered_table, parse_log, records_view, table_of,
    with_records, Table,
};
use crate::value::{Value, ValueView};
use vstd::prelude::*;

verus! {

/// What a borrowed record holds.
pub open spec fn record_ref_view(record: (&String, Option<&Value>)) -> (
    Seq<char>,
    Option<ValueView>,
) {
    (record.0@, value_ref_view(record.1))
}

/// What a list of borrowed records holds.
pub open spec fn record_refs_view(records: Seq<(&String, Option<&Value>)>) -> Seq<
    (Seq<char>, Option<ValueView>),
> {
    records.map_values(|r: (&String, Option<&Value>)| record_ref_view(r))
}

/// What a list of borrowed keys and values holds.
pub open spec fn entry_refs_view(entries: Seq<(&String, &Value)>) -> Seq<(Seq<char>, ValueView)> {
    entries.map_values(|e: (&String, &Value)| (e.0@, e.1@))
}

/// The records of `s` that hold a value, in their order.
pub open spec fn live(s: Seq<(Seq<char>, Option<ValueView>)>) -> Seq<(Seq<char>, ValueView)>
    decreases s.len(),
{
    if s.len() == 0 {
        Seq::empty()
    } else {
        match s.last().1 {
            Some(v) => live(s.drop_last()).push((s.last().0, v)),
            None => live(s.drop_last()),
        }
    }
}

/// A table in memory that holds, for each key written since the last
/// flush, the value or the mark that the key was deleted, together with an
/// image of the log that the writes went to.
pub trait Memtable {
    /// The table keeps its own rules.
    spec fn well_formed(&self) -> bool;

    /// What the table holds.
    spec fn table(&self) -> Table;

    /// What the log holds, if every write was appended to it before it
    /// was made here.
    spec fn log(&self) -> Seq<u8>;

    /// The table holds finitely many keys.
    proof fn lemma_finite(&self)
        requires
            self.well_formed(),
        ensures
            self.table().dom().finite(),
    ;

    /// Puts `value` under `key`. The record of it is taken as written.
    fn insert(&mut self, key: String, value: Value)
        requires
            old(self).well_formed(),
            old(self).table().dom().len() < usize::MAX,
        ensures
            final(self).well_formed(),
            final(self).table() == old(self).table().insert(key@, Some(value@)),
            final(self).log() == old(self).log() + frame_bytes(key@, Some(value@)),
    ;

    /// Marks `key` as deleted. The record of it is taken as written.
    fn delete(&mut self, key: &String)
        requires
            old(self).well_formed(),
            old(self).table().dom().len() < usize::MAX,
        ensures
            final(self).well_formed(),
            final(self).table() == old(self).table().insert(key@, None),
            final(self).log() == old(self).log() + frame_bytes(key@, None),
    ;

    /// What the table holds for `key`: nothing, the mark that the key was
    /// deleted, or a value.
    fn search(&self, key: &String) -> (found: Option<Option<&Value>>)
        requires
            self.well_formed(),
        ensures
            match found {
                Some(v) => self.table().contains_key(key@) && self.table()[key@] == value_ref_view(
                    v,
                ),
                None => !self.table().contains_key(key@),
            },
    ;

    /// The keys that hold a value, with their values, in ascending order
    /// of the keys.
    fn to_vec(&self) -> (entries: Vec<(&String, &Value)>)
        requires
            self.well_formed(),
        ensures
            exists|records: Seq<(Seq<char>, Option<ValueView>)>|
                {
                    &&& ascending::<String, Option<ValueView>>(records)
                    &&& lists(records, self.table())
                    &&& entry_refs_view(entries@) == #[trigger] live(records)
                },
    ;

    /// All that the table holds, in ascending order of the keys.
    fn to_records(&self) -> (records: Vec<(&String, Option<&Value>)>)
        requires
            self.well_formed(),
        ensures
            ascending::<String, Option<ValueView>>(record_refs_view(records@)),
            lists(record_refs_view(records@), self.table()),
    ;

    /// Empties the table. The log is taken as emptied.
    fn clear(&mut self)
        requires
            old(self).well_formed(),
        ensures
            final(self).well_formed(),
            final(self).table() == Map::<Seq<char>, Option<ValueView>>::empty(),
            final(self).log() == Seq::<u8>::empty(),
    ;
}

/// A `Memtable` over a balanced search tree.
pub struct AvlMemtable {
    map: AvlTreeMap<String, Option<Value>>,
    log: Ghost<Seq<u8>>,
}

/// What an entry of the tree holds.
pub open spec fn entry_view(e: (Seq<char>, Option<Value>)) -> (Seq<char>, Option<ValueView>) {
    (e.0, value_view(e.1))
}

/// Taking the views of the values keeps a list ascending and exact.
pub proof fn lemma_entries_view(s: Seq<(Seq<char>, Option<Value>)>, m: Map<Seq<char>, Option<Value>>)
    requires
        ascending::<String, Option<Value>>(s),
        lists(s, m),
    ensures
        ascending::<String, Option<ValueView>>(
            s.map_values(|e: (Seq<char>, Option<Value>)| entry_view(e)),
        ),
        lists(s.map_values(|e: (Seq<char>, Option<Value>)| entry_view(e)), table_of(m)),
{
    let t = s.map_values(|e: (Seq<char>, Option<Value>)| entry_view(e));
    assert forall|i: int, j: int| 0 <= i < j < t.len() implies String::precedes(
        (#[trigger] t[i]).0,
        (#[trigger] t[j]).0,
    ) by {
        assert(t[i].0 == s[i].0 && t[j].0 == s[j].0);
    }
    assert forall|i: int| 0 <= i < t.len() implies table_of(m).contains_key((#[trigger] t[i]).0)
        && table_of(m)[t[i].0] == t[i].1 by {
        assert(t[i] == entry_view(s[i]));
    }
    assert forall|k: Seq<char>| #[trigger] table_of(m).contains_key(k) implies exists|i: int|
        0 <= i < t.len() && (#[trigger] t[i]).0 == k by {
        assert(m.contains_key(k));
        let i = choose|i: int| 0 <= i < s.len() && (#[trigger] s[i]).0 == k;
        assert(t[i].0 == k);
    }
}

/// Putting records into a table of values and taking the views gives what
/// putting their views into the table's view gives.
pub proof fn lemma_with_entries_view(records: Seq<(String, Option<Value>)>)
    ensures
        table_of(crate::avl::with_entries(Map::empty(), records)) == with_records(
            Map::empty(),
            records_view(records),
        ),
    decreases records.len(),
{
    if records.len() == 0 {
        assert(table_of(Map::<Seq<char>, Option<Value>>::empty()) =~= Map::<
            Seq<char>,
            Option<ValueView>,
        >::empty());
    } else {
        let rest = records.drop_last();
        lemma_with_entries_view(rest);
        assert(records_view(records).drop_last() =~= records_view(rest));
        let m = crate::avl::with_entries(Map::<Seq<char>, Option<Value>>::empty(), rest);
        let last = records.last();
        assert(table_of(m.insert(last.0@, last.1)) =~= table_of(m).insert(
            last.0@,
            value_view(last.1),
        ));
    }
}

impl AvlMemtable {
    /// The table that the log with the contents `log` leaves behind: for
    /// each key what was written last.
    pub fn new(log: Vec<u8>) -> (res: Result<Self, MalformedRecord>)
        ensures
            match res {
                Ok(memtable) => {
                    &&& memtable.well_formed()
                    &&& memtable.log() == log@
                    &&& leaves(log@, memtable.table())
                },
                Err(_) => parse_log(log@) is None,
            },
    {
        let ghost image = log@;
        let vec = match decode_file(log) {
            Ok(vec) => vec,
            Err(e) => {
                return Err(e);
            },
        };
        proof {
            lemma_with_entries_view(vec@);
            lemma_recovered_table(parse_log(image).unwrap());
        }
        Ok(Self { map: AvlTreeMap::from_iter(vec), log: Ghost(image) })
    }
}

impl Memtable for AvlMemtable {
    closed spec fn well_formed(&self) -> bool {
        self.map.well_formed()
    }

    closed spec fn table(&self) -> Table {
        table_of(self.map@)
    }

    closed spec fn log(&self) -> Seq<u8> {
        self.log@
    }

    proof fn lemma_finite(&self) {
        self.map.lemma_entries();
        assert(self.table().dom() =~= self.map@.dom());
    }

    fn insert(&mut self, key: String, value: Value) {
        proof {
            assert(self.table().dom() =~= self.map@.dom());
            assert(table_of(self.map@.insert(key@, Some(value))) =~= table_of(self.map@).insert(
                key@,
                Some(value@),
            ));
        }
        self.log = Ghost(self.log@ + frame_bytes(key@, Some(value@)));
        self.map.insert(key, Some(value));
    }

    fn delete(&mut self, key: &String) {
        proof {
            assert(self.table().dom() =~= self.map@.dom());
            assert(table_of(self.map@.insert(key@, None)) =~= table_of(self.map@).insert(
                key@,
                None,
            ));
        }
        self.log = Ghost(self.log@ + frame_bytes(key@, None));
        self.map.insert(key.clone(), None);
    }

    fn search(&self, key: &String) -> (found: Option<Option<&Value>>) {
        match self.map.search(key) {
            Some(value) => Some(value.as_ref()),
            None => None,
        }
    }

    #[verifier::loop_isolation(false)]
    fn to_vec(&self) -> (entries: Vec<(&String, &Value)>) {
        let mut state: Vec<(&String, &Value)> = Vec::new();
        let mut it = self.map.iter();
        let ghost all = self.map.entries();
        let ghost viewed = all.map_values(|e: (Seq<char>, Option<Value>)| entry_view(e));
        proof {
            self.map.lemma_entries();
            lemma_entries_view(all, self.map@);
            assert(all.take(0) =~= Seq::empty());
            assert(viewed.take(0) =~= Seq::empty());
        }
        let ghost mut done: int = 0;
        loop
            invariant
                0 <= done <= all.len(),
                it.remaining() == all.skip(done),
                viewed == all.map_values(|e: (Seq<char>, Option<Value>)| entry_view(e)),
                entry_refs_view(state@) == live(viewed.take(done)),
            decreases all.len() - done,
        {
            match it.next() {
                Some((key, value)) => {
                    proof {
                        assert(all.skip(done)[0] == all[done]);
                        assert(all.skip(done).skip(1) =~= all.skip(done + 1));
                        assert(viewed.take(done + 1).drop_last() =~= viewed.take(done));
                        assert(viewed.take(done + 1).last() == entry_view(all[done]));
                    }
                    if let Some(v) = value {
                        proof {
                            assert(entry_refs_view(state@.push((key, v))) =~= entry_refs_view(
                                state@,
                            ).push((key@, v@)));
                        }
                        state.push((key, v));
                    }
                    proof {
                        done = done + 1;
                    }
                },
                None => {
                    proof {
                        assert(viewed.take(done) =~= viewed);
                    }
                    return state;
                },
            }
        }
    }

    #[verifier::loop_isolation(false)]
    fn to_records(&self) -> (records: Vec<(&String, Option<&Value>)>) {
        let mut records: Vec<(&String, Option<&Value>)> = Vec::new();
        let mut it = self.map.iter();
        let ghost all = self.map.entries();
        let ghost viewed = all.map_values(|e: (Seq<char>, Option<Value>)| entry_view(e));
        proof {
            self.map.lemma_entries();
            lemma_entries_view(all, self.map@);
            assert(record_refs_view(records@) =~= viewed.take(0));
        }
        let ghost mut done: int = 0;
        loop
            invariant
                0 <= done <= all.len(),
                it.remaining() == all.skip(done),
                viewed == all.map_values(|e: (Seq<char>, Option<Value>)| entry_view(e)),
                record_refs_view(records@) == viewed.take(done),
            decreases all.len() - done,
        {
            match it.next() {
                Some((key, value)) => {
                    let record = (key, value.as_ref());
                    proof {
                        assert(all.skip(done)[0] == all[done]);
                        assert(all.skip(done).skip(1) =~= all.skip(done + 1));
                        assert(record_refs_view(records@.push(record)) =~= viewed.take(done + 1));
                    }
                    records.push(record);
                    proof {
                        done = done + 1;
                    }
                },
                None => {
                    proof {
                        assert(viewed.take(done) =~= viewed);
                    }
                    return records;
                },
            }
        }
    }

    fn clear(&mut self) {
        self.log = Ghost(Seq::empty());
        self.map = AvlTreeMap::new();
        proof {
            assert(self.table() =~= Map::<Seq<char>, Option<ValueView>>::empty());
        }
    }
}

} // verus!
