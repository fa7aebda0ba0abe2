//! The segments: the tables that flushes of the memtable left behind, each
//! written once and then only read. The newest segment that holds a key
//! decides what the key has.

use crate::binary::{value_ref_view, value_view};
use crate::error::MalformedRecord;
use crate::le::append_bytes;
use crate::memtable::{record_ref_view, record_refs_view};
use crate::record::{
    decode_file, frame, frame_bytes, leaves, lemma_recovered_table, parse_log, records_view,
    table_of, with_records, Table,
};
use crate::text::{decimal_padded, push_decimal_padded};
use crate::value::{Value, ValueView};
use std::collections::VecDeque;
use vstd::hash_map::StringHashMap;
use vstd::prelude::*;
use vstd::string::StringExecFns;

verus! {

/// What the first of `tables` that holds `key` has for it, if any holds it:
/// a value, or the mark that the key was deleted.
pub open spec fn find_in(tables: Seq<Table>, key: Seq<char>) -> Option<Option<ValueView>>
    decreases tables.len(),
{
    if tables.len() == 0 {
        None
    } else if tables[0].contains_key(key) {
        Some(tables[0][key])
    } else {
        find_in(tables.skip(1), key)
    }
}

/// The contents of the file of a segment that holds `records`: the
/// records as they are appended to a log, first to last.
pub open spec fn segment_bytes(records: Seq<(Seq<char>, Option<ValueView>)>) -> Seq<u8>
    decreases records.len(),
{
    if records.len() == 0 {
        Seq::empty()
    } else {
        segment_bytes(records.drop_last()) + frame_bytes(records.last().0, records.last().1)
    }
}

/// The name of the file of the segment with the ordinal `n`: the ordinal
/// in five digits, or more where it needs more.
pub open spec fn segment_name(n: nat) -> Seq<char> {
    decimal_padded(n, 5) + ".bin"@
}

/// Each segment's table is what its file leaves behind; `files` are in the
/// order of their ordinals, `tables` newest first.
pub open spec fn segments_match(tables: Seq<Table>, files: Seq<Seq<u8>>) -> bool {
    &&& tables.len() == files.len()
    &&& forall|i: int|
        0 <= i < files.len() ==> leaves(#[trigger] files[i], tables[files.len() - 1 - i])
}

/// The immutable segments of a store, with an image of their files.
pub trait SSTable {
    /// The store of segments keeps its own rules.
    spec fn well_formed(&self) -> bool;

    /// A store of segments that keeps its rules has one file for each
    /// table: the ordinal of the next segment is the number of the files.
    proof fn lemma_file_per_table(&self)
        requires
            self.well_formed(),
        ensures
            self.tables().len() == self.files().len(),
    ;

    /// The tables of the segments, the newest first.
    spec fn tables(&self) -> Seq<Table>;

    /// What the files of the segments hold, in the order of their
    /// ordinals, if each segment was written before it was made here.
    spec fn files(&self) -> Seq<Seq<u8>>;

    /// What the newest segment that holds `key` has for it.
    fn search(&self, key: &String) -> (found: Option<Option<&Value>>)
        requires
            self.well_formed(),
        ensures
            (match found {
                Some(v) => Some(value_ref_view(v)),
                None => None,
            }) == find_in(self.tables(), key@),
    ;

    /// The name and the contents of the file of the segment that `create`
    /// would add for `records`.
    fn next_file(&self, records: &Vec<(&String, Option<&Value>)>) -> (file: (String, Vec<u8>))
        requires
            self.well_formed(),
        ensures
            file.0@ == segment_name(self.tables().len()),
            file.1@ == segment_bytes(record_refs_view(records@)),
    ;

    /// Adds a segment that holds `records` as the newest. Its file is
    /// taken as written.
    fn create(&mut self, records: Vec<(&String, Option<&Value>)>)
        requires
            old(self).well_formed(),
        ensures
            final(self).well_formed(),
            final(self).tables() == seq![
                with_records(Map::empty(), record_refs_view(records@)),
            ] + old(self).tables(),
            final(self).files() == old(self).files().push(
                segment_bytes(record_refs_view(records@)),
            ),
    ;
}

/// An `SSTable` that keeps each segment's table in a hash map.
pub struct HashMapSSTable {
    maps: VecDeque<StringHashMap<Option<Value>>>,
    files: Ghost<Seq<Seq<u8>>>,
}

/// What a list of file contents holds.
pub open spec fn file_views(files: Seq<Vec<u8>>) -> Seq<Seq<u8>> {
    files.map_values(|f: Vec<u8>| f@)
}

/// The tables of a list of hash maps.
pub open spec fn map_tables(maps: Seq<StringHashMap<Option<Value>>>) -> Seq<Table> {
    maps.map_values(|m: StringHashMap<Option<Value>>| table_of(m@))
}

/// A hash map of the records of `records`, put in first to last.
fn table_from(records: &Vec<(&String, Option<&Value>)>) -> (map: StringHashMap<Option<Value>>)
    ensures
        table_of(map@) == with_records(Map::empty(), record_refs_view(records@)),
{
    let mut map: StringHashMap<Option<Value>> = StringHashMap::new();
    let mut i: usize = 0;
    let ghost all = record_refs_view(records@);
    proof {
        assert(table_of(map@) =~= Map::<Seq<char>, Option<ValueView>>::empty());
        assert(all.take(0) =~= Seq::empty());
    }
    while i < records.len()
        invariant
            i <= records@.len(),
            all == record_refs_view(records@),
            table_of(map@) == with_records(Map::empty(), all.take(i as int)),
        decreases records.len() - i,
    {
        let (key, value) = records[i];
        let owned = match value {
            Some(v) => Some(v.clone()),
            None => None,
        };
        proof {
            assert(all[i as int] == record_ref_view(records@[i as int]));
            assert(all.take(i + 1).drop_last() =~= all.take(i as int));
            assert(all.take(i + 1).last() == all[i as int]);
            assert(table_of(map@.insert(key@, owned)) =~= table_of(map@).insert(
                key@,
                value_view(owned),
            ));
        }
        map.insert(key.clone(), owned);
        i += 1;
    }
    proof {
        assert(all.take(i as int) =~= all);
    }
    map
}

/// A hash map of decoded records, put in first to last.
fn table_from_owned(records: Vec<(String, Option<Value>)>) -> (map: StringHashMap<Option<Value>>)
    ensures
        table_of(map@) == with_records(Map::empty(), records_view(records@)),
{
    let mut map: StringHashMap<Option<Value>> = StringHashMap::new();
    let ghost all = records_view(records@);
    let ghost n = records@.len() as int;
    let mut rest = records;
    let mut stack: Vec<(String, Option<Value>)> = Vec::new();
    while rest.len() > 0
        invariant
            rest.len() + stack.len() == n,
            n == all.len(),
            forall|i: int|
                0 <= i < stack.len() ==> crate::record::record_view(#[trigger] stack@[i]) == all[n
                    - 1 - i],
            forall|i: int|
                0 <= i < rest.len() ==> crate::record::record_view(#[trigger] rest@[i]) == all[i],
        decreases rest.len(),
    {
        let record = rest.pop().unwrap();
        stack.push(record);
    }
    proof {
        assert(table_of(map@) =~= Map::<Seq<char>, Option<ValueView>>::empty());
        assert(all.take(0) =~= Seq::empty());
    }
    while stack.len() > 0
        invariant
            stack.len() <= n,
            n == all.len(),
            forall|i: int|
                0 <= i < stack.len() ==> crate::record::record_view(#[trigger] stack@[i]) == all[n
                    - 1 - i],
            table_of(map@) == with_records(Map::empty(), all.take(n - stack.len())),
        decreases stack.len(),
    {
        let ghost done = n - stack.len();
        let (key, value) = stack.pop().unwrap();
        proof {
            assert(all.take(done + 1).drop_last() =~= all.take(done));
            assert(all.take(done + 1).last() == all[done]);
            assert(table_of(map@.insert(key@, value)) =~= table_of(map@).insert(
                key@,
                value_view(value),
            ));
        }
        map.insert(key, value);
    }
    proof {
        assert(all.take(n) =~= all);
    }
    map
}

impl HashMapSSTable {
    /// The segments whose files hold `files`, in the order of the files'
    /// names.
    pub fn new(files: Vec<Vec<u8>>) -> (res: Result<Self, MalformedRecord>)
        ensures
            match res {
                Ok(sstable) => {
                    &&& sstable.well_formed()
                    &&& sstable.files() == file_views(files@)
                    &&& segments_match(sstable.tables(), sstable.files())
                },
                Err(_) => exists|i: int|
                    0 <= i < files@.len() && parse_log(#[trigger] files@[i]@) is None,
            },
    {
        let ghost images = file_views(files@);
        let mut maps: VecDeque<StringHashMap<Option<Value>>> = VecDeque::new();
        let mut rest = files;
        let mut stack: Vec<Vec<u8>> = Vec::new();
        let ghost n = images.len() as int;
        while rest.len() > 0
            invariant
                rest.len() + stack.len() == n,
                n == images.len(),
                images == file_views(files@),
                forall|i: int| 0 <= i < stack.len() ==> (#[trigger] stack@[i])@ == images[n - 1 - i],
                forall|i: int| 0 <= i < rest.len() ==> (#[trigger] rest@[i])@ == images[i],
                forall|i: int| 0 <= i < rest.len() ==> rest@[i] == files@[i],
            decreases rest.len(),
        {
            let file = rest.pop().unwrap();
            stack.push(file);
        }
        while stack.len() > 0
            invariant
                stack.len() <= n,
                n == images.len(),
                images == file_views(files@),
                forall|i: int| 0 <= i < stack.len() ==> (#[trigger] stack@[i])@ == images[n - 1 - i],
                maps@.len() == n - stack.len(),
                forall|i: int|
                    0 <= i < maps@.len() ==> leaves(
                        #[trigger] images[i],
                        table_of(maps@[maps@.len() - 1 - i]@),
                    ),
            decreases stack.len(),
        {
            let ghost done = n - stack.len();
            let file = stack.pop().unwrap();
            let ghost before = maps@;
            let records = match decode_file(file) {
                Ok(records) => records,
                Err(e) => {
                    proof {
                        assert(files@[done]@ == images[done]);
                    }
                    return Err(e);
                },
            };
            proof {
                lemma_recovered_table(parse_log(images[done]).unwrap());
            }
            maps.push_front(table_from_owned(records));
            proof {
                assert forall|i: int| 0 <= i < maps@.len() implies leaves(
                    #[trigger] images[i],
                    table_of(maps@[maps@.len() - 1 - i]@),
                ) by {
                    if i < done {
                        assert(maps@[maps@.len() - 1 - i] == before[before.len() - 1 - i]);
                    }
                }
            }
        }
        let sstable = Self { maps, files: Ghost(images) };
        proof {
            assert forall|i: int| 0 <= i < images.len() implies leaves(
                #[trigger] images[i],
                sstable.tables()[images.len() - 1 - i],
            ) by {
                assert(sstable.tables()[images.len() - 1 - i] == table_of(
                    maps@[maps@.len() - 1 - i]@,
                ));
            }
        }
        Ok(sstable)
    }
}

impl SSTable for HashMapSSTable {
    closed spec fn well_formed(&self) -> bool {
        self.maps@.len() == self.files@.len()
    }

    proof fn lemma_file_per_table(&self) {
    }

    closed spec fn tables(&self) -> Seq<Table> {
        map_tables(self.maps@)
    }

    closed spec fn files(&self) -> Seq<Seq<u8>> {
        self.files@
    }

    fn search(&self, key: &String) -> (found: Option<Option<&Value>>) {
        let mut i: usize = 0;
        let ghost tables = self.tables();
        proof {
            assert(tables.skip(0) =~= tables);
        }
        while i < self.maps.len()
            invariant
                i <= self.maps@.len(),
                tables == map_tables(self.maps@),
                find_in(tables, key@) == find_in(tables.skip(i as int), key@),
            decreases self.maps.len() - i,
        {
            proof {
                assert(tables.skip(i as int)[0] == table_of(self.maps@[i as int]@));
                assert(tables.skip(i as int).skip(1) =~= tables.skip(i + 1));
            }
            if let Some(v) = self.maps[i].get(key.as_str()) {
                return Some(v.as_ref());
            }
            i += 1;
        }
        None
    }

    fn next_file(&self, records: &Vec<(&String, Option<&Value>)>) -> (file: (String, Vec<u8>)) {
        let mut file_name = String::new();
        push_decimal_padded(&mut file_name, self.maps.len(), 5);
        file_name.append(".bin");
        let mut bytes: Vec<u8> = Vec::new();
        let mut i: usize = 0;
        let ghost all = record_refs_view(records@);
        proof {
            assert(all.take(0) =~= Seq::empty());
        }
        while i < records.len()
            invariant
                i <= records@.len(),
                all == record_refs_view(records@),
                bytes@ == segment_bytes(all.take(i as int)),
            decreases records.len() - i,
        {
            let (key, value) = records[i];
            let binary = frame(key, value);
            proof {
                assert(all[i as int] == record_ref_view(records@[i as int]));
                assert(all.take(i + 1).drop_last() =~= all.take(i as int));
                assert(all.take(i + 1).last() == all[i as int]);
            }
            append_bytes(&mut bytes, binary.as_slice());
            i += 1;
        }
        proof {
            assert(all.take(i as int) =~= all);
            assert(file_name@ =~= segment_name(self.tables().len()));
        }
        (file_name, bytes)
    }

    fn create(&mut self, records: Vec<(&String, Option<&Value>)>) {
        let map = table_from(&records);
        let ghost before = self.maps@;
        self.files = Ghost(self.files@.push(segment_bytes(record_refs_view(records@))));
        self.maps.push_front(map);
        proof {
            assert(map_tables(self.maps@) =~= seq![table_of(map@)] + map_tables(before));
        }
    }
}

} // verus!
