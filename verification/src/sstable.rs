use vstd::prelude::*;
use vstd::string::StringSliceAdditionalSpecFns;
use crate::disk::{DiskOp, DiskOpModel};
use crate::entry::{
    entry_views, lemma_run_map_empty, lemma_run_map_keyed, run_lines, run_map, sorted_run,
    utf8_len, EntryModel, StorageEntry,
};
use crate::keys::{ascending, find_key, key_seq, lemma_keyed_map_item};
use crate::memtable::{grown, MemTable};
use crate::text::text_views;

verus! {

/// The bytes that `lines` take in a file, a line break behind each.
pub open spec fn lines_weight(lines: Seq<Seq<char>>) -> nat
    decreases lines.len(),
{
    if lines.len() == 0 {
        0
    } else {
        lines_weight(lines.drop_last()) + utf8_len(lines.last()) as nat + 1
    }
}

/// What a run says of itself: its least key, its greatest key and the bytes
/// of its file.
pub struct RunMark {
    pub least: Seq<char>,
    pub greatest: Seq<char>,
    pub size: nat,
}

/// What a run of the records `records`, in ascending key order, says of
/// itself: the key of its first record, the key of its last, and the bytes
/// that its lines take; both keys empty where it holds no record.
pub open spec fn mark_of(records: Seq<EntryModel>) -> RunMark {
    RunMark {
        least: if records.len() > 0 {
            records.first().key
        } else {
            Seq::empty()
        },
        greatest: if records.len() > 0 {
            records.last().key
        } else {
            Seq::empty()
        },
        size: grown(0, lines_weight(run_lines(records))),
    }
}

/// Copies of `entries`, in order.
pub fn copy_entries(entries: &Vec<StorageEntry>) -> (copies: Vec<StorageEntry>)
    ensures
        entry_views(copies@) == entry_views(entries@),
{
    let mut copies: Vec<StorageEntry> = Vec::new();
    let mut i: usize = 0;
    while i < entries.len()
        invariant
            i <= entries.len(),
            copies.len() == i,
            forall|j: int| 0 <= j < i ==> copies[j]@ == entries[j]@,
        decreases entries.len() - i,
    {
        copies.push(entries[i].clone());
        i = i + 1;
    }
    assert(entry_views(copies@) =~= entry_views(entries@));
    copies
}

/// An immutable run of records in ascending key order, as one flush of a
/// write buffer leaves it, with the file it is kept in.
#[derive(Debug)]
pub struct SSTable {
    path: String,
    min_key: String,
    max_key: String,
    size: usize,
    entries: Vec<StorageEntry>,
}

impl View for SSTable {
    type V = Map<Seq<char>, EntryModel>;

    closed spec fn view(&self) -> Map<Seq<char>, EntryModel> {
        run_map(entry_views(self.entries@))
    }
}

impl SSTable {
    /// The records are held in strictly ascending key order.
    pub closed spec fn wf(&self) -> bool {
        ascending(key_seq(self.entries@))
    }

    /// The records in ascending key order, as the file holds them.
    pub closed spec fn records(&self) -> Seq<EntryModel> {
        entry_views(self.entries@)
    }

    pub closed spec fn path_view(&self) -> Seq<char> {
        self.path@
    }

    pub closed spec fn min_key_view(&self) -> Seq<char> {
        self.min_key@
    }

    pub closed spec fn max_key_view(&self) -> Seq<char> {
        self.max_key@
    }

    pub closed spec fn byte_size(&self) -> nat {
        self.size as nat
    }

    /// What the run says of itself.
    pub open spec fn mark(&self) -> RunMark {
        RunMark {
            least: self.min_key_view(),
            greatest: self.max_key_view(),
            size: self.byte_size(),
        }
    }

    /// The records in order are the run's map, laid out by ascending key.
    pub proof fn lemma_records(&self)
        requires
            self.wf(),
        ensures
            sorted_run(self.records()),
            run_map(self.records()) == self@,
    {
        lemma_run_map_keyed(self.entries@);
    }

    /// The run holds finitely many keys, no more than a vector has places.
    pub proof fn lemma_finite(&self)
        ensures
            self@.dom().finite(),
            self@.dom().len() <= usize::MAX,
    {
        crate::entry::lemma_run_map_finite(entry_views(self.entries@));
        assert(entry_views(self.entries@).len() == self.entries.len());
    }

    /// A run without records, to be kept in the file at `path`.
    pub fn new(path: String) -> (table: Self)
        ensures
            table.wf(),
            table.records() == Seq::<EntryModel>::empty(),
            table@ == Map::<Seq<char>, EntryModel>::empty(),
            table.path_view() == path@,
            table.min_key_view() == Seq::<char>::empty(),
            table.max_key_view() == Seq::<char>::empty(),
            table.byte_size() == 0,
    {
        let table = SSTable {
            path,
            min_key: String::new(),
            max_key: String::new(),
            size: 0,
            entries: Vec::new(),
        };
        proof {
            assert(entry_views(table.entries@) =~= Seq::<EntryModel>::empty());
            lemma_run_map_empty(entry_views(table.entries@));
            lemma_run_map_keyed(table.entries@);
        }
        table
    }

    /// The file in which the run is kept.
    pub fn path(&self) -> (path: &String)
        ensures
            path@ == self.path_view(),
    {
        &self.path
    }

    /// The least key of the run; empty while the run holds no record.
    pub fn min_key(&self) -> (key: &String)
        ensures
            key@ == self.min_key_view(),
    {
        &self.min_key
    }

    /// The greatest key of the run; empty while the run holds no record.
    pub fn max_key(&self) -> (key: &String)
        ensures
            key@ == self.max_key_view(),
    {
        &self.max_key
    }

    /// The bytes that the run's file takes.
    pub fn size(&self) -> (size: usize)
        ensures
            size == self.byte_size(),
    {
        self.size
    }

    /// Fills the run with `entries` and says how to write its file: one line
    /// per record, in order. The run's size grows by the bytes of those lines.
    pub fn write_entries(&mut self, entries: Vec<StorageEntry>) -> (op: DiskOp)
        requires
            ascending(key_seq(entries@)),
        ensures
            final(self).wf(),
            final(self).records() == entry_views(entries@),
            final(self).path_view() == old(self).path_view(),
            entries.len() > 0 ==> final(self).min_key_view() == entries@.first().key@
                && final(self).max_key_view() == entries@.last().key@,
            entries.len() == 0 ==> final(self).min_key_view() == old(self).min_key_view()
                && final(self).max_key_view() == old(self).max_key_view(),
            final(self).byte_size() == grown(
                old(self).byte_size(),
                lines_weight(run_lines(entry_views(entries@))),
            ),
            op@ == (DiskOpModel::WriteLines {
                path: old(self).path_view(),
                lines: run_lines(entry_views(entries@)),
            }),
    {
        if entries.len() > 0 {
            self.min_key = entries[0].key.clone();
            self.max_key = entries[entries.len() - 1].key.clone();
        }
        let ghost records = entry_views(entries@);
        let ghost all = run_lines(records);
        let mut lines: Vec<String> = Vec::new();
        let mut size: usize = self.size;
        let mut i: usize = 0;
        assert(all.subrange(0, 0) =~= Seq::<Seq<char>>::empty());
        while i < entries.len()
            invariant
                i <= entries.len(),
                records == entry_views(entries@),
                all == run_lines(records),
                text_views(lines@) == all.subrange(0, i as int),
                size == grown(old(self).byte_size(), lines_weight(all.subrange(0, i as int))),
                old(self).byte_size() <= usize::MAX,
            decreases entries.len() - i,
        {
            let line = entries[i].to_line();
            let bytes: usize = line.as_str().len();
            let ghost done = all.subrange(0, i as int);
            let ghost next = all.subrange(0, i + 1);
            assert(next.drop_last() =~= done);
            assert(next.last() == line@);
            size = if bytes < usize::MAX && size <= usize::MAX - (bytes + 1) {
                size + (bytes + 1)
            } else {
                usize::MAX
            };
            lines.push(line);
            assert(text_views(lines@) =~= next);
            i = i + 1;
        }
        assert(all.subrange(0, entries.len() as int) =~= all);
        self.size = size;
        self.entries = entries;
        assert(text_views(lines@) == all);
        DiskOp::WriteLines { path: self.path.clone(), lines }
    }

    /// Fills the run with what `memtable` holds, tombstones included, and says
    /// how to write its file.
    pub fn write_from_memtable(&mut self, memtable: &MemTable) -> (op: DiskOp)
        requires
            memtable.wf(),
        ensures
            final(self).wf(),
            final(self)@ == memtable@,
            final(self).records() == memtable.ordered(),
            final(self).path_view() == old(self).path_view(),
            memtable.ordered().len() > 0 ==> final(self).min_key_view()
                == memtable.ordered().first().key && final(self).max_key_view()
                == memtable.ordered().last().key,
            memtable.ordered().len() == 0 ==> final(self).min_key_view() == old(
                self,
            ).min_key_view() && final(self).max_key_view() == old(self).max_key_view(),
            final(self).byte_size() == grown(
                old(self).byte_size(),
                lines_weight(run_lines(memtable.ordered())),
            ),
            op@ == (DiskOpModel::WriteLines {
                path: old(self).path_view(),
                lines: run_lines(memtable.ordered()),
            }),
    {
        let source = memtable.iter();
        let entries = copy_entries(source);
        proof {
            assert(key_seq(entries@) =~= key_seq(source@)) by {
                assert forall|i: int| 0 <= i < entries.len() implies key_seq(entries@)[i] == key_seq(
                    source@,
                )[i] by {
                    assert(entry_views(entries@)[i] == entry_views(source@)[i]);
                }
            }
            if entries.len() > 0 {
                assert(entry_views(entries@)[0] == entries@.first()@);
                assert(entry_views(entries@)[entries.len() - 1] == entries@.last()@);
            }
        }
        let op = self.write_entries(entries);
        proof {
            self.lemma_records();
        }
        op
    }

    /// Copies of the run's records, in ascending key order.
    pub fn read_entries(&self) -> (entries: Vec<StorageEntry>)
        ensures
            entry_views(entries@) == self.records(),
    {
        copy_entries(&self.entries)
    }

    /// The record filed under `key`, a tombstone included.
    pub fn get(&self, key: &str) -> (found: Option<StorageEntry>)
        requires
            self.wf(),
        ensures
            match found {
                Some(entry) => self@.contains_key(key@) && entry@ == self@[key@],
                None => !self@.contains_key(key@),
            },
    {
        proof {
            lemma_run_map_keyed(self.entries@);
        }
        match find_key(&self.entries, key) {
            Some(at) => {
                proof {
                    lemma_keyed_map_item(self.entries@, at as int);
                }
                Some(self.entries[at].clone())
            },
            None => None,
        }
    }
}

} // verus!
