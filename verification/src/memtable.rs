use vstd::prelude::*;
use vstd::string::StringSliceAdditionalSpecFns;
use crate::clock::now_millis;
use crate::entry::{
    entry_views, lemma_run_map_empty, lemma_run_map_keyed, lemma_run_map_upsert, present_entry,
    run_map, sorted_run, tombstone, EntryModel, StorageEntry,
};
use crate::keys::{ascending, find_key, key_seq, lemma_keyed_map_item, upsert};

verus! {

/// The size at which a write buffer is full: one mebibyte.
pub const MEMTABLE_SIZE_LIMIT: usize = 1048576;

/// A size after `weight` more bytes, held at the largest number the machine counts to.
pub open spec fn grown(size: nat, weight: nat) -> nat {
    if size + weight <= usize::MAX {
        size + weight
    } else {
        usize::MAX as nat
    }
}

/// The sorted in-memory write buffer: one entry per key, tombstones included.
#[derive(Debug)]
pub struct MemTable {
    data: Vec<StorageEntry>,
    size: usize,
}

impl View for MemTable {
    type V = Map<Seq<char>, EntryModel>;

    closed spec fn view(&self) -> Map<Seq<char>, EntryModel> {
        run_map(entry_views(self.data@))
    }
}

impl MemTable {
    /// The entries are held in strictly ascending key order.
    pub closed spec fn wf(&self) -> bool {
        ascending(key_seq(self.data@))
    }

    /// The bytes counted so far.
    pub closed spec fn byte_size(&self) -> nat {
        self.size as nat
    }

    /// The records in ascending key order, as `iter` hands them out.
    pub closed spec fn ordered(&self) -> Seq<EntryModel> {
        entry_views(self.data@)
    }

    /// The records in order are the buffer's map, laid out by ascending key.
    pub proof fn lemma_ordered(&self)
        requires
            self.wf(),
        ensures
            sorted_run(self.ordered()),
            run_map(self.ordered()) == self@,
    {
        lemma_run_map_keyed(self.data@);
    }

    /// The buffer holds finitely many keys, no more than a vector has places.
    pub proof fn lemma_finite(&self)
        ensures
            self@.dom().finite(),
            self@.dom().len() <= usize::MAX,
    {
        crate::entry::lemma_run_map_finite(entry_views(self.data@));
        assert(entry_views(self.data@).len() == self.data.len());
    }

    /// An empty buffer.
    pub fn new() -> (table: Self)
        ensures
            table.wf(),
            table@ == Map::<Seq<char>, EntryModel>::empty(),
            table.byte_size() == 0,
    {
        let table = MemTable { data: Vec::new(), size: 0 };
        proof {
            lemma_run_map_empty(entry_views(table.data@));
            lemma_run_map_keyed(table.data@);
        }
        table
    }

    /// Files `entry` under its key, in place of what the key held, and counts its bytes.
    pub fn put(&mut self, entry: StorageEntry)
        requires
            old(self).wf(),
        ensures
            final(self).wf(),
            final(self)@ == old(self)@.insert(entry@.key, entry@),
            final(self).byte_size() == grown(old(self).byte_size(), entry@.weight()),
            final(self).byte_size() >= old(self).byte_size(),
    {
        let key_bytes: usize = entry.key.as_str().len();
        let value_bytes: usize = entry.value.serialized_size();
        let weight: usize = if key_bytes <= usize::MAX - value_bytes {
            key_bytes + value_bytes
        } else {
            usize::MAX
        };
        self.size = if weight <= usize::MAX - self.size {
            self.size + weight
        } else {
            usize::MAX
        };
        let ghost before = self.data@;
        upsert(&mut self.data, entry);
        proof {
            lemma_run_map_upsert(before, self.data@, entry);
        }
    }

    /// Records that `key` holds `value` as of `timestamp`.
    pub fn insert_at(&mut self, key: String, value: String, timestamp: u64)
        requires
            old(self).wf(),
        ensures
            final(self).wf(),
            final(self)@ == old(self)@.insert(key@, present_entry(key@, value@, timestamp)),
            final(self).byte_size() == grown(
                old(self).byte_size(),
                present_entry(key@, value@, timestamp).weight(),
            ),
    {
        self.put(StorageEntry::present(key, value, timestamp));
    }

    /// Records that `key` was deleted at `timestamp`.
    pub fn delete_at(&mut self, key: String, timestamp: u64)
        requires
            old(self).wf(),
        ensures
            final(self).wf(),
            final(self)@ == old(self)@.insert(key@, tombstone(key@, timestamp)),
            final(self).byte_size() == grown(
                old(self).byte_size(),
                tombstone(key@, timestamp).weight(),
            ),
    {
        self.put(StorageEntry::deleted(key, timestamp));
    }

    /// Records that `key` holds `value`, stamped with the time of the call.
    pub fn insert(&mut self, key: String, value: String)
        requires
            old(self).wf(),
        ensures
            final(self).wf(),
            exists|timestamp: u64|
                {
                    let entry = #[trigger] present_entry(key@, value@, timestamp);
                    &&& final(self)@ == old(self)@.insert(key@, entry)
                    &&& final(self).byte_size() == grown(old(self).byte_size(), entry.weight())
                },
    {
        let timestamp = now_millis();
        self.insert_at(key, value, timestamp);
    }

    /// Records that `key` was deleted, stamped with the time of the call.
    pub fn delete(&mut self, key: String)
        requires
            old(self).wf(),
        ensures
            final(self).wf(),
            exists|timestamp: u64|
                {
                    let entry = #[trigger] tombstone(key@, timestamp);
                    &&& final(self)@ == old(self)@.insert(key@, entry)
                    &&& final(self).byte_size() == grown(old(self).byte_size(), entry.weight())
                },
    {
        let timestamp = now_millis();
        self.delete_at(key, timestamp);
    }

    /// The entry filed under `key`, a tombstone included.
    pub fn get(&self, key: &str) -> (found: Option<&StorageEntry>)
        requires
            self.wf(),
        ensures
            match found {
                Some(entry) => self@.contains_key(key@) && entry@ == self@[key@],
                None => !self@.contains_key(key@),
            },
    {
        proof {
            lemma_run_map_keyed(self.data@);
        }
        match find_key(&self.data, key) {
            Some(at) => {
                proof {
                    lemma_keyed_map_item(self.data@, at as int);
                }
                Some(&self.data[at])
            },
            None => None,
        }
    }

    /// Whether the bytes counted have reached the limit.
    pub fn is_full(&self) -> (full: bool)
        ensures
            full == (self.byte_size() >= MEMTABLE_SIZE_LIMIT),
    {
        self.size >= MEMTABLE_SIZE_LIMIT
    }

    /// Whether no key is filed.
    pub fn is_empty(&self) -> (empty: bool)
        requires
            self.wf(),
        ensures
            empty == (self@ == Map::<Seq<char>, EntryModel>::empty()),
    {
        proof {
            lemma_run_map_empty(entry_views(self.data@));
        }
        self.data.len() == 0
    }

    /// Empties the buffer and its count.
    pub fn clear(&mut self)
        ensures
            final(self).wf(),
            final(self)@ == Map::<Seq<char>, EntryModel>::empty(),
            final(self).byte_size() == 0,
    {
        self.data.clear();
        self.size = 0;
        proof {
            lemma_run_map_empty(entry_views(self.data@));
            lemma_run_map_keyed(self.data@);
        }
    }

    /// The entries in ascending key order.
    pub fn iter(&self) -> (entries: &Vec<StorageEntry>)
        requires
            self.wf(),
        ensures
            entry_views(entries@) == self.ordered(),
            ascending(key_seq(entries@)),
            sorted_run(self.ordered()),
            run_map(self.ordered()) == self@,
    {
        proof {
            self.lemma_ordered();
        }
        &self.data
    }
}

} // verus!
