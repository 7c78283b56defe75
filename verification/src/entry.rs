use vstd::prelude::*;
use vstd::string::StringExecFns;
use vstd::string::StringSliceAdditionalSpecFns;
use crate::json::{json_string, quote};
use crate::keys::{ascending, item_at, key_seq, keyed_map, position, Keyed};
use crate::text::{decimal, push_decimal};

verus! {

/// What is stored under a key: a value, or the mark that the key was deleted.
#[derive(Debug)]
pub enum StorageValue {
    Present(String),
    Deleted,
}

/// One record of the store: the last thing that was said about `key` at `timestamp`.
#[derive(Debug)]
pub struct StorageEntry {
    pub key: String,
    pub value: StorageValue,
    pub timestamp: u64,
}

/// The mathematical value of a `StorageValue`.
pub enum ValueModel {
    Present(Seq<char>),
    Deleted,
}

/// The mathematical value of a `StorageEntry`.
pub struct EntryModel {
    pub key: Seq<char>,
    pub value: ValueModel,
    pub timestamp: u64,
}

/// The number of bytes that `text` takes in UTF-8, as the length of a string reports it.
pub open spec fn utf8_len(text: Seq<char>) -> usize {
    vstd::utf8::encode_utf8(text).len() as usize
}

impl View for StorageValue {
    type V = ValueModel;

    open spec fn view(&self) -> ValueModel {
        match self {
            StorageValue::Present(text) => ValueModel::Present(text@),
            StorageValue::Deleted => ValueModel::Deleted,
        }
    }
}

impl View for StorageEntry {
    type V = EntryModel;

    open spec fn view(&self) -> EntryModel {
        EntryModel { key: self.key@, value: self.value@, timestamp: self.timestamp }
    }
}

/// The record that `key` holds `value` as of `timestamp`.
pub open spec fn present_entry(key: Seq<char>, value: Seq<char>, timestamp: u64) -> EntryModel {
    EntryModel { key, value: ValueModel::Present(value), timestamp }
}

/// The record that `key` was deleted at `timestamp`.
pub open spec fn tombstone(key: Seq<char>, timestamp: u64) -> EntryModel {
    EntryModel { key, value: ValueModel::Deleted, timestamp }
}

impl ValueModel {
    /// The bytes that a value adds to a buffer's size: its text, or eight for a tombstone.
    pub open spec fn weight(self) -> nat {
        match self {
            ValueModel::Present(text) => utf8_len(text) as nat,
            ValueModel::Deleted => 8,
        }
    }

    /// What a reader gets: the text, or nothing where the key was deleted.
    pub open spec fn visible(self) -> Option<Seq<char>> {
        match self {
            ValueModel::Present(text) => Some(text),
            ValueModel::Deleted => None,
        }
    }
}

impl EntryModel {
    /// The bytes that an entry adds to a buffer's size.
    pub open spec fn weight(self) -> nat {
        utf8_len(self.key) as nat + self.value.weight()
    }
}

impl Clone for StorageValue {
    fn clone(&self) -> (copy: Self)
        ensures
            copy@ == self@,
    {
        match self {
            StorageValue::Present(text) => StorageValue::Present(text.clone()),
            StorageValue::Deleted => StorageValue::Deleted,
        }
    }
}

impl Clone for StorageEntry {
    fn clone(&self) -> (copy: Self)
        ensures
            copy@ == self@,
    {
        StorageEntry { key: self.key.clone(), value: self.value.clone(), timestamp: self.timestamp }
    }
}

impl StorageValue {
    /// The bytes that this value adds to a buffer's size.
    pub fn serialized_size(&self) -> (size: usize)
        ensures
            size == self@.weight(),
    {
        match self {
            StorageValue::Present(text) => text.as_str().len(),
            StorageValue::Deleted => 8,
        }
    }
}

impl StorageEntry {
    /// The record that `key` holds `value` as of `timestamp`.
    pub fn present(key: String, value: String, timestamp: u64) -> (entry: Self)
        ensures
            entry@ == present_entry(key@, value@, timestamp),
    {
        StorageEntry { key, value: StorageValue::Present(value), timestamp }
    }

    /// The record that `key` was deleted at `timestamp`.
    pub fn deleted(key: String, timestamp: u64) -> (entry: Self)
        ensures
            entry@ == tombstone(key@, timestamp),
    {
        StorageEntry { key, value: StorageValue::Deleted, timestamp }
    }
}

/// How a value is written in a record's line.
pub open spec fn value_text(value: ValueModel) -> Seq<char> {
    match value {
        ValueModel::Present(text) => "{\"Present\":"@ + json_string(text) + "}"@,
        ValueModel::Deleted => "\"Deleted\""@,
    }
}

/// The line that records `entry` in a log or a run: a JSON object with the
/// members `key`, `value` and `timestamp`, in this order and without blanks.
pub open spec fn entry_line(entry: EntryModel) -> Seq<char> {
    "{\"key\":"@ + json_string(entry.key) + ",\"value\":"@ + value_text(entry.value)
        + ",\"timestamp\":"@ + decimal(entry.timestamp as nat) + "}"@
}

impl StorageEntry {
    /// The line that records this entry.
    pub fn to_line(&self) -> (line: String)
        ensures
            line@ == entry_line(self@),
    {
        let mut line = String::new();
        line.append("{\"key\":");
        line.append(quote(self.key.as_str()).as_str());
        line.append(",\"value\":");
        match &self.value {
            StorageValue::Present(text) => {
                line.append("{\"Present\":");
                line.append(quote(text.as_str()).as_str());
                line.append("}");
            },
            StorageValue::Deleted => {
                line.append("\"Deleted\"");
            },
        }
        line.append(",\"timestamp\":");
        push_decimal(&mut line, self.timestamp);
        line.append("}");
        assert(line@ =~= entry_line(self@));
        line
    }
}

impl Keyed for StorageEntry {
    open spec fn key_view(&self) -> Seq<char> {
        self.key@
    }

    fn key_text(&self) -> (key: &str) {
        self.key.as_str()
    }
}

/// The views of `entries`, in order.
pub open spec fn entry_views(entries: Seq<StorageEntry>) -> Seq<EntryModel> {
    Seq::new(entries.len(), |i: int| entries[i]@)
}

/// The keys of `records`, in order.
pub open spec fn run_keys(records: Seq<EntryModel>) -> Seq<Seq<char>> {
    Seq::new(records.len(), |i: int| records[i].key)
}

/// A run: records in strictly ascending key order, one per key.
pub open spec fn sorted_run(records: Seq<EntryModel>) -> bool {
    ascending(run_keys(records))
}

/// A run as the map from key to record.
pub open spec fn run_map(records: Seq<EntryModel>) -> Map<Seq<char>, EntryModel> {
    Map::new(
        |k: Seq<char>| run_keys(records).contains(k),
        |k: Seq<char>| records[position(run_keys(records), k)],
    )
}

/// The lines that record `records`, one each, in order.
pub open spec fn run_lines(records: Seq<EntryModel>) -> Seq<Seq<char>> {
    Seq::new(records.len(), |i: int| entry_line(records[i]))
}

/// A run holds finitely many keys, no more than it has records.
pub proof fn lemma_run_map_finite(records: Seq<EntryModel>)
    ensures
        run_map(records).dom().finite(),
        run_map(records).dom().len() <= records.len(),
{
    let keys = run_keys(records);
    assert(run_map(records).dom() =~= keys.to_set());
    vstd::seq_lib::seq_to_set_is_finite(keys);
    keys.lemma_cardinality_of_set();
}

/// The map of a run of entries is the map of their views.
pub proof fn lemma_run_map_keyed(entries: Seq<StorageEntry>)
    ensures
        run_keys(entry_views(entries)) == key_seq(entries),
        run_map(entry_views(entries)).dom() == keyed_map(entries).dom(),
        forall|k: Seq<char>| #[trigger]
            keyed_map(entries).contains_key(k) ==> run_map(entry_views(entries))[k] == keyed_map(
                entries,
            )[k]@,
{
    let views = entry_views(entries);
    assert(run_keys(views) =~= key_seq(entries));
    assert(run_map(views).dom() =~= keyed_map(entries).dom());
    assert forall|k: Seq<char>| #[trigger] keyed_map(entries).contains_key(k) implies run_map(
        views,
    )[k] == keyed_map(entries)[k]@ by {
        let p = position(key_seq(entries), k);
        assert(0 <= p < entries.len());
        assert(item_at(entries, k) == entries[p]);
    }
}

/// Each record of a run is the one that the run's map holds under its key.
pub proof fn lemma_run_map_record(records: Seq<EntryModel>, i: int)
    requires
        sorted_run(records),
        0 <= i < records.len(),
    ensures
        run_map(records).contains_key(records[i].key),
        run_map(records)[records[i].key] == records[i],
{
    assert(run_keys(records)[i] == records[i].key);
    crate::keys::lemma_position(run_keys(records), i);
}

/// A key of a run's map is the key of one of its records.
pub proof fn lemma_run_map_key(records: Seq<EntryModel>, key: Seq<char>)
    requires
        sorted_run(records),
        run_map(records).contains_key(key),
    ensures
        0 <= position(run_keys(records), key) < records.len(),
        records[position(run_keys(records), key)].key == key,
        run_map(records)[key].key == key,
{
    let p = position(run_keys(records), key);
    assert(run_keys(records)[p] == key);
}

/// A run of no records is the empty map.
pub proof fn lemma_run_map_empty(records: Seq<EntryModel>)
    ensures
        records.len() == 0 <==> run_map(records) == Map::<Seq<char>, EntryModel>::empty(),
        records.len() == 0 ==> sorted_run(records),
{
    if records.len() == 0 {
        assert(run_map(records) =~= Map::<Seq<char>, EntryModel>::empty());
    } else {
        assert(run_keys(records)[0] == records[0].key);
        assert(run_map(records).contains_key(records[0].key));
    }
}

/// The records of a run, given as a map, in ascending key order.
pub open spec fn records_of(run: Map<Seq<char>, EntryModel>) -> Seq<EntryModel> {
    choose|records: Seq<EntryModel>| sorted_run(records) && run_map(records) == run
}

/// A run in ascending key order is the only such run with its map.
pub proof fn lemma_records_of(records: Seq<EntryModel>)
    requires
        sorted_run(records),
    ensures
        records_of(run_map(records)) == records,
{
    let other = records_of(run_map(records));
    assert(sorted_run(other) && run_map(other) == run_map(records));
    assert forall|k: Seq<char>| run_keys(other).contains(k) <==> run_keys(records).contains(k) by {
        assert(run_map(other).contains_key(k) <==> run_map(records).contains_key(k));
    }
    crate::keys::lemma_ascending_unique(run_keys(other), run_keys(records));
    assert(other.len() == records.len()) by {
        assert(run_keys(other).len() == run_keys(records).len());
    }
    assert forall|i: int| 0 <= i < records.len() implies other[i] == records[i] by {
        lemma_run_map_record(other, i);
        lemma_run_map_record(records, i);
        assert(run_keys(other)[i] == run_keys(records)[i]);
    }
    assert(other =~= records);
}

/// What filing an entry by `upsert` does to the run's map.
pub proof fn lemma_run_map_upsert(before: Seq<StorageEntry>, after: Seq<StorageEntry>, entry: StorageEntry)
    requires
        keyed_map(after) == keyed_map(before).insert(entry.key@, entry),
    ensures
        run_map(entry_views(after)) == run_map(entry_views(before)).insert(entry@.key, entry@),
{
    lemma_run_map_keyed(before);
    lemma_run_map_keyed(after);
    let goal = run_map(entry_views(before)).insert(entry@.key, entry@);
    let got = run_map(entry_views(after));
    assert(got.dom() =~= goal.dom());
    assert forall|k: Seq<char>| got.contains_key(k) implies got[k] == goal[k] by {
        assert(keyed_map(after).contains_key(k));
        if k != entry@.key {
            assert(keyed_map(before).contains_key(k));
        }
    }
    assert(got =~= goal);
}

} // verus!
