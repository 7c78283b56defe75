use vstd::prelude::*;
use crate::clock::now_millis;
use crate::disk::{join_path, path_in, DiskOp, DiskOpModel};
use crate::entry::{entry_line, entry_views, present_entry, tombstone, EntryModel, StorageEntry};
use crate::sstable::copy_entries;

verus! {

/// The write-ahead log of one table: every write that was acknowledged, in
/// the order in which it was made.
#[derive(Debug)]
pub struct WAL {
    path: String,
    entries: Vec<StorageEntry>,
}

impl View for WAL {
    type V = Seq<EntryModel>;

    closed spec fn view(&self) -> Seq<EntryModel> {
        entry_views(self.entries@)
    }
}

impl WAL {
    /// The file in which the log is kept.
    pub closed spec fn path_view(&self) -> Seq<char> {
        self.path@
    }

    /// The log of the table directory `data_dir`, holding the records `logged`
    /// that were read from its file `wal.log`.
    pub fn new(data_dir: &str, logged: Vec<StorageEntry>) -> (log: Self)
        ensures
            log@ == entry_views(logged@),
            log.path_view() == path_in(data_dir@, "wal.log"@),
    {
        WAL { path: join_path(data_dir, "wal.log"), entries: logged }
    }

    /// The file in which the log is kept.
    pub fn path(&self) -> (path: &String)
        ensures
            path@ == self.path_view(),
    {
        &self.path
    }

    /// Adds `entry` at the end of the log and says how to make it durable.
    pub fn append(&mut self, entry: StorageEntry) -> (op: DiskOp)
        ensures
            final(self)@ == old(self)@.push(entry@),
            final(self).path_view() == old(self).path_view(),
            op@ == (DiskOpModel::AppendLine {
                path: old(self).path_view(),
                line: entry_line(entry@),
            }),
    {
        let line = entry.to_line();
        self.entries.push(entry);
        assert(entry_views(self.entries@) =~= entry_views(old(self).entries@).push(entry@));
        DiskOp::AppendLine { path: self.path.clone(), line }
    }

    /// Logs that `key` holds `value` as of `timestamp`.
    pub fn log_insert_at(&mut self, key: &str, value: &str, timestamp: u64) -> (op: DiskOp)
        ensures
            final(self)@ == old(self)@.push(present_entry(key@, value@, timestamp)),
            final(self).path_view() == old(self).path_view(),
            op@ == (DiskOpModel::AppendLine {
                path: old(self).path_view(),
                line: entry_line(present_entry(key@, value@, timestamp)),
            }),
    {
        self.append(StorageEntry::present(key.to_owned(), value.to_owned(), timestamp))
    }

    /// Logs that `key` was deleted at `timestamp`.
    pub fn log_delete_at(&mut self, key: &str, timestamp: u64) -> (op: DiskOp)
        ensures
            final(self)@ == old(self)@.push(tombstone(key@, timestamp)),
            final(self).path_view() == old(self).path_view(),
            op@ == (DiskOpModel::AppendLine {
                path: old(self).path_view(),
                line: entry_line(tombstone(key@, timestamp)),
            }),
    {
        self.append(StorageEntry::deleted(key.to_owned(), timestamp))
    }

    /// Logs that `key` holds `value`, stamped with the time of the call.
    pub fn log_insert(&mut self, key: &str, value: &str) -> (op: DiskOp)
        ensures
            final(self).path_view() == old(self).path_view(),
            exists|timestamp: u64|
                {
                    let entry = #[trigger] present_entry(key@, value@, timestamp);
                    &&& final(self)@ == old(self)@.push(entry)
                    &&& op@ == (DiskOpModel::AppendLine {
                        path: old(self).path_view(),
                        line: entry_line(entry),
                    })
                },
    {
        let timestamp = now_millis();
        let op = self.log_insert_at(key, value, timestamp);
        assert(final(self)@ == old(self)@.push(present_entry(key@, value@, timestamp)));
        op
    }

    /// Logs that `key` was deleted, stamped with the time of the call.
    pub fn log_delete(&mut self, key: &str) -> (op: DiskOp)
        ensures
            final(self).path_view() == old(self).path_view(),
            exists|timestamp: u64|
                {
                    let entry = #[trigger] tombstone(key@, timestamp);
                    &&& final(self)@ == old(self)@.push(entry)
                    &&& op@ == (DiskOpModel::AppendLine {
                        path: old(self).path_view(),
                        line: entry_line(entry),
                    })
                },
    {
        let timestamp = now_millis();
        let op = self.log_delete_at(key, timestamp);
        assert(final(self)@ == old(self)@.push(tombstone(key@, timestamp)));
        op
    }

    /// Empties the log and says how to empty its file.
    pub fn clear(&mut self) -> (op: DiskOp)
        ensures
            final(self)@ == Seq::<EntryModel>::empty(),
            final(self).path_view() == old(self).path_view(),
            op@ == (DiskOpModel::WriteLines {
                path: old(self).path_view(),
                lines: Seq::<Seq<char>>::empty(),
            }),
    {
        self.entries.clear();
        assert(entry_views(self.entries@) =~= Seq::<EntryModel>::empty());
        let lines: Vec<String> = Vec::new();
        assert(crate::text::text_views(lines@) =~= Seq::<Seq<char>>::empty());
        DiskOp::WriteLines { path: self.path.clone(), lines }
    }

    /// Every logged record, in the order of logging.
    pub fn replay(&self) -> (entries: Vec<StorageEntry>)
        ensures
            entry_views(entries@) == self@,
    {
        copy_entries(&self.entries)
    }
}

} // verus!
