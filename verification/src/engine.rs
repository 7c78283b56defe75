use vstd::prelude::*;
use vstd::string::StringExecFns;
use crate::clock::now_millis;
use crate::disk::{join_path, op_views, path_in, DiskOp, DiskOpModel};
use crate::error::ExecError;
use crate::entry::{
    entry_line, entry_views, lemma_records_of, lemma_run_map_empty, lemma_run_map_keyed,
    lemma_run_map_record, present_entry, records_of, run_keys, run_lines, run_map, sorted_run,
    tombstone, EntryModel, StorageEntry, StorageValue, ValueModel,
};
use crate::keys::{ascending, key_seq};
use crate::memtable::MemTable;
use crate::model::{
    lemma_stacked_finite, lemma_stacked_source, marks_of, merged, newest_stamp, removals,
    replayed, replayed_size, run_file, stacked, EngineModel, SSTABLE_FANOUT,
};
use crate::runs::{merge_run, overlay_run};
use crate::sstable::{mark_of, RunMark, SSTable};
use crate::storage_laws::{
    law_compaction_in_step, law_compaction_keeps_bound, law_flush_in_step, law_flush_recoverable,
    law_open_in_step, law_open_recoverable, law_top_write_is_read, law_write_in_step,
    law_write_recoverable, lemma_pushed_keeps_bound, lemma_written_keeps_bound,
};
use crate::text::{pair_views, push_decimal};
use crate::wal::WAL;

verus! {

/// The storage engine of one table: a write buffer, the runs that flushes of
/// it have left, and the log of all writes.
#[derive(Debug)]
pub struct LSMStorage {
    data_dir: String,
    memtable: MemTable,
    sstables: Vec<SSTable>,
    wal: WAL,
    table_prefix: String,
    newest: u64,
}

impl View for LSMStorage {
    type V = EngineModel;

    closed spec fn view(&self) -> EngineModel {
        EngineModel {
            dir: self.data_dir@,
            paths: Seq::new(self.sstables.len() as nat, |i: int| self.sstables[i].path_view()),
            mem: self.memtable@,
            mem_size: self.memtable.byte_size(),
            runs: Seq::new(self.sstables.len() as nat, |i: int| self.sstables[i]@),
            log: self.wal@,
        }
    }
}

impl LSMStorage {
    /// The buffer and the runs are in ascending key order, each run says of
    /// itself what its records are, the log lies in the table's directory,
    /// and no record is stamped later than the newest of the log.
    spec fn sound(&self) -> bool {
        &&& self.memtable.wf()
        &&& forall|i: int| 0 <= i < self.sstables.len() ==> (#[trigger] self.sstables[i]).wf()
        &&& forall|i: int|
            0 <= i < self.sstables.len() ==> (#[trigger] self.sstables[i]).mark() == mark_of(
                self.sstables[i].records(),
            )
        &&& self.wal.path_view() == path_in(self.data_dir@, "wal.log"@)
        &&& self.newest == newest_stamp(self.wal@)
        &&& self@.bounded()
    }

    /// The buffer and the runs are in ascending key order, each run says of
    /// itself what its records are, the runs are no more than the fan-out,
    /// the log lies in the table's directory, and no record is stamped later
    /// than the newest of the log.
    pub closed spec fn wf(&self) -> bool {
        &&& self.sound()
        &&& self.sstables.len() <= SSTABLE_FANOUT
    }

    /// What each run says of itself, from the oldest to the newest.
    pub closed spec fn run_marks(&self) -> Seq<RunMark> {
        Seq::new(self.sstables.len() as nat, |i: int| self.sstables[i].mark())
    }

    /// The runs are no more than the fan-out, each says of itself what its
    /// records are (its least key, its greatest, and the bytes of its file),
    /// and no record is stamped later than the newest of the log.
    pub proof fn lemma_runs(&self)
        requires
            self.wf(),
        ensures
            self@.runs.len() <= SSTABLE_FANOUT,
            self.run_marks() == marks_of(self@.runs),
            self@.bounded(),
    {
        assert forall|i: int| 0 <= i < self.sstables.len() implies self.run_marks()[i] == marks_of(
            self@.runs,
        )[i] by {
            self.sstables[i].lemma_records();
            lemma_records_of(self.sstables[i].records());
        }
        assert(self.run_marks() =~= marks_of(self@.runs));
    }

    /// The table holds finitely many keys: no more than its buffer and its
    /// runs have places.
    pub proof fn lemma_holds_finitely(&self)
        requires
            self.wf(),
        ensures
            self@.current().dom().finite(),
            self@.current().dom().len() <= (SSTABLE_FANOUT + 1) * usize::MAX,
    {
        let runs = self@.runs;
        let bound = usize::MAX as nat;
        assert forall|i: int| 0 <= i < runs.len() implies (#[trigger] runs[i]).dom().finite()
            && runs[i].dom().len() <= bound by {
            self.sstables[i].lemma_finite();
        }
        lemma_stacked_finite(runs, bound);
        self.memtable.lemma_finite();
        assert(self@.current().dom() =~= stacked(runs).dom().union(self@.mem.dom()));
        vstd::set_lib::lemma_len_union(stacked(runs).dom(), self@.mem.dom());
        assert(runs.len() * bound <= SSTABLE_FANOUT * bound) by (nonlinear_arith)
            requires
                runs.len() <= SSTABLE_FANOUT,
        ;
    }

    /// The table's name.
    pub closed spec fn name_view(&self) -> Seq<char> {
        self.table_prefix@
    }

    /// Opens the engine of the table `table_name` under `data_dir`: replays
    /// `logged`, the records read from the table's log, into a fresh buffer.
    /// There are no runs yet.
    pub fn new(data_dir: &str, table_name: &str, logged: Vec<StorageEntry>) -> (engine: Self)
        ensures
            engine.wf(),
            engine@ == EngineModel::opened(path_in(data_dir@, table_name@), entry_views(logged@)),
            engine@.in_step(),
            engine@.recoverable(),
            engine.name_view() == table_name@,
    {
        let table_dir = join_path(data_dir, table_name);
        let mut memtable = MemTable::new();
        let ghost log = entry_views(logged@);
        let mut newest: u64 = 0;
        let mut i: usize = 0;
        assert(log.subrange(0, 0) =~= Seq::<EntryModel>::empty());
        while i < logged.len()
            invariant
                i <= logged.len(),
                log == entry_views(logged@),
                memtable.wf(),
                memtable@ == replayed(log.subrange(0, i as int)),
                memtable.byte_size() == replayed_size(log.subrange(0, i as int)),
                newest == newest_stamp(log.subrange(0, i as int)),
            decreases logged.len() - i,
        {
            let ghost next = log.subrange(0, i + 1);
            assert(next.drop_last() =~= log.subrange(0, i as int));
            assert(next.last() == logged[i as int]@);
            if logged[i].timestamp > newest {
                newest = logged[i].timestamp;
            }
            memtable.put(logged[i].clone());
            i = i + 1;
        }
        assert(log.subrange(0, logged.len() as int) =~= log);
        let wal = WAL::new(table_dir.as_str(), logged);
        let engine = LSMStorage {
            data_dir: table_dir,
            memtable,
            sstables: Vec::new(),
            wal,
            table_prefix: table_name.to_owned(),
            newest,
        };
        proof {
            law_open_in_step(path_in(data_dir@, table_name@), log);
            law_open_recoverable(path_in(data_dir@, table_name@), log);
        }
        assert(engine@.runs =~= Seq::<Map<Seq<char>, EntryModel>>::empty());
        assert(engine@.paths =~= Seq::<Seq<char>>::empty());
        engine
    }

    /// The table's directory.
    pub fn data_dir(&self) -> (dir: &String)
        ensures
            dir@ == self@.dir,
    {
        &self.data_dir
    }

    /// The log of the table.
    pub fn wal(&self) -> (log: &WAL)
        ensures
            log@ == self@.log,
    {
        &self.wal
    }

    /// The run at the place `at`, counted from the oldest.
    pub fn sstable(&self, at: usize) -> (run: &SSTable)
        requires
            self.wf(),
            at < self@.runs.len(),
        ensures
            run.wf(),
            run@ == self@.runs[at as int],
            run.path_view() == self@.paths[at as int],
            run.mark() == mark_of(records_of(self@.runs[at as int])),
    {
        proof {
            self.sstables[at as int].lemma_records();
            lemma_records_of(self.sstables[at as int].records());
        }
        &self.sstables[at]
    }

    /// The number of runs.
    pub fn sstable_count(&self) -> (count: usize)
        ensures
            count == self@.runs.len(),
    {
        self.sstables.len()
    }

    /// What is stored under `key`: the buffer speaks first, a tombstone in it
    /// meaning not found; then the runs from the newest to the oldest, the
    /// first that holds the key deciding.
    pub fn get(&self, key: &str) -> (found: Option<String>)
        requires
            self.wf(),
        ensures
            match found {
                Some(text) => self@.read(key@) == Some(text@),
                None => self@.read(key@) is None,
            },
    {
        let ghost runs = self@.runs;
        match self.memtable.get(key) {
            Some(entry) => {
                return match &entry.value {
                    StorageValue::Present(text) => Some(text.clone()),
                    StorageValue::Deleted => None,
                };
            },
            None => {},
        }
        let mut i: usize = self.sstables.len();
        while i > 0
            invariant
                i <= self.sstables.len(),
                self.wf(),
                runs == self@.runs,
                !self@.mem.contains_key(key@),
                forall|j: int| i <= j < runs.len() ==> !(#[trigger] runs[j]).contains_key(key@),
            decreases i,
        {
            i = i - 1;
            match self.sstables[i].get(key) {
                Some(entry) => {
                    proof {
                        lemma_stacked_source(runs, key@);
                        assert(runs[i as int].contains_key(key@));
                    }
                    return match entry.value {
                        StorageValue::Present(text) => Some(text),
                        StorageValue::Deleted => None,
                    };
                },
                None => {
                    assert(!runs[i as int].contains_key(key@));
                },
            }
        }
        proof {
            lemma_stacked_source(runs, key@);
        }
        None
    }

    /// Whether the table holds a record under `key`, live or deleted, in the
    /// buffer or in a run.
    pub fn holds(&self, key: &str) -> (held: bool)
        requires
            self.wf(),
        ensures
            held == self@.current().contains_key(key@),
    {
        let ghost runs = self@.runs;
        if self.memtable.get(key).is_some() {
            return true;
        }
        let mut i: usize = 0;
        while i < self.sstables.len()
            invariant
                i <= self.sstables.len(),
                self.wf(),
                runs == self@.runs,
                forall|j: int| 0 <= j < i ==> !(#[trigger] runs[j]).contains_key(key@),
            decreases self.sstables.len() - i,
        {
            if self.sstables[i].get(key).is_some() {
                proof {
                    lemma_stacked_source(runs, key@);
                    assert(runs[i as int].contains_key(key@));
                }
                return true;
            }
            assert(!runs[i as int].contains_key(key@));
            i = i + 1;
        }
        proof {
            lemma_stacked_source(runs, key@);
        }
        false
    }

    /// Every live key with its value, in ascending key order: each key as the
    /// buffer or else the newest run that holds it has it, tombstoned keys left
    /// out.
    #[verifier::rlimit(60)]
    pub fn get_all(&self) -> (pairs: Vec<(String, String)>)
        requires
            self.wf(),
        ensures
            ascending(Seq::new(pairs.len() as nat, |i: int| pairs[i].0@)),
            forall|i: int|
                0 <= i < pairs.len() ==> self@.read(#[trigger] pairs[i].0@) == Some(pairs[i].1@),
            forall|key: Seq<char>|
                self@.read(key) is Some ==> exists|i: int|
                    0 <= i < pairs.len() && #[trigger] pairs[i].0@ == key,
            pair_views(pairs@) == self@.visible_pairs(),
    {
        let ghost runs = self@.runs;
        let mut all: Vec<StorageEntry> = Vec::new();
        proof {
            lemma_run_map_empty(entry_views(all@));
            lemma_run_map_keyed(all@);
            assert(runs.subrange(0, 0) =~= Seq::<Map<Seq<char>, EntryModel>>::empty());
        }
        let mut i: usize = 0;
        while i < self.sstables.len()
            invariant
                i <= self.sstables.len(),
                self.wf(),
                runs == self@.runs,
                ascending(key_seq(all@)),
                run_map(entry_views(all@)) == stacked(runs.subrange(0, i as int)),
            decreases self.sstables.len() - i,
        {
            let run = self.sstables[i].read_entries();
            proof {
                self.sstables[i as int].lemma_records();
                lemma_run_map_keyed(run@);
                let next = runs.subrange(0, i + 1);
                assert(next.drop_last() =~= runs.subrange(0, i as int));
                assert(next.last() == runs[i as int]);
            }
            overlay_run(&mut all, &run);
            i = i + 1;
        }
        assert(runs.subrange(0, self.sstables.len() as int) =~= runs);
        proof {
            self.memtable.lemma_ordered();
        }
        overlay_run(&mut all, self.memtable.iter());
        assert(run_map(entry_views(all@)) == self@.current());
        let ghost records = entry_views(all@);
        proof {
            lemma_run_map_keyed(all@);
        }
        let mut pairs: Vec<(String, String)> = Vec::new();
        let mut j: usize = 0;
        while j < all.len()
            invariant
                j <= all.len(),
                records == entry_views(all@),
                sorted_run(records),
                run_map(records) == self@.current(),
                // every pair comes from a live record before `j`, in order
                forall|p: int|
                    0 <= p < pairs.len() ==> exists|q: int|
                        0 <= q < j && records[q].key == (#[trigger] pairs[p]).0@ && records[q].value
                            == ValueModel::Present(pairs[p].1@),
                forall|p: int, r: int|
                    0 <= p < r < pairs.len() ==> crate::text::lex_lt(
                        (#[trigger] pairs[p]).0@,
                        (#[trigger] pairs[r]).0@,
                    ),
                forall|p: int|
                    0 <= p < pairs.len() && j < all.len() ==> crate::text::lex_lt(
                        (#[trigger] pairs[p]).0@,
                        records[j as int].key,
                    ),
                // every live record before `j` has its pair
                forall|q: int|
                    0 <= q < j && (#[trigger] records[q]).value is Present ==> exists|p: int|
                        0 <= p < pairs.len() && (#[trigger] pairs[p]).0@ == records[q].key,
            decreases all.len() - j,
        {
            let ghost before = pairs@;
            assert(records[j as int] == all[j as int]@);
            match &all[j].value {
                StorageValue::Present(text) => {
                    pairs.push((all[j].key.clone(), text.clone()));
                    proof {
                        let last = pairs.len() - 1;
                        assert(pairs[last].0@ == records[j as int].key);
                        assert forall|p: int| 0 <= p < pairs.len() implies exists|q: int|
                            0 <= q < j + 1 && records[q].key == (#[trigger] pairs[p]).0@
                                && records[q].value == ValueModel::Present(pairs[p].1@) by {
                            if p < last {
                                assert(pairs[p] == before[p]);
                                let q = choose|q: int|
                                    0 <= q < j && records[q].key == before[p].0@ && records[q].value
                                        == ValueModel::Present(before[p].1@);
                                assert(0 <= q < j + 1);
                            } else {
                                assert(records[j as int].value == ValueModel::Present(pairs[p].1@));
                            }
                        }
                        assert forall|q: int|
                            0 <= q < j + 1 && (#[trigger] records[q]).value is Present implies exists|
                            p: int,
                        |
                            0 <= p < pairs.len() && (#[trigger] pairs[p]).0@ == records[q].key by {
                            if q < j {
                                let p = choose|p: int|
                                    0 <= p < before.len() && (#[trigger] before[p]).0@ == records[q].key;
                                assert(pairs[p] == before[p]);
                            } else {
                                assert(pairs[last].0@ == records[q].key);
                            }
                        }
                    }
                },
                StorageValue::Deleted => {},
            }
            proof {
                if j + 1 < all.len() {
                    assert(crate::text::lex_lt(
                        run_keys(records)[j as int],
                        run_keys(records)[j + 1],
                    ));
                    assert forall|p: int| 0 <= p < pairs.len() implies crate::text::lex_lt(
                        (#[trigger] pairs[p]).0@,
                        records[j + 1].key,
                    ) by {
                        if p < before.len() {
                            assert(pairs[p] == before[p]);
                            crate::text::lemma_lex_transitive(
                                before[p].0@,
                                records[j as int].key,
                                records[j + 1].key,
                            );
                        }
                    }
                }
            }
            j = j + 1;
        }
        proof {
            let keys = Seq::new(pairs.len() as nat, |i: int| pairs[i].0@);
            assert forall|p: int, r: int| 0 <= p < r < keys.len() implies crate::text::lex_lt(
                #[trigger] keys[p],
                #[trigger] keys[r],
            ) by {
                assert(crate::text::lex_lt(pairs[p].0@, pairs[r].0@));
            }
            assert forall|p: int| 0 <= p < pairs.len() implies self@.read(#[trigger] pairs[p].0@)
                == Some(pairs[p].1@) by {
                let q = choose|q: int|
                    0 <= q < all.len() && records[q].key == pairs[p].0@ && records[q].value
                        == ValueModel::Present(pairs[p].1@);
                lemma_run_map_record(records, q);
            }
            assert forall|key: Seq<char>| self@.read(key) is Some implies exists|p: int|
                0 <= p < pairs.len() && #[trigger] pairs[p].0@ == key by {
                crate::entry::lemma_run_map_key(records, key);
                let q = crate::keys::position(run_keys(records), key);
                lemma_run_map_record(records, q);
                assert(records[q].value is Present);
            }
            assert forall|k: Seq<char>| keys.contains(k) <==> self@.live().dom().contains(k) by {
                if keys.contains(k) {
                    let p = choose|p: int| 0 <= p < keys.len() && keys[p] == k;
                    assert(self@.read(pairs[p].0@) == Some(pairs[p].1@));
                }
                if self@.read(k) is Some {
                    let p = choose|p: int| 0 <= p < pairs.len() && #[trigger] pairs[p].0@ == k;
                    assert(keys[p] == k);
                }
            }
            crate::keys::lemma_sorted_keys(keys, self@.live().dom());
            assert(pair_views(pairs@) =~= self@.visible_pairs()) by {
                assert forall|p: int| 0 <= p < pairs.len() implies pair_views(pairs@)[p]
                    == self@.visible_pairs()[p] by {
                    assert(self@.read(pairs[p].0@) == Some(pairs[p].1@));
                }
            }
        }
        pairs
    }

    /// Merges all runs into one, under each key the record with the greatest
    /// timestamp, a tombstone included; nothing happens while there are fewer
    /// than two runs. The merged run takes the place of the others, whose
    /// files are to be removed.
    pub fn compact(&mut self) -> (ops: Vec<DiskOp>)
        requires
            old(self).wf(),
        ensures
            final(self).wf(),
            final(self)@ == old(self)@.compacted(),
            final(self).name_view() == old(self).name_view(),
            final(self).run_marks() == marks_of(old(self)@.compacted().runs),
            old(self)@.in_step() ==> final(self)@.in_step(),
            old(self)@.recoverable() ==> final(self)@.recoverable(),
            op_views(ops@) == old(self)@.compact_ops(),
    {
        let ops = self.merge_runs();
        proof {
            self.lemma_runs();
            if old(self)@.in_step() {
                law_compaction_in_step(old(self)@);
            }
            if old(self)@.recoverable() {
                law_flush_recoverable(old(self)@);
            }
        }
        ops
    }

    /// Merges all runs into one, whatever their number.
    fn merge_runs(&mut self) -> (ops: Vec<DiskOp>)
        requires
            old(self).sound(),
        ensures
            final(self).sound(),
            old(self).sstables.len() >= 2 ==> final(self).sstables.len() == 1,
            old(self).sstables.len() < 2 ==> final(self).sstables.len() == old(self).sstables.len(),
            final(self)@ == old(self)@.compacted(),
            final(self).name_view() == old(self).name_view(),
            op_views(ops@) == old(self)@.compact_ops(),
    {
        proof {
            law_compaction_keeps_bound(old(self)@);
        }
        let mut ops: Vec<DiskOp> = Vec::new();
        if self.sstables.len() < 2 {
            assert(op_views(ops@) =~= Seq::<DiskOpModel>::empty());
            return ops;
        }
        let ghost runs = self@.runs;
        let ghost paths = self@.paths;
        let mut kept: Vec<StorageEntry> = Vec::new();
        proof {
            lemma_run_map_empty(entry_views(kept@));
            lemma_run_map_keyed(kept@);
            assert(runs.subrange(0, 0) =~= Seq::<Map<Seq<char>, EntryModel>>::empty());
        }
        let mut i: usize = 0;
        while i < self.sstables.len()
            invariant
                i <= self.sstables.len(),
                self.sound(),
                runs == self@.runs,
                ascending(key_seq(kept@)),
                run_map(entry_views(kept@)) == merged(runs.subrange(0, i as int)),
            decreases self.sstables.len() - i,
        {
            let run = self.sstables[i].read_entries();
            proof {
                self.sstables[i as int].lemma_records();
                lemma_run_map_keyed(run@);
                let next = runs.subrange(0, i + 1);
                assert(next.drop_last() =~= runs.subrange(0, i as int));
                assert(next.last() == runs[i as int]);
            }
            merge_run(&mut kept, &run);
            i = i + 1;
        }
        assert(runs.subrange(0, self.sstables.len() as int) =~= runs);
        let target = join_path(self.data_dir.as_str(), "sstable_compacted.log");
        let mut table = SSTable::new(target.clone());
        ops.push(table.write_entries(kept));
        proof {
            table.lemma_records();
            lemma_records_of(table.records());
            assert(table.records() == records_of(merged(runs)));
            assert(op_views(ops@) =~= seq![
                DiskOpModel::WriteLines { path: target@, lines: run_lines(table.records()) },
            ]);
            assert(paths.subrange(0, 0) =~= Seq::<Seq<char>>::empty());
            assert(paths.len() == self.sstables.len());
        }
        let ghost head = op_views(ops@);
        let mut j: usize = 0;
        while j < self.sstables.len()
            invariant
                j <= self.sstables.len(),
                paths == self@.paths,
                op_views(ops@) == head + removals(paths.subrange(0, j as int), target@),
            decreases self.sstables.len() - j,
        {
            let ghost done = op_views(ops@);
            let ghost next = paths.subrange(0, j + 1);
            assert(next.drop_last() =~= paths.subrange(0, j as int));
            assert(next.last() == self.sstables[j as int].path_view());
            if !crate::text::string_same(self.sstables[j].path(), &target) {
                ops.push(DiskOp::RemoveFile { path: self.sstables[j].path().clone() });
                assert(op_views(ops@) =~= done.push(
                    DiskOpModel::RemoveFile { path: self.sstables[j as int].path_view() },
                ));
            }
            j = j + 1;
        }
        assert(paths.subrange(0, self.sstables.len() as int) =~= paths);
        let mut merged_runs: Vec<SSTable> = Vec::new();
        merged_runs.push(table);
        self.sstables = merged_runs;
        proof {
            assert(self@.runs =~= seq![merged(runs)]);
            assert(self@.paths =~= seq![target@]);
        }
        ops
    }

    /// Turns the write buffer into the newest run and empties it; nothing
    /// happens while the buffer is empty. The log is left as it is. Where the
    /// runs are then more than the fan-out, they are compacted.
    pub fn flush(&mut self) -> (ops: Vec<DiskOp>)
        requires
            old(self).wf(),
        ensures
            final(self).wf(),
            final(self)@ == old(self)@.flushed(),
            final(self).name_view() == old(self).name_view(),
            final(self).run_marks() == marks_of(old(self)@.flushed().runs),
            old(self)@.in_step() ==> final(self)@.in_step(),
            old(self)@.recoverable() ==> final(self)@.recoverable(),
            op_views(ops@) == old(self)@.flush_ops(),
    {
        proof {
            if old(self)@.in_step() {
                law_flush_in_step(old(self)@);
            }
            if old(self)@.recoverable() {
                law_flush_recoverable(old(self)@);
            }
        }
        let mut ops: Vec<DiskOp> = Vec::new();
        proof {
            self.memtable.lemma_ordered();
            lemma_run_map_empty(self.memtable.ordered());
            lemma_records_of(self.memtable.ordered());
        }
        if self.memtable.is_empty() {
            assert(op_views(ops@) =~= Seq::<DiskOpModel>::empty());
            proof {
                self.lemma_runs();
            }
            return ops;
        }
        let ghost before = *self;
        let ghost paths = self@.paths;
        let mut name = String::new();
        name.append("sstable_");
        let count: usize = self.sstables.len();
        push_decimal(&mut name, count as u64);
        name.append(".log");
        assert(name@ =~= run_file(paths.len()));
        let file = join_path(self.data_dir.as_str(), name.as_str());
        let mut table = SSTable::new(file);
        ops.push(table.write_from_memtable(&self.memtable));
        self.sstables.push(table);
        self.memtable.clear();
        let ghost pushed = *self;
        proof {
            assert(pushed@.runs =~= before@.runs.push(before@.mem));
            assert(pushed@.paths =~= paths.push(before@.next_path()));
            assert(pushed@ == before@.pushed());
            lemma_pushed_keeps_bound(before@);
            assert(op_views(ops@) =~= seq![
                DiskOpModel::WriteLines {
                    path: before@.next_path(),
                    lines: run_lines(before.memtable.ordered()),
                },
            ]);
            assert forall|i: int| 0 <= i < self.sstables.len() implies (#[trigger] self.sstables[i]).wf()
                && self.sstables[i].mark() == mark_of(self.sstables[i].records()) by {
                if i < count {
                    assert(self.sstables[i] == before.sstables[i]);
                }
            }
        }
        if self.sstables.len() > SSTABLE_FANOUT {
            let ghost head = op_views(ops@);
            let mut more = self.merge_runs();
            let ghost tail = op_views(more@);
            ops.append(&mut more);
            assert(op_views(ops@) =~= head + tail);
        }
        proof {
            self.lemma_runs();
        }
        ops
    }

    /// Closes the engine: what the buffer still holds is flushed.
    pub fn close(&mut self) -> (ops: Vec<DiskOp>)
        requires
            old(self).wf(),
        ensures
            final(self).wf(),
            final(self)@ == old(self)@.flushed(),
            final(self).name_view() == old(self).name_view(),
            old(self)@.in_step() ==> final(self)@.in_step(),
            old(self)@.recoverable() ==> final(self)@.recoverable(),
            op_views(ops@) == old(self)@.flush_ops(),
    {
        self.flush()
    }

    /// One write: `entry` is logged, then put into the buffer, and the buffer
    /// is flushed at once where that fills it. The first thing to do on disk
    /// is to append the record to the log; what a flush asks for follows.
    ///
    /// The timestamp is taken as it is given. One that lies before the newest
    /// of the log leaves the table out of step: a reader finds the record
    /// until a compaction merges it with a run that holds the key under a
    /// greater timestamp, which then speaks again. The writes that read the
    /// clock, `insert` and `delete`, never stamp below the newest of the log.
    pub fn apply(&mut self, entry: StorageEntry) -> (ops: Vec<DiskOp>)
        requires
            old(self).wf(),
        ensures
            final(self).wf(),
            final(self)@ == old(self)@.applied(entry@),
            final(self).name_view() == old(self).name_view(),
            old(self)@.in_step() && old(self)@.newest() <= entry.timestamp ==> final(self)@.in_step(),
            old(self)@.recoverable() && old(self)@.newest() <= entry.timestamp
                ==> final(self)@.recoverable(),
            op_views(ops@) == old(self)@.apply_ops(entry@),
    {
        proof {
            if old(self)@.in_step() && old(self)@.newest() <= entry.timestamp {
                law_write_in_step(old(self)@, entry@);
            }
            if old(self)@.recoverable() && old(self)@.newest() <= entry.timestamp {
                law_write_recoverable(old(self)@, entry@);
            }
        }
        let mut ops: Vec<DiskOp> = Vec::new();
        let ghost before = *self;
        ops.push(self.wal.append(entry.clone()));
        if entry.timestamp > self.newest {
            self.newest = entry.timestamp;
        }
        assert(self.wal@.drop_last() =~= before.wal@);
        self.memtable.put(entry);
        assert(self@.runs =~= before@.runs);
        assert(self@.paths =~= before@.paths);
        assert(self@ == before@.written(entry@));
        proof {
            lemma_written_keeps_bound(before@, entry@);
        }
        let ghost head = op_views(ops@);
        assert(head =~= seq![
            DiskOpModel::AppendLine { path: before@.log_path(), line: entry_line(entry@) },
        ]);
        if self.memtable.is_full() {
            let mut more = self.flush();
            let ghost tail = op_views(more@);
            ops.append(&mut more);
            assert(op_views(ops@) =~= head + tail);
        }
        ops
    }

    /// The append that makes `entry` durable: the first thing that a write
    /// asks of the disk. The table is left as it is; what became of the
    /// append is handed to `commit`.
    pub fn log_op(&self, entry: &StorageEntry) -> (op: DiskOp)
        requires
            self.wf(),
        ensures
            op@ == self@.log_op(entry@),
    {
        DiskOp::AppendLine { path: self.wal.path().clone(), line: entry.to_line() }
    }

    /// Takes up what became of the append of `entry` to the log. Where the
    /// append failed, the table stays exactly as it was, the buffer
    /// included, and the failure is handed back as an error. Where the record
    /// is in the log, the write is applied, and what is left to do on disk is
    /// handed back: what a flush asks for where the write fills the buffer.
    pub fn commit(&mut self, entry: StorageEntry, appended: Result<(), String>) -> (outcome: Result<
        Vec<DiskOp>,
        ExecError,
    >)
        requires
            old(self).wf(),
        ensures
            final(self).wf(),
            final(self).name_view() == old(self).name_view(),
            match appended {
                Err(why) => *final(self) == *old(self) && outcome == Err::<Vec<DiskOp>, ExecError>(
                    ExecError::IOError(why),
                ),
                Ok(_) => final(self)@ == old(self)@.applied(entry@) && outcome is Ok && op_views(
                    outcome->Ok_0@,
                ) == old(self)@.settle_ops(entry@),
            },
            old(self)@.in_step() && old(self)@.newest() <= entry.timestamp ==> final(self)@.in_step(),
            old(self)@.recoverable() && old(self)@.newest() <= entry.timestamp
                ==> final(self)@.recoverable(),
    {
        match appended {
            Err(why) => Err(ExecError::IOError(why)),
            Ok(_) => {
                let mut ops = self.apply(entry);
                let ghost all = op_views(ops@);
                assert(all.len() >= 1 && all.len() == ops.len());
                let _ = ops.remove(0);
                assert(op_views(ops@) =~= all.subrange(1, all.len() as int));
                assert(op_views(ops@) =~= old(self)@.settle_ops(entry@));
                Ok(ops)
            },
        }
    }

    /// Stores `value` under `key` as of `timestamp`, which is taken as it is
    /// given: one that lies before the newest of the log leaves the table out
    /// of step, as `apply` says.
    pub fn insert_at(&mut self, key: String, value: String, timestamp: u64) -> (ops: Vec<DiskOp>)
        requires
            old(self).wf(),
        ensures
            final(self).wf(),
            final(self)@ == old(self)@.applied(present_entry(key@, value@, timestamp)),
            final(self).name_view() == old(self).name_view(),
            old(self)@.in_step() && old(self)@.newest() <= timestamp ==> final(self)@.in_step(),
            old(self)@.recoverable() && old(self)@.newest() <= timestamp ==> final(self)@.recoverable(),
            op_views(ops@) == old(self)@.apply_ops(present_entry(key@, value@, timestamp)),
    {
        self.apply(StorageEntry::present(key, value, timestamp))
    }

    /// Deletes `key` as of `timestamp`, which is taken as it is given: one
    /// that lies before the newest of the log leaves the table out of step, as
    /// `apply` says.
    pub fn delete_at(&mut self, key: String, timestamp: u64) -> (ops: Vec<DiskOp>)
        requires
            old(self).wf(),
        ensures
            final(self).wf(),
            final(self)@ == old(self)@.applied(tombstone(key@, timestamp)),
            final(self).name_view() == old(self).name_view(),
            old(self)@.in_step() && old(self)@.newest() <= timestamp ==> final(self)@.in_step(),
            old(self)@.recoverable() && old(self)@.newest() <= timestamp ==> final(self)@.recoverable(),
            op_views(ops@) == old(self)@.apply_ops(tombstone(key@, timestamp)),
    {
        self.apply(StorageEntry::deleted(key, timestamp))
    }

    /// The timestamp of a write made while the clock shows `clock`: that
    /// time, but never less than the greatest timestamp that the table has
    /// logged.
    pub fn stamp(&self, clock: u64) -> (timestamp: u64)
        requires
            self.wf(),
        ensures
            timestamp == self@.stamp(clock),
            self@.newest() <= timestamp,
    {
        if clock > self.newest {
            clock
        } else {
            self.newest
        }
    }

    /// The timestamp of a write made now.
    fn stamp_now(&self) -> (timestamp: u64)
        requires
            self.wf(),
        ensures
            exists|clock: u64| timestamp == #[trigger] self@.stamp(clock),
            self@.newest() <= timestamp,
    {
        let clock = now_millis();
        self.stamp(clock)
    }

    /// Stores `value` under `key`, stamped with the time of the call, or with
    /// the greatest timestamp of the log where the clock is behind it. A
    /// reader then finds `value`: the record carries the greatest timestamp
    /// of all that the table holds under `key`.
    pub fn insert(&mut self, key: String, value: String) -> (ops: Vec<DiskOp>)
        requires
            old(self).wf(),
        ensures
            final(self).wf(),
            final(self).name_view() == old(self).name_view(),
            exists|clock: u64|
                {
                    let entry = present_entry(key@, value@, #[trigger] old(self)@.stamp(clock));
                    &&& final(self)@ == old(self)@.applied(entry)
                    &&& op_views(ops@) == old(self)@.apply_ops(entry)
                },
            final(self)@.read(key@) == Some(value@),
            final(self)@.crowned(key@),
            old(self)@.in_step() ==> final(self)@.in_step(),
            old(self)@.recoverable() ==> final(self)@.recoverable(),
    {
        let timestamp = self.stamp_now();
        proof {
            law_top_write_is_read(self@, present_entry(key@, value@, timestamp));
            if self@.in_step() {
                law_write_in_step(self@, present_entry(key@, value@, timestamp));
            }
            if self@.recoverable() {
                law_write_recoverable(self@, present_entry(key@, value@, timestamp));
            }
        }
        let ops = self.insert_at(key, value, timestamp);
        assert(self@ == old(self)@.applied(present_entry(key@, value@, timestamp)));
        ops
    }

    /// Deletes `key`, stamped with the time of the call, or with the greatest
    /// timestamp of the log where the clock is behind it. A reader then
    /// finds nothing under `key`: the tombstone carries the greatest
    /// timestamp of all that the table holds under `key`.
    pub fn delete(&mut self, key: String) -> (ops: Vec<DiskOp>)
        requires
            old(self).wf(),
        ensures
            final(self).wf(),
            final(self).name_view() == old(self).name_view(),
            exists|clock: u64|
                {
                    let entry = tombstone(key@, #[trigger] old(self)@.stamp(clock));
                    &&& final(self)@ == old(self)@.applied(entry)
                    &&& op_views(ops@) == old(self)@.apply_ops(entry)
                },
            final(self)@.read(key@) is None,
            final(self)@.crowned(key@),
            old(self)@.in_step() ==> final(self)@.in_step(),
            old(self)@.recoverable() ==> final(self)@.recoverable(),
    {
        let timestamp = self.stamp_now();
        proof {
            law_top_write_is_read(self@, tombstone(key@, timestamp));
            if self@.in_step() {
                law_write_in_step(self@, tombstone(key@, timestamp));
            }
            if self@.recoverable() {
                law_write_recoverable(self@, tombstone(key@, timestamp));
            }
        }
        let ops = self.delete_at(key, timestamp);
        assert(self@ == old(self)@.applied(tombstone(key@, timestamp)));
        ops
    }
}

} // verus!
