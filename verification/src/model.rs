use vstd::prelude::*;
use crate::disk::{path_in, DiskOpModel};
use crate::entry::{entry_line, records_of, run_lines, EntryModel};
use crate::keys::sorted_keys;
use crate::memtable::{grown, MEMTABLE_SIZE_LIMIT};
use crate::sstable::{mark_of, RunMark};
use crate::text::decimal;

verus! {

/// The most runs that a table keeps before it merges them into one.
pub const SSTABLE_FANOUT: usize = 3;

/// The runs laid over one another, a later run hiding what an earlier one
/// holds under the same key.
pub open spec fn stacked(runs: Seq<Map<Seq<char>, EntryModel>>) -> Map<Seq<char>, EntryModel>
    decreases runs.len(),
{
    if runs.len() == 0 {
        Map::empty()
    } else {
        stacked(runs.drop_last()).union_prefer_right(runs.last())
    }
}

/// Of two runs the record with the greater timestamp under each key; the
/// record of the later run where the timestamps are equal.
pub open spec fn newer_of(
    earlier: Map<Seq<char>, EntryModel>,
    later: Map<Seq<char>, EntryModel>,
) -> Map<Seq<char>, EntryModel> {
    Map::new(
        |k: Seq<char>| earlier.contains_key(k) || later.contains_key(k),
        |k: Seq<char>|
            if later.contains_key(k) && (!earlier.contains_key(k) || later[k].timestamp
                >= earlier[k].timestamp) {
                later[k]
            } else {
                earlier[k]
            },
    )
}

/// The runs merged into one: under each key the record with the greatest
/// timestamp, and of several such the one of the latest run.
pub open spec fn merged(runs: Seq<Map<Seq<char>, EntryModel>>) -> Map<Seq<char>, EntryModel>
    decreases runs.len(),
{
    if runs.len() == 0 {
        Map::empty()
    } else {
        newer_of(merged(runs.drop_last()), runs.last())
    }
}

/// The buffer that replaying `log` from its start leaves: under each key the
/// record that was logged last.
pub open spec fn replayed(log: Seq<EntryModel>) -> Map<Seq<char>, EntryModel>
    decreases log.len(),
{
    if log.len() == 0 {
        Map::empty()
    } else {
        replayed(log.drop_last()).insert(log.last().key, log.last())
    }
}

/// The bytes that a buffer counts after replaying `log` from its start.
pub open spec fn replayed_size(log: Seq<EntryModel>) -> nat
    decreases log.len(),
{
    if log.len() == 0 {
        0
    } else {
        grown(replayed_size(log.drop_last()), log.last().weight())
    }
}

/// The greatest timestamp in `log`; zero where the log is empty.
pub open spec fn newest_stamp(log: Seq<EntryModel>) -> u64
    decreases log.len(),
{
    if log.len() == 0 {
        0
    } else if log.last().timestamp > newest_stamp(log.drop_last()) {
        log.last().timestamp
    } else {
        newest_stamp(log.drop_last())
    }
}

/// Under no key does an earlier run hold a greater timestamp than a later one.
pub open spec fn in_time_order(runs: Seq<Map<Seq<char>, EntryModel>>) -> bool {
    forall|i: int, j: int, k: Seq<char>|
        0 <= i < j < runs.len() && #[trigger] runs[i].contains_key(k) && #[trigger] runs[j].contains_key(k)
            ==> runs[i][k].timestamp <= runs[j][k].timestamp
}

/// The name of the file of the run that is flushed while `n` runs exist.
pub open spec fn run_file(n: nat) -> Seq<char> {
    "sstable_"@ + decimal(n) + ".log"@
}

/// The name of the file of the run that a compaction leaves.
pub open spec fn compacted_file() -> Seq<char> {
    "sstable_compacted.log"@
}

/// The removal of each file of `paths` but `keep`, in order.
pub open spec fn removals(paths: Seq<Seq<char>>, keep: Seq<char>) -> Seq<DiskOpModel>
    decreases paths.len(),
{
    if paths.len() == 0 {
        Seq::empty()
    } else if paths.last() == keep {
        removals(paths.drop_last(), keep)
    } else {
        removals(paths.drop_last(), keep).push(DiskOpModel::RemoveFile { path: paths.last() })
    }
}

/// Runs that each hold at most `bound` keys hold together at most `bound`
/// keys for each run.
pub proof fn lemma_stacked_finite(runs: Seq<Map<Seq<char>, EntryModel>>, bound: nat)
    requires
        forall|i: int|
            0 <= i < runs.len() ==> (#[trigger] runs[i]).dom().finite() && runs[i].dom().len()
                <= bound,
    ensures
        stacked(runs).dom().finite(),
        stacked(runs).dom().len() <= runs.len() * bound,
    decreases runs.len(),
{
    if runs.len() == 0 {
        assert(stacked(runs).dom() =~= Set::<Seq<char>>::empty());
    } else {
        let init = runs.drop_last();
        assert forall|i: int| 0 <= i < init.len() implies (#[trigger] init[i]).dom().finite()
            && init[i].dom().len() <= bound by {
            assert(init[i] == runs[i]);
        }
        lemma_stacked_finite(init, bound);
        assert(runs.last() == runs[runs.len() - 1]);
        assert(stacked(runs).dom() =~= stacked(init).dom().union(runs.last().dom()));
        vstd::set_lib::lemma_len_union(stacked(init).dom(), runs.last().dom());
        assert(runs.len() * bound == init.len() * bound + bound) by (nonlinear_arith)
            requires
                runs.len() == init.len() + 1,
        ;
    }
}

/// What each of `runs` says of itself: the least key, the greatest key and
/// the bytes of its file.
pub open spec fn marks_of(runs: Seq<Map<Seq<char>, EntryModel>>) -> Seq<RunMark> {
    Seq::new(runs.len(), |i: int| mark_of(records_of(runs[i])))
}

/// The state of one table's storage engine.
pub struct EngineModel {
    /// The table's directory.
    pub dir: Seq<char>,
    /// The files of the runs, from the oldest to the newest.
    pub paths: Seq<Seq<char>>,
    /// The write buffer.
    pub mem: Map<Seq<char>, EntryModel>,
    /// The bytes that the write buffer has counted.
    pub mem_size: nat,
    /// The runs, from the oldest to the newest.
    pub runs: Seq<Map<Seq<char>, EntryModel>>,
    /// The write-ahead log.
    pub log: Seq<EntryModel>,
}

impl EngineModel {
    /// The runs with the write buffer behind them as the newest.
    pub open spec fn layers(self) -> Seq<Map<Seq<char>, EntryModel>> {
        self.runs.push(self.mem)
    }

    /// The record that speaks for each key: that of the write buffer, else that
    /// of the newest run that holds the key.
    pub open spec fn current(self) -> Map<Seq<char>, EntryModel> {
        stacked(self.runs).union_prefer_right(self.mem)
    }

    /// What a reader gets for `key`.
    pub open spec fn read(self, key: Seq<char>) -> Option<Seq<char>> {
        if self.current().contains_key(key) {
            self.current()[key].value.visible()
        } else {
            None
        }
    }

    /// The live keys with their values: what a reader finds.
    pub open spec fn live(self) -> Map<Seq<char>, Seq<char>> {
        Map::new(|key: Seq<char>| self.read(key) is Some, |key: Seq<char>| self.read(key)->Some_0)
    }

    /// Every live key with its value, by ascending key.
    pub open spec fn visible_pairs(self) -> Seq<(Seq<char>, Seq<char>)> {
        let keys = sorted_keys(self.live().dom());
        Seq::new(keys.len(), |i: int| (keys[i], self.live()[keys[i]]))
    }

    /// Timestamps never fall from an older layer to a newer one.
    pub open spec fn time_ordered(self) -> bool {
        in_time_order(self.layers())
    }

    /// No record under `key` is stamped later than `timestamp`.
    pub open spec fn stamped_up_to(self, key: Seq<char>, timestamp: u64) -> bool {
        forall|i: int|
            0 <= i < self.layers().len() && (#[trigger] self.layers()[i]).contains_key(key)
                ==> self.layers()[i][key].timestamp <= timestamp
    }

    /// The greatest timestamp that the table has logged.
    pub open spec fn newest(self) -> u64 {
        newest_stamp(self.log)
    }

    /// The timestamp of a write made while the clock shows `clock`: the
    /// clock's time, but never less than the greatest timestamp logged so far.
    pub open spec fn stamp(self, clock: u64) -> u64 {
        if clock > self.newest() {
            clock
        } else {
            self.newest()
        }
    }

    /// `entry` as the table takes it in while the clock shows the entry's
    /// time: stamped with that time, but never below the newest of the log.
    pub open spec fn stamped(self, entry: EntryModel) -> EntryModel {
        EntryModel { timestamp: self.stamp(entry.timestamp), ..entry }
    }

    /// No record of the table is stamped later than the newest in its log.
    pub open spec fn bounded(self) -> bool {
        forall|key: Seq<char>| self.stamped_up_to(key, self.newest())
    }

    /// The record that a reader finds under `key` carries the greatest
    /// timestamp of all that the table holds under it.
    pub open spec fn crowned(self, key: Seq<char>) -> bool {
        &&& self.current().contains_key(key)
        &&& self.stamped_up_to(key, self.current()[key].timestamp)
    }

    /// The table's timestamps are in step: none falls from an older layer to
    /// a newer one, and no record is stamped later than the newest in the log.
    pub open spec fn in_step(self) -> bool {
        &&& self.time_ordered()
        &&& self.bounded()
    }

    /// The table can be had again from its log: its timestamps are in step,
    /// and a reader finds what a replay of the log leaves.
    pub open spec fn recoverable(self) -> bool {
        &&& self.in_step()
        &&& self.current() == replayed(self.log)
    }

    /// The engine that opening the table in the directory `dir` with the log
    /// `log` gives: the log replayed into the buffer, and no runs.
    pub open spec fn opened(dir: Seq<char>, log: Seq<EntryModel>) -> EngineModel {
        EngineModel {
            dir,
            paths: Seq::empty(),
            mem: replayed(log),
            mem_size: replayed_size(log),
            runs: Seq::empty(),
            log,
        }
    }

    /// The file of the run that a compaction leaves.
    pub open spec fn compacted_path(self) -> Seq<char> {
        path_in(self.dir, compacted_file())
    }

    /// The file of the run that the next flush writes.
    pub open spec fn next_path(self) -> Seq<char> {
        path_in(self.dir, run_file(self.runs.len()))
    }

    /// The file of the log.
    pub open spec fn log_path(self) -> Seq<char> {
        path_in(self.dir, "wal.log"@)
    }

    /// All runs merged into one, kept in the compacted file; nothing changes
    /// while there are fewer than two.
    pub open spec fn compacted(self) -> EngineModel {
        if self.runs.len() < 2 {
            self
        } else {
            EngineModel { runs: seq![merged(self.runs)], paths: seq![self.compacted_path()], ..self }
        }
    }

    /// What a compaction does on disk: it writes the merged run, then removes
    /// the files of the runs that went into it.
    pub open spec fn compact_ops(self) -> Seq<DiskOpModel> {
        if self.runs.len() < 2 {
            Seq::empty()
        } else {
            seq![
                DiskOpModel::WriteLines {
                    path: self.compacted_path(),
                    lines: run_lines(records_of(merged(self.runs))),
                },
            ] + removals(self.paths, self.compacted_path())
        }
    }

    /// The write buffer turned into the newest run and emptied.
    pub open spec fn pushed(self) -> EngineModel {
        EngineModel {
            mem: Map::empty(),
            mem_size: 0,
            runs: self.runs.push(self.mem),
            paths: self.paths.push(self.next_path()),
            ..self
        }
    }

    /// The write buffer turned into the newest run and emptied, and the runs
    /// merged where they are now more than the fan-out; nothing changes while
    /// the buffer is empty.
    pub open spec fn flushed(self) -> EngineModel {
        if self.mem == Map::<Seq<char>, EntryModel>::empty() {
            self
        } else if self.pushed().runs.len() > SSTABLE_FANOUT {
            self.pushed().compacted()
        } else {
            self.pushed()
        }
    }

    /// What a flush does on disk: it writes the buffer as the next run, one
    /// line for each record in ascending key order, and compacts where that
    /// makes more runs than the fan-out.
    pub open spec fn flush_ops(self) -> Seq<DiskOpModel> {
        if self.mem == Map::<Seq<char>, EntryModel>::empty() {
            Seq::empty()
        } else {
            let write = seq![
                DiskOpModel::WriteLines {
                    path: self.next_path(),
                    lines: run_lines(records_of(self.mem)),
                },
            ];
            if self.pushed().runs.len() > SSTABLE_FANOUT {
                write + self.pushed().compact_ops()
            } else {
                write
            }
        }
    }

    /// A write before any flush: logged, then put into the buffer.
    pub open spec fn written(self, entry: EntryModel) -> EngineModel {
        EngineModel {
            mem: self.mem.insert(entry.key, entry),
            mem_size: grown(self.mem_size, entry.weight()),
            log: self.log.push(entry),
            ..self
        }
    }

    /// Whether writing `entry` fills the buffer.
    pub open spec fn fills(self, entry: EntryModel) -> bool {
        self.written(entry).mem_size >= MEMTABLE_SIZE_LIMIT
    }

    /// One write: logged, then put into the buffer, which is flushed at once
    /// where that fills it.
    pub open spec fn applied(self, entry: EntryModel) -> EngineModel {
        if self.fills(entry) {
            self.written(entry).flushed()
        } else {
            self.written(entry)
        }
    }

    /// The append that makes `entry` durable.
    pub open spec fn log_op(self, entry: EntryModel) -> DiskOpModel {
        DiskOpModel::AppendLine { path: self.log_path(), line: entry_line(entry) }
    }

    /// What a write asks of the disk once its record is in the log: where the
    /// write fills the buffer, what the flush does; else nothing.
    pub open spec fn settle_ops(self, entry: EntryModel) -> Seq<DiskOpModel> {
        if self.fills(entry) {
            self.written(entry).flush_ops()
        } else {
            Seq::empty()
        }
    }

    /// What one write does on disk: the record is appended to the log; where
    /// the write fills the buffer, what the flush does follows.
    pub open spec fn apply_ops(self, entry: EntryModel) -> Seq<DiskOpModel> {
        let logged = seq![
            DiskOpModel::AppendLine { path: self.log_path(), line: entry_line(entry) },
        ];
        if self.fills(entry) {
            logged + self.written(entry).flush_ops()
        } else {
            logged
        }
    }
}

/// What `stacked` holds under a key is what the newest run with that key holds.
pub proof fn lemma_stacked_source(runs: Seq<Map<Seq<char>, EntryModel>>, key: Seq<char>)
    ensures
        stacked(runs).contains_key(key) <==> exists|i: int|
            0 <= i < runs.len() && (#[trigger] runs[i]).contains_key(key),
        stacked(runs).contains_key(key) ==> exists|i: int|
            {
                &&& 0 <= i < runs.len()
                &&& (#[trigger] runs[i]).contains_key(key)
                &&& stacked(runs)[key] == runs[i][key]
                &&& forall|j: int| i < j < runs.len() ==> !(#[trigger] runs[j]).contains_key(key)
            },
    decreases runs.len(),
{
    if runs.len() > 0 {
        let init = runs.drop_last();
        let n = runs.len() - 1;
        lemma_stacked_source(init, key);
        if runs.last().contains_key(key) {
            assert(runs[n].contains_key(key));
        } else if stacked(init).contains_key(key) {
            let i = choose|i: int|
                {
                    &&& 0 <= i < init.len()
                    &&& (#[trigger] init[i]).contains_key(key)
                    &&& stacked(init)[key] == init[i][key]
                    &&& forall|j: int| i < j < init.len() ==> !(#[trigger] init[j]).contains_key(key)
                };
            assert(runs[i] == init[i]);
            assert forall|j: int| i < j < runs.len() implies !(#[trigger] runs[j]).contains_key(key) by {
                if j < n {
                    assert(runs[j] == init[j]);
                }
            }
        } else {
            assert forall|i: int| 0 <= i < runs.len() implies !(#[trigger] runs[i]).contains_key(key) by {
                if i < n {
                    assert(runs[i] == init[i]);
                }
            }
        }
        if stacked(runs).contains_key(key) && !runs.last().contains_key(key) {
            assert(stacked(init).contains_key(key));
        }
        if exists|i: int| 0 <= i < runs.len() && (#[trigger] runs[i]).contains_key(key) {
            let i = choose|i: int| 0 <= i < runs.len() && (#[trigger] runs[i]).contains_key(key);
            if i < n {
                assert(init[i] == runs[i]);
            }
        }
    }
}

/// Merging keeps, under each key, a record of one of the runs, and none of
/// the runs holds a later timestamp under that key.
pub proof fn lemma_merged_greatest(runs: Seq<Map<Seq<char>, EntryModel>>, key: Seq<char>)
    ensures
        merged(runs).contains_key(key) <==> exists|i: int|
            0 <= i < runs.len() && (#[trigger] runs[i]).contains_key(key),
        merged(runs).contains_key(key) ==> exists|i: int|
            0 <= i < runs.len() && (#[trigger] runs[i]).contains_key(key) && merged(runs)[key]
                == runs[i][key],
        forall|i: int|
            0 <= i < runs.len() && (#[trigger] runs[i]).contains_key(key) ==> runs[i][key].timestamp
                <= merged(runs)[key].timestamp,
    decreases runs.len(),
{
    if runs.len() > 0 {
        let init = runs.drop_last();
        let n = runs.len() - 1;
        lemma_merged_greatest(init, key);
        let kept = merged(runs);
        if kept.contains_key(key) {
            if runs.last().contains_key(key) && kept[key] == runs.last()[key] {
                assert(runs[n].contains_key(key));
            } else {
                let i = choose|i: int|
                    0 <= i < init.len() && (#[trigger] init[i]).contains_key(key) && merged(init)[key]
                        == init[i][key];
                assert(runs[i] == init[i]);
            }
        }
        if exists|i: int| 0 <= i < runs.len() && (#[trigger] runs[i]).contains_key(key) {
            let i = choose|i: int| 0 <= i < runs.len() && (#[trigger] runs[i]).contains_key(key);
            if i < n {
                assert(init[i] == runs[i]);
            }
        }
        assert forall|i: int|
            0 <= i < runs.len() && (#[trigger] runs[i]).contains_key(key) implies runs[i][key].timestamp
            <= kept[key].timestamp by {
            if i < n {
                assert(init[i] == runs[i]);
            }
        }
    }
}

/// Where timestamps never fall from an older run to a newer one, merging by
/// timestamp keeps exactly what a reader saw.
pub proof fn lemma_merged_is_stacked(runs: Seq<Map<Seq<char>, EntryModel>>)
    requires
        in_time_order(runs),
    ensures
        merged(runs) == stacked(runs),
    decreases runs.len(),
{
    if runs.len() > 0 {
        let init = runs.drop_last();
        assert(in_time_order(init)) by {
            assert forall|i: int, j: int, k: Seq<char>|
                0 <= i < j < init.len() && #[trigger] init[i].contains_key(k)
                    && #[trigger] init[j].contains_key(k) implies init[i][k].timestamp
                <= init[j][k].timestamp by {
                assert(runs[i] == init[i] && runs[j] == init[j]);
            }
        }
        lemma_merged_is_stacked(init);
        let last = runs.last();
        let n = runs.len() - 1;
        assert forall|k: Seq<char>| merged(runs).contains_key(k) implies merged(runs)[k] == stacked(
            runs,
        )[k] by {
            if last.contains_key(k) && stacked(init).contains_key(k) {
                lemma_stacked_source(init, k);
                let i = choose|i: int|
                    {
                        &&& 0 <= i < init.len()
                        &&& (#[trigger] init[i]).contains_key(k)
                        &&& stacked(init)[k] == init[i][k]
                        &&& forall|j: int| i < j < init.len() ==> !(#[trigger] init[j]).contains_key(k)
                    };
                assert(runs[i] == init[i]);
                assert(runs[i].contains_key(k) && runs[n].contains_key(k));
            }
        }
        assert(merged(runs) =~= stacked(runs));
    }
}

} // verus!
