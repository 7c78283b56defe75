use vstd::prelude::*;
use crate::entry::{present_entry, tombstone, EntryModel, ValueModel};
use crate::model::{
    in_time_order, lemma_merged_greatest, lemma_merged_is_stacked, merged, newest_stamp, replayed,
    stacked, EngineModel,
};

verus! {

/// The older runs of runs in time order are in time order.
pub proof fn lemma_time_order_prefix(runs: Seq<Map<Seq<char>, EntryModel>>, n: int)
    requires
        in_time_order(runs),
        0 <= n <= runs.len(),
    ensures
        in_time_order(runs.subrange(0, n)),
{
    let part = runs.subrange(0, n);
    assert forall|i: int, j: int, k: Seq<char>|
        0 <= i < j < part.len() && #[trigger] part[i].contains_key(k) && #[trigger] part[j].contains_key(
            k,
        ) implies part[i][k].timestamp <= part[j][k].timestamp by {
        assert(runs[i] == part[i] && runs[j] == part[j]);
    }
}

/// What a reader sees is the layers laid over one another.
pub proof fn lemma_current_is_stacked_layers(m: EngineModel)
    ensures
        m.current() == stacked(m.layers()),
{
    assert(m.layers().drop_last() =~= m.runs);
}

/// Compaction keeps the greatest timestamp: under every key that any run
/// holds, the one run that is left holds a record of one of the runs, and no
/// run held a later timestamp under that key.
pub proof fn law_compaction_keeps_greatest(m: EngineModel, key: Seq<char>)
    requires
        m.runs.len() >= 2,
    ensures
        m.compacted().runs.len() == 1,
        m.compacted().mem == m.mem,
        m.compacted().log == m.log,
        m.compacted().runs[0].contains_key(key) <==> exists|i: int|
            0 <= i < m.runs.len() && (#[trigger] m.runs[i]).contains_key(key),
        m.compacted().runs[0].contains_key(key) ==> exists|i: int|
            0 <= i < m.runs.len() && (#[trigger] m.runs[i]).contains_key(key)
                && m.compacted().runs[0][key] == m.runs[i][key],
        forall|i: int|
            0 <= i < m.runs.len() && (#[trigger] m.runs[i]).contains_key(key)
                ==> m.runs[i][key].timestamp <= m.compacted().runs[0][key].timestamp,
{
    lemma_merged_greatest(m.runs, key);
}

/// Where timestamps never fall from an older run to a newer one, compaction
/// changes nothing that a reader sees.
pub proof fn law_compaction_keeps_reads(m: EngineModel)
    requires
        in_time_order(m.runs),
    ensures
        m.compacted().current() == m.current(),
        forall|key: Seq<char>| m.compacted().read(key) == m.read(key),
{
    if m.runs.len() >= 2 {
        lemma_merged_is_stacked(m.runs);
        let one = seq![merged(m.runs)];
        assert(one.drop_last() =~= Seq::<Map<Seq<char>, EntryModel>>::empty());
        assert(stacked(one.drop_last()) =~= Map::<Seq<char>, EntryModel>::empty());
        assert(stacked(one) =~= merged(m.runs));
    }
}

/// Where timestamps never fall from an older layer to a newer one, a flush
/// changes nothing that a reader sees, and leaves the timestamps in order.
pub proof fn law_flush_keeps_reads(m: EngineModel)
    requires
        m.time_ordered(),
    ensures
        m.flushed().current() == m.current(),
        m.flushed().time_ordered(),
        m.flushed().log == m.log,
        forall|key: Seq<char>| m.flushed().read(key) == m.read(key),
{
    if m.mem != Map::<Seq<char>, EntryModel>::empty() {
        let pushed = m.pushed();
        lemma_current_is_stacked_layers(m);
        assert(pushed.runs == m.layers());
        assert(pushed.current() =~= stacked(pushed.runs));
        law_compaction_keeps_reads(pushed);
        let after = m.flushed();
        assert(after.current() == m.current());
        // the layers of the result are its runs and an empty buffer
        assert forall|i: int, j: int, k: Seq<char>|
            0 <= i < j < after.layers().len() && #[trigger] after.layers()[i].contains_key(k)
                && #[trigger] after.layers()[j].contains_key(k) implies after.layers()[i][k].timestamp
            <= after.layers()[j][k].timestamp by {
            assert(j < after.runs.len());
            assert(after.runs == pushed.runs);
            assert(after.layers()[i] == m.layers()[i] && after.layers()[j] == m.layers()[j]);
        }
    }
}

/// A write whose timestamp is not below any that its key carries speaks for
/// its key from then on, whether or not it fills the buffer; every other key
/// reads as before, and the timestamps stay in order.
pub proof fn law_write_is_read(m: EngineModel, entry: EntryModel)
    requires
        m.time_ordered(),
        m.stamped_up_to(entry.key, entry.timestamp),
    ensures
        m.applied(entry).current() == m.current().insert(entry.key, entry),
        m.applied(entry).time_ordered(),
        m.applied(entry).log == m.log.push(entry),
        m.applied(entry).read(entry.key) == entry.value.visible(),
        forall|key: Seq<char>| key != entry.key ==> m.applied(entry).read(key) == m.read(key),
{
    let written = m.written(entry);
    assert(written.current() =~= m.current().insert(entry.key, entry));
    assert(written.time_ordered()) by {
        let n = m.runs.len() as int;
        assert forall|i: int, j: int, k: Seq<char>|
            0 <= i < j < written.layers().len() && #[trigger] written.layers()[i].contains_key(k)
                && #[trigger] written.layers()[j].contains_key(k) implies written.layers()[i][k].timestamp
            <= written.layers()[j][k].timestamp by {
            assert(written.layers()[i] == m.layers()[i]);
            if j < n {
                assert(written.layers()[j] == m.layers()[j]);
            } else if k == entry.key {
                assert(m.layers()[i].contains_key(k));
            } else {
                assert(m.layers()[j].contains_key(k));
                assert(m.layers()[j][k] == written.layers()[j][k]);
            }
        }
    }
    law_flush_keeps_reads(written);
}

/// No write raises the latest timestamp under a key beyond its own.
pub proof fn law_write_keeps_stamps(m: EngineModel, entry: EntryModel, key: Seq<char>, timestamp: u64)
    requires
        m.stamped_up_to(key, timestamp),
        entry.key == key ==> entry.timestamp <= timestamp,
    ensures
        m.applied(entry).stamped_up_to(key, timestamp),
{
    let written = m.written(entry);
    assert(written.stamped_up_to(key, timestamp)) by {
        assert forall|i: int|
            0 <= i < written.layers().len() && (#[trigger] written.layers()[i]).contains_key(
                key,
            ) implies written.layers()[i][key].timestamp <= timestamp by {
            if i < m.runs.len() {
                assert(written.layers()[i] == m.layers()[i]);
            } else if key != entry.key {
                assert(m.layers()[i].contains_key(key));
            }
        }
    }
    let after = m.applied(entry);
    if after != written {
        // flushed: the buffer became a run, and the runs may have been merged
        let pushed = written.pushed();
        assert(pushed.runs == written.layers());
        assert forall|i: int|
            0 <= i < after.layers().len() && (#[trigger] after.layers()[i]).contains_key(
                key,
            ) implies after.layers()[i][key].timestamp <= timestamp by {
            if after == pushed {
                assert(i < pushed.runs.len());
                assert(after.layers()[i] == written.layers()[i]);
            } else {
                assert(i == 0);
                lemma_merged_greatest(pushed.runs, key);
                let j = choose|j: int|
                    0 <= j < pushed.runs.len() && (#[trigger] pushed.runs[j]).contains_key(key)
                        && merged(pushed.runs)[key] == pushed.runs[j][key];
                assert(written.layers()[j].contains_key(key));
            }
        }
    }
}

/// Inserting a key and then deleting it leaves the key not found, however
/// many runs there are and whether or not either write fills the buffer,
/// as long as the clock does not run backwards.
pub proof fn law_insert_then_delete(
    m: EngineModel,
    key: Seq<char>,
    value: Seq<char>,
    inserted_at: u64,
    deleted_at: u64,
)
    requires
        m.time_ordered(),
        m.stamped_up_to(key, inserted_at),
        inserted_at <= deleted_at,
    ensures
        m.applied(present_entry(key, value, inserted_at)).applied(tombstone(key, deleted_at)).read(key)
            is None,
{
    let put = present_entry(key, value, inserted_at);
    law_write_is_read(m, put);
    law_write_keeps_stamps(m, put, key, inserted_at);
    let between = m.applied(put);
    assert(between.stamped_up_to(key, deleted_at)) by {
        assert forall|i: int|
            0 <= i < between.layers().len() && (#[trigger] between.layers()[i]).contains_key(
                key,
            ) implies between.layers()[i][key].timestamp <= deleted_at by {}
    }
    law_write_is_read(between, tombstone(key, deleted_at));
}

/// Opening a table replays its log: the reader sees, under each key, what was
/// logged last, before any flush has occurred.
pub proof fn law_open_replays(dir: Seq<char>, log: Seq<EntryModel>)
    ensures
        EngineModel::opened(dir, log).current() == replayed(log),
        EngineModel::opened(dir, log).time_ordered(),
        EngineModel::opened(dir, log).log == log,
{
    let m = EngineModel::opened(dir, log);
    assert(stacked(m.runs) =~= Map::<Seq<char>, EntryModel>::empty());
    assert(m.current() =~= replayed(log));
}

/// A log that ends with an insert of a key and then a delete of it opens to
/// an engine in which the key is not found.
pub proof fn law_recovery_keeps_delete(
    dir: Seq<char>,
    log: Seq<EntryModel>,
    key: Seq<char>,
    value: Seq<char>,
    inserted_at: u64,
    deleted_at: u64,
)
    ensures
        EngineModel::opened(
            dir,
            log.push(present_entry(key, value, inserted_at)).push(tombstone(key, deleted_at)),
        ).read(key) is None,
{
    let whole = log.push(present_entry(key, value, inserted_at)).push(tombstone(key, deleted_at));
    law_open_replays(dir, whole);
    assert(whole.last() == tombstone(key, deleted_at));
}

/// As long as the clock does not run backwards, the log holds all that a
/// reader sees: an engine that agrees with the replay of its log still does
/// so after a write.
pub proof fn law_log_recovers_state(m: EngineModel, entry: EntryModel)
    requires
        m.time_ordered(),
        m.stamped_up_to(entry.key, entry.timestamp),
        m.current() == replayed(m.log),
    ensures
        m.applied(entry).current() == replayed(m.applied(entry).log),
        EngineModel::opened(m.dir, m.applied(entry).log).current() == m.applied(entry).current(),
{
    law_write_is_read(m, entry);
    let log = m.log.push(entry);
    assert(log.drop_last() =~= m.log);
    law_open_replays(m.dir, log);
}

/// After a write, a flush and a compaction a reader still finds what the
/// write said, as long as the clock does not run backwards: of all that was
/// ever written under the key, the record with the greatest timestamp speaks.
pub proof fn law_last_write_survives_compaction(m: EngineModel, entry: EntryModel)
    requires
        m.time_ordered(),
        m.stamped_up_to(entry.key, entry.timestamp),
    ensures
        m.applied(entry).flushed().compacted().current() == m.current().insert(entry.key, entry),
        m.applied(entry).flushed().compacted().read(entry.key) == entry.value.visible(),
        forall|key: Seq<char>|
            key != entry.key ==> m.applied(entry).flushed().compacted().read(key) == m.read(key),
{
    law_write_is_read(m, entry);
    let written = m.applied(entry);
    law_flush_keeps_reads(written);
    let flushed = written.flushed();
    assert(flushed.layers().subrange(0, flushed.runs.len() as int) =~= flushed.runs);
    lemma_time_order_prefix(flushed.layers(), flushed.runs.len() as int);
    law_compaction_keeps_reads(flushed);
}

/// A compaction leaves the timestamps in order and raises none.
pub proof fn law_compaction_keeps_order(m: EngineModel, key: Seq<char>, timestamp: u64)
    requires
        m.time_ordered(),
    ensures
        m.compacted().time_ordered(),
        m.stamped_up_to(key, timestamp) ==> m.compacted().stamped_up_to(key, timestamp),
{
    let after = m.compacted();
    if m.runs.len() >= 2 {
        let n = m.runs.len() as int;
        assert forall|i: int, j: int, k: Seq<char>|
            0 <= i < j < after.layers().len() && #[trigger] after.layers()[i].contains_key(k)
                && #[trigger] after.layers()[j].contains_key(k) implies after.layers()[i][k].timestamp
            <= after.layers()[j][k].timestamp by {
            // the one run before the buffer: what it holds came from a run
            lemma_merged_greatest(m.runs, k);
            let w = choose|w: int|
                0 <= w < m.runs.len() && (#[trigger] m.runs[w]).contains_key(k) && merged(m.runs)[k]
                    == m.runs[w][k];
            assert(m.layers()[w] == m.runs[w]);
            assert(m.layers()[n] == m.mem);
        }
        if m.stamped_up_to(key, timestamp) {
            assert forall|i: int|
                0 <= i < after.layers().len() && (#[trigger] after.layers()[i]).contains_key(
                    key,
                ) implies after.layers()[i][key].timestamp <= timestamp by {
                if i == 0 {
                    lemma_merged_greatest(m.runs, key);
                    let w = choose|w: int|
                        0 <= w < m.runs.len() && (#[trigger] m.runs[w]).contains_key(key) && merged(
                            m.runs,
                        )[key] == m.runs[w][key];
                    assert(m.layers()[w] == m.runs[w]);
                } else {
                    assert(m.layers()[n] == m.mem);
                }
            }
        }
    }
}

/// A compaction raises no timestamp.
pub proof fn law_compaction_keeps_stamps(m: EngineModel, key: Seq<char>, timestamp: u64)
    requires
        m.stamped_up_to(key, timestamp),
    ensures
        m.compacted().stamped_up_to(key, timestamp),
{
    let after = m.compacted();
    if m.runs.len() >= 2 {
        let n = m.runs.len() as int;
        assert forall|i: int|
            0 <= i < after.layers().len() && (#[trigger] after.layers()[i]).contains_key(
                key,
            ) implies after.layers()[i][key].timestamp <= timestamp by {
            if i == 0 {
                lemma_merged_greatest(m.runs, key);
                let w = choose|w: int|
                    0 <= w < m.runs.len() && (#[trigger] m.runs[w]).contains_key(key) && merged(
                        m.runs,
                    )[key] == m.runs[w][key];
                assert(m.layers()[w] == m.runs[w]);
            } else {
                assert(m.layers()[n] == m.mem);
            }
        }
    }
}

/// A flush raises no timestamp.
pub proof fn law_flush_keeps_stamps(m: EngineModel, key: Seq<char>, timestamp: u64)
    requires
        m.stamped_up_to(key, timestamp),
    ensures
        m.flushed().stamped_up_to(key, timestamp),
{
    if m.mem != Map::<Seq<char>, EntryModel>::empty() {
        let pushed = m.pushed();
        assert(pushed.runs == m.layers());
        assert(pushed.stamped_up_to(key, timestamp)) by {
            assert forall|i: int|
                0 <= i < pushed.layers().len() && (#[trigger] pushed.layers()[i]).contains_key(
                    key,
                ) implies pushed.layers()[i][key].timestamp <= timestamp by {
                assert(i < pushed.runs.len());
                assert(pushed.layers()[i] == m.layers()[i]);
            }
        }
        law_compaction_keeps_stamps(pushed, key, timestamp);
    }
}

/// No record that a replay of `log` leaves is stamped later than the newest
/// in the log.
pub proof fn lemma_replayed_stamps(log: Seq<EntryModel>, key: Seq<char>)
    requires
        replayed(log).contains_key(key),
    ensures
        replayed(log)[key].timestamp <= newest_stamp(log),
    decreases log.len(),
{
    if log.len() > 0 && log.last().key != key {
        lemma_replayed_stamps(log.drop_last(), key);
    }
}

/// A table that has just been opened has its timestamps in step, whatever
/// its log holds.
pub proof fn law_open_in_step(dir: Seq<char>, log: Seq<EntryModel>)
    ensures
        EngineModel::opened(dir, log).in_step(),
{
    let m = EngineModel::opened(dir, log);
    law_open_replays(dir, log);
    assert forall|key: Seq<char>| m.stamped_up_to(key, m.newest()) by {
        assert forall|i: int| 0 <= i < m.layers().len() && (#[trigger] m.layers()[i]).contains_key(
            key,
        ) implies m.layers()[i][key].timestamp <= m.newest() by {
            assert(m.layers()[i] == replayed(log));
            lemma_replayed_stamps(log, key);
        }
    }
}

/// A write that is stamped no earlier than the newest record of the log
/// keeps the timestamps in step, and a reader finds what it wrote.
pub proof fn law_write_in_step(m: EngineModel, entry: EntryModel)
    requires
        m.in_step(),
        m.newest() <= entry.timestamp,
    ensures
        m.applied(entry).in_step(),
        m.applied(entry).newest() == entry.timestamp,
        m.applied(entry).current() == m.current().insert(entry.key, entry),
        m.applied(entry).read(entry.key) == entry.value.visible(),
        forall|key: Seq<char>| key != entry.key ==> m.applied(entry).read(key) == m.read(key),
{
    assert(m.stamped_up_to(entry.key, m.newest()));
    law_write_is_read(m, entry);
    assert(m.log.push(entry).drop_last() =~= m.log);
    assert forall|key: Seq<char>| m.applied(entry).stamped_up_to(key, entry.timestamp) by {
        assert(m.stamped_up_to(key, m.newest()));
        law_write_keeps_stamps(m, entry, key, entry.timestamp);
    }
}

/// A flush keeps the timestamps in step.
pub proof fn law_flush_in_step(m: EngineModel)
    requires
        m.in_step(),
    ensures
        m.flushed().in_step(),
{
    law_flush_keeps_reads(m);
    let after = m.flushed();
    assert(after.newest() == m.newest());
    assert forall|key: Seq<char>| after.stamped_up_to(key, after.newest()) by {
        assert(m.stamped_up_to(key, m.newest()));
        law_flush_keeps_stamps(m, key, m.newest());
    }
}

/// A compaction keeps the timestamps in step.
pub proof fn law_compaction_in_step(m: EngineModel)
    requires
        m.in_step(),
    ensures
        m.compacted().in_step(),
{
    let after = m.compacted();
    assert(after.log == m.log);
    assert(after.newest() == m.newest());
    law_compaction_keeps_order(m, Seq::empty(), 0);
    assert forall|key: Seq<char>| after.stamped_up_to(key, after.newest()) by {
        assert(m.stamped_up_to(key, m.newest()));
        law_compaction_keeps_order(m, key, m.newest());
    }
}

/// After an insert of a key and then a delete of it the key is not found,
/// whatever the clock showed at either write, however many runs the table
/// has and whatever their timestamps are: each write is stamped by `stamp`,
/// never earlier than what the log holds.
pub proof fn law_insert_then_delete_always(
    m: EngineModel,
    key: Seq<char>,
    value: Seq<char>,
    first_clock: u64,
    second_clock: u64,
)
    requires
        m.bounded(),
    ensures
        ({
            let between = m.applied(present_entry(key, value, m.stamp(first_clock)));
            let after = between.applied(tombstone(key, between.stamp(second_clock)));
            &&& between.read(key) == Some(value)
            &&& after.read(key) is None
            &&& after.crowned(key)
            &&& after.bounded()
        }),
{
    let put = present_entry(key, value, m.stamp(first_clock));
    law_top_write_is_read(m, put);
    let between = m.applied(put);
    law_top_write_is_read(between, tombstone(key, between.stamp(second_clock)));
}

/// No record of `log` is stamped later than its newest.
pub proof fn lemma_newest_bounds(log: Seq<EntryModel>, i: int)
    requires
        0 <= i < log.len(),
    ensures
        log[i].timestamp <= newest_stamp(log),
    decreases log.len(),
{
    if i < log.len() - 1 {
        lemma_newest_bounds(log.drop_last(), i);
    }
}

/// The table after `n` writes under `key`, one after another: write `i`
/// leaves `values[i]` there, made while the clock shows `clocks[i]`.
pub open spec fn rewritten(
    m: EngineModel,
    key: Seq<char>,
    values: Seq<ValueModel>,
    clocks: Seq<u64>,
    n: nat,
) -> EngineModel
    recommends
        n <= values.len(),
        n <= clocks.len(),
    decreases n,
{
    if n == 0 {
        m
    } else {
        let prior = rewritten(m, key, values, clocks, (n - 1) as nat);
        prior.applied(
            EntryModel { key, value: values[n - 1], timestamp: prior.stamp(clocks[n - 1]) },
        )
    }
}

/// Writes stamped by `stamp` keep the timestamps below the newest of the
/// log, and in step where they were.
pub proof fn lemma_rewritten_bounded(
    m: EngineModel,
    key: Seq<char>,
    values: Seq<ValueModel>,
    clocks: Seq<u64>,
    n: nat,
)
    requires
        m.bounded(),
    ensures
        rewritten(m, key, values, clocks, n).bounded(),
        m.in_step() ==> rewritten(m, key, values, clocks, n).in_step(),
    decreases n,
{
    if n > 0 {
        lemma_rewritten_bounded(m, key, values, clocks, (n - 1) as nat);
        let prior = rewritten(m, key, values, clocks, (n - 1) as nat);
        let entry = EntryModel { key, value: values[n - 1], timestamp: prior.stamp(clocks[n - 1]) };
        law_write_keeps_bound(prior, entry);
        if m.in_step() {
            law_write_in_step(prior, entry);
        }
    }
}

/// After inserts and deletes of one key, one after another and whatever
/// the clock showed at each, a reader finds what the last of them wrote, and
/// still does so after a flush and a compaction: the record that speaks is
/// the last one written, and no record of the log has a greater timestamp.
pub proof fn law_repeated_writes_keep_the_last(
    m: EngineModel,
    key: Seq<char>,
    values: Seq<ValueModel>,
    clocks: Seq<u64>,
    n: nat,
)
    requires
        m.bounded(),
        0 < n <= values.len(),
        n <= clocks.len(),
    ensures
        ({
            let after = rewritten(m, key, values, clocks, n);
            let settled = after.flushed().compacted();
            &&& after.read(key) == values[n - 1].visible()
            &&& settled.read(key) == values[n - 1].visible()
            &&& settled.current().contains_key(key)
            &&& settled.current()[key] == after.current()[key]
            &&& settled.current()[key].value == values[n - 1]
            &&& forall|i: int|
                0 <= i < settled.log.len() ==> (#[trigger] settled.log[i]).timestamp
                    <= settled.current()[key].timestamp
        }),
{
    let prior = rewritten(m, key, values, clocks, (n - 1) as nat);
    lemma_rewritten_bounded(m, key, values, clocks, (n - 1) as nat);
    let entry = EntryModel { key, value: values[n - 1], timestamp: prior.stamp(clocks[n - 1]) };
    law_top_write_is_read(prior, entry);
    let after = prior.applied(entry);
    law_flush_keeps_crowned(after, key);
    let flushed = after.flushed();
    law_compaction_keeps_crowned(flushed, key);
    let settled = flushed.compacted();
    law_flush_keeps_log(after);
    law_flush_keeps_log(flushed);
    assert(after.log == prior.log.push(entry)) by {
        law_flush_keeps_log(prior.written(entry));
    }
    assert(prior.log.push(entry).drop_last() =~= prior.log);
    assert(after.newest() == entry.timestamp);
    assert forall|i: int| 0 <= i < settled.log.len() implies (#[trigger] settled.log[i]).timestamp
        <= settled.current()[key].timestamp by {
        lemma_newest_bounds(after.log, i);
    }
}

/// Where the newest run that holds `key` holds it with the greatest
/// timestamp of all runs, merging keeps that record.
pub proof fn lemma_merged_crowned(runs: Seq<Map<Seq<char>, EntryModel>>, key: Seq<char>, i: int)
    requires
        0 <= i < runs.len(),
        runs[i].contains_key(key),
        forall|j: int| i < j < runs.len() ==> !(#[trigger] runs[j]).contains_key(key),
        forall|j: int|
            0 <= j < runs.len() && (#[trigger] runs[j]).contains_key(key) ==> runs[j][key].timestamp
                <= runs[i][key].timestamp,
    ensures
        merged(runs).contains_key(key),
        merged(runs)[key] == runs[i][key],
    decreases runs.len(),
{
    let init = runs.drop_last();
    let n = runs.len() - 1;
    if i < n {
        assert(!runs[n].contains_key(key));
        assert forall|j: int| i < j < init.len() implies !(#[trigger] init[j]).contains_key(key) by {
            assert(init[j] == runs[j]);
        }
        assert forall|j: int|
            0 <= j < init.len() && (#[trigger] init[j]).contains_key(key) implies init[j][key].timestamp
            <= init[i][key].timestamp by {
            assert(init[j] == runs[j]);
        }
        lemma_merged_crowned(init, key, i);
    } else {
        lemma_merged_greatest(init, key);
        if merged(init).contains_key(key) {
            let j = choose|j: int|
                0 <= j < init.len() && (#[trigger] init[j]).contains_key(key) && merged(init)[key]
                    == init[j][key];
            assert(init[j] == runs[j]);
        }
    }
}

/// A compaction leaves a record that carries the greatest timestamp under
/// its key where it is: a reader still finds it.
pub proof fn law_compaction_keeps_crowned(m: EngineModel, key: Seq<char>)
    requires
        m.crowned(key),
    ensures
        m.compacted().crowned(key),
        m.compacted().current()[key] == m.current()[key],
        m.compacted().read(key) == m.read(key),
{
    let after = m.compacted();
    if m.runs.len() >= 2 {
        let top = m.current()[key].timestamp;
        law_compaction_keeps_stamps(m, key, top);
        let one = seq![merged(m.runs)];
        assert(one.drop_last() =~= Seq::<Map<Seq<char>, EntryModel>>::empty());
        assert(stacked(one.drop_last()) =~= Map::<Seq<char>, EntryModel>::empty());
        assert(stacked(one) =~= merged(m.runs));
        if !m.mem.contains_key(key) {
            crate::model::lemma_stacked_source(m.runs, key);
            let i = choose|i: int|
                {
                    &&& 0 <= i < m.runs.len()
                    &&& (#[trigger] m.runs[i]).contains_key(key)
                    &&& stacked(m.runs)[key] == m.runs[i][key]
                    &&& forall|j: int| i < j < m.runs.len() ==> !(#[trigger] m.runs[j]).contains_key(key)
                };
            assert forall|j: int|
                0 <= j < m.runs.len() && (#[trigger] m.runs[j]).contains_key(key) implies m.runs[j][key].timestamp
                <= m.runs[i][key].timestamp by {
                assert(m.layers()[j] == m.runs[j]);
            }
            lemma_merged_crowned(m.runs, key, i);
        }
    }
}

/// A flush leaves a record that carries the greatest timestamp under its
/// key where it is: a reader still finds it.
pub proof fn law_flush_keeps_crowned(m: EngineModel, key: Seq<char>)
    requires
        m.crowned(key),
    ensures
        m.flushed().crowned(key),
        m.flushed().current()[key] == m.current()[key],
        m.flushed().read(key) == m.read(key),
{
    if m.mem != Map::<Seq<char>, EntryModel>::empty() {
        let pushed = m.pushed();
        let top = m.current()[key].timestamp;
        lemma_current_is_stacked_layers(m);
        assert(pushed.runs == m.layers());
        assert(pushed.current() =~= m.current());
        assert(pushed.stamped_up_to(key, top)) by {
            assert forall|i: int|
                0 <= i < pushed.layers().len() && (#[trigger] pushed.layers()[i]).contains_key(
                    key,
                ) implies pushed.layers()[i][key].timestamp <= top by {
                assert(i < pushed.runs.len());
                assert(pushed.layers()[i] == m.layers()[i]);
            }
        }
        law_compaction_keeps_crowned(pushed, key);
    }
}

/// A write under another key leaves a record that carries the greatest
/// timestamp under its key where it is.
pub proof fn law_other_write_keeps_crowned(m: EngineModel, entry: EntryModel, key: Seq<char>)
    requires
        m.crowned(key),
        entry.key != key,
    ensures
        m.applied(entry).crowned(key),
        m.applied(entry).current()[key] == m.current()[key],
        m.applied(entry).read(key) == m.read(key),
{
    let written = m.written(entry);
    let top = m.current()[key].timestamp;
    assert(written.current() =~= m.current().insert(entry.key, entry));
    assert(written.stamped_up_to(key, top)) by {
        assert forall|i: int|
            0 <= i < written.layers().len() && (#[trigger] written.layers()[i]).contains_key(
                key,
            ) implies written.layers()[i][key].timestamp <= top by {
            if i < m.runs.len() {
                assert(written.layers()[i] == m.layers()[i]);
            } else {
                assert(m.layers()[i].contains_key(key));
            }
        }
    }
    law_flush_keeps_crowned(written, key);
}

/// Every write keeps the timestamps of the table below the newest of its log.
pub proof fn law_write_keeps_bound(m: EngineModel, entry: EntryModel)
    requires
        m.bounded(),
    ensures
        m.applied(entry).bounded(),
{
    let after = m.applied(entry);
    assert(m.log.push(entry).drop_last() =~= m.log);
    assert(after.log == m.log.push(entry)) by {
        law_flush_keeps_log(m.written(entry));
    }
    assert forall|key: Seq<char>| after.stamped_up_to(key, after.newest()) by {
        assert(m.stamped_up_to(key, m.newest()));
        assert(m.stamped_up_to(key, after.newest()));
        law_write_keeps_stamps(m, entry, key, after.newest());
    }
}

/// A flush and a compaction leave the log as it is.
pub proof fn law_flush_keeps_log(m: EngineModel)
    ensures
        m.flushed().log == m.log,
        m.compacted().log == m.log,
{
}

/// A flush keeps the timestamps of the table below the newest of its log.
pub proof fn law_flush_keeps_bound(m: EngineModel)
    requires
        m.bounded(),
    ensures
        m.flushed().bounded(),
{
    let after = m.flushed();
    law_flush_keeps_log(m);
    assert forall|key: Seq<char>| after.stamped_up_to(key, after.newest()) by {
        assert(m.stamped_up_to(key, m.newest()));
        law_flush_keeps_stamps(m, key, m.newest());
    }
}

/// A compaction keeps the timestamps of the table below the newest of its log.
pub proof fn law_compaction_keeps_bound(m: EngineModel)
    requires
        m.bounded(),
    ensures
        m.compacted().bounded(),
{
    let after = m.compacted();
    law_flush_keeps_log(m);
    assert forall|key: Seq<char>| after.stamped_up_to(key, after.newest()) by {
        assert(m.stamped_up_to(key, m.newest()));
        law_compaction_keeps_stamps(m, key, m.newest());
    }
}

/// A write that is stamped no earlier than the newest record of the log is
/// what a reader finds under its key, whatever the order of the timestamps
/// in the table: its record carries the greatest timestamp under the key.
pub proof fn law_top_write_is_read(m: EngineModel, entry: EntryModel)
    requires
        m.bounded(),
        m.newest() <= entry.timestamp,
    ensures
        m.applied(entry).bounded(),
        m.applied(entry).crowned(entry.key),
        m.applied(entry).current()[entry.key] == entry,
        m.applied(entry).read(entry.key) == entry.value.visible(),
{
    law_write_keeps_bound(m, entry);
    let written = m.written(entry);
    assert(written.current() =~= m.current().insert(entry.key, entry));
    assert(written.stamped_up_to(entry.key, entry.timestamp)) by {
        assert(m.stamped_up_to(entry.key, m.newest()));
        assert forall|i: int|
            0 <= i < written.layers().len() && (#[trigger] written.layers()[i]).contains_key(
                entry.key,
            ) implies written.layers()[i][entry.key].timestamp <= entry.timestamp by {
            if i < m.runs.len() {
                assert(written.layers()[i] == m.layers()[i]);
            }
        }
    }
    law_flush_keeps_crowned(written, entry.key);
}

/// A write keeps the timestamps below the newest of the log before any
/// flush follows it.
pub proof fn lemma_written_keeps_bound(m: EngineModel, entry: EntryModel)
    requires
        m.bounded(),
    ensures
        m.written(entry).bounded(),
{
    let written = m.written(entry);
    assert(m.log.push(entry).drop_last() =~= m.log);
    assert forall|key: Seq<char>| written.stamped_up_to(key, written.newest()) by {
        assert(m.stamped_up_to(key, m.newest()));
        assert forall|i: int|
            0 <= i < written.layers().len() && (#[trigger] written.layers()[i]).contains_key(
                key,
            ) implies written.layers()[i][key].timestamp <= written.newest() by {
            if i < m.runs.len() {
                assert(written.layers()[i] == m.layers()[i]);
            } else if key != entry.key {
                assert(m.layers()[i].contains_key(key));
            }
        }
    }
}

/// Turning the buffer into a run keeps the timestamps below the newest of
/// the log.
pub proof fn lemma_pushed_keeps_bound(m: EngineModel)
    requires
        m.bounded(),
    ensures
        m.pushed().bounded(),
{
    let pushed = m.pushed();
    assert(pushed.runs == m.layers());
    assert forall|key: Seq<char>| pushed.stamped_up_to(key, pushed.newest()) by {
        assert(m.stamped_up_to(key, m.newest()));
        assert forall|i: int|
            0 <= i < pushed.layers().len() && (#[trigger] pushed.layers()[i]).contains_key(
                key,
            ) implies pushed.layers()[i][key].timestamp <= pushed.newest() by {
            assert(i < pushed.runs.len());
            assert(pushed.layers()[i] == m.layers()[i]);
        }
    }
}

/// A compaction neither adds a key to the table nor takes one away.
pub proof fn law_compaction_keeps_keys(m: EngineModel)
    ensures
        m.compacted().current().dom() == m.current().dom(),
{
    if m.runs.len() >= 2 {
        let one = seq![merged(m.runs)];
        assert(one.drop_last() =~= Seq::<Map<Seq<char>, EntryModel>>::empty());
        assert(stacked(one.drop_last()) =~= Map::<Seq<char>, EntryModel>::empty());
        assert(stacked(one) =~= merged(m.runs));
        assert forall|key: Seq<char>|
            m.compacted().current().dom().contains(key) <==> m.current().dom().contains(key) by {
            lemma_merged_greatest(m.runs, key);
            crate::model::lemma_stacked_source(m.runs, key);
        }
        assert(m.compacted().current().dom() =~= m.current().dom());
    }
}

/// A flush neither adds a key to the table nor takes one away.
pub proof fn law_flush_keeps_keys(m: EngineModel)
    ensures
        m.flushed().current().dom() == m.current().dom(),
{
    if m.mem != Map::<Seq<char>, EntryModel>::empty() {
        let pushed = m.pushed();
        lemma_current_is_stacked_layers(m);
        assert(pushed.runs == m.layers());
        assert(pushed.current() =~= m.current());
        law_compaction_keeps_keys(pushed);
    }
}

/// A write adds its key to the table and no other, and takes none away.
pub proof fn law_write_adds_key(m: EngineModel, entry: EntryModel)
    ensures
        m.applied(entry).current().dom() == m.current().dom().insert(entry.key),
        m.current().dom().finite() ==> m.applied(entry).current().dom().finite(),
{
    let written = m.written(entry);
    assert(written.current() =~= m.current().insert(entry.key, entry));
    assert(written.current().dom() =~= m.current().dom().insert(entry.key));
    law_flush_keeps_keys(written);
}

/// A write under a key that the table does not hold is what a reader finds
/// under it, whatever its timestamp.
pub proof fn law_new_key_is_read(m: EngineModel, entry: EntryModel)
    requires
        !m.current().contains_key(entry.key),
    ensures
        m.applied(entry).crowned(entry.key),
        m.applied(entry).current()[entry.key] == entry,
        m.applied(entry).read(entry.key) == entry.value.visible(),
{
    let written = m.written(entry);
    assert(written.current() =~= m.current().insert(entry.key, entry));
    lemma_current_is_stacked_layers(m);
    crate::model::lemma_stacked_source(m.layers(), entry.key);
    assert(written.stamped_up_to(entry.key, entry.timestamp)) by {
        assert forall|i: int|
            0 <= i < written.layers().len() && (#[trigger] written.layers()[i]).contains_key(
                entry.key,
            ) implies written.layers()[i][entry.key].timestamp <= entry.timestamp by {
            if i < m.runs.len() {
                assert(written.layers()[i] == m.layers()[i]);
                assert(m.layers()[i].contains_key(entry.key));
            }
        }
    }
    law_flush_keeps_crowned(written, entry.key);
}

/// A table that has just been opened can be had again from its log.
pub proof fn law_open_recoverable(dir: Seq<char>, log: Seq<EntryModel>)
    ensures
        EngineModel::opened(dir, log).recoverable(),
{
    law_open_in_step(dir, log);
    law_open_replays(dir, log);
}

/// A write that is stamped no earlier than the newest record of the log
/// leaves a table that can be had again from its log such a table.
pub proof fn law_write_recoverable(m: EngineModel, entry: EntryModel)
    requires
        m.recoverable(),
        m.newest() <= entry.timestamp,
    ensures
        m.applied(entry).recoverable(),
{
    law_write_in_step(m, entry);
    assert(m.stamped_up_to(entry.key, m.newest()));
    law_log_recovers_state(m, entry);
}

/// A flush, and a compaction, leave a table that can be had again from its
/// log such a table.
pub proof fn law_flush_recoverable(m: EngineModel)
    requires
        m.recoverable(),
    ensures
        m.flushed().recoverable(),
        m.compacted().recoverable(),
{
    law_flush_in_step(m);
    law_flush_keeps_reads(m);
    law_compaction_in_step(m);
    assert(m.layers().subrange(0, m.runs.len() as int) =~= m.runs);
    lemma_time_order_prefix(m.layers(), m.runs.len() as int);
    law_compaction_keeps_reads(m);
}

/// A write whose record did not reach the log is undone by opening the
/// table from what the log holds: where the table could be had from its log
/// before the write, a reader of the table opened from the log without the
/// record finds what was there before the write.
pub proof fn law_reopening_undoes_a_lost_write(m: EngineModel, entry: EntryModel)
    requires
        m.recoverable(),
    ensures
        m.applied(entry).log.drop_last() == m.log,
        EngineModel::opened(m.dir, m.applied(entry).log.drop_last()).current() == m.current(),
        forall|key: Seq<char>|
            EngineModel::opened(m.dir, m.applied(entry).log.drop_last()).read(key) == m.read(key),
{
    law_flush_keeps_log(m.written(entry));
    assert(m.log.push(entry).drop_last() =~= m.log);
    law_open_replays(m.dir, m.log);
}

} // verus!
