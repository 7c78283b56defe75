use vstd::prelude::*;
use crate::entry::{
    entry_views, lemma_run_map_keyed, lemma_run_map_upsert, run_keys, run_map, sorted_run,
    EntryModel, StorageEntry,
};
use crate::keys::{ascending, find_key, key_seq, lemma_keyed_map_item, lemma_position, upsert};
use crate::model::newer_of;

verus! {

/// A run's first `n + 1` records are its first `n` with the next one filed
/// under a key that none of them has.
pub proof fn lemma_run_prefix(records: Seq<EntryModel>, n: int)
    requires
        sorted_run(records),
        0 <= n < records.len(),
    ensures
        sorted_run(records.subrange(0, n)),
        sorted_run(records.subrange(0, n + 1)),
        !run_map(records.subrange(0, n)).contains_key(records[n].key),
        run_map(records.subrange(0, n + 1)) == run_map(records.subrange(0, n)).insert(
            records[n].key,
            records[n],
        ),
{
    let short = records.subrange(0, n);
    let long = records.subrange(0, n + 1);
    let ks = run_keys(records);
    assert forall|i: int, j: int| 0 <= i < j < long.len() implies crate::text::lex_lt(
        #[trigger] run_keys(long)[i],
        #[trigger] run_keys(long)[j],
    ) by {
        assert(ks[i] == run_keys(long)[i] && ks[j] == run_keys(long)[j]);
    }
    assert forall|i: int, j: int| 0 <= i < j < short.len() implies crate::text::lex_lt(
        #[trigger] run_keys(short)[i],
        #[trigger] run_keys(short)[j],
    ) by {
        assert(ks[i] == run_keys(short)[i] && ks[j] == run_keys(short)[j]);
    }
    if run_map(short).contains_key(records[n].key) {
        let p = choose|p: int| 0 <= p < short.len() && run_keys(short)[p] == records[n].key;
        assert(ks[p] == records[n].key && ks[n] == records[n].key);
        crate::keys::lemma_ascending_distinct(ks, p, n);
    }
    let goal = run_map(short).insert(records[n].key, records[n]);
    assert forall|k: Seq<char>| run_map(long).contains_key(k) <==> goal.contains_key(k) by {
        if run_map(long).contains_key(k) {
            let p = choose|p: int| 0 <= p < long.len() && run_keys(long)[p] == k;
            if p < n {
                assert(run_keys(short)[p] == k);
            }
        }
        if goal.contains_key(k) {
            if k == records[n].key {
                assert(run_keys(long)[n] == k);
            } else {
                let p = choose|p: int| 0 <= p < short.len() && run_keys(short)[p] == k;
                assert(run_keys(long)[p] == k);
            }
        }
    }
    assert forall|k: Seq<char>| run_map(long).contains_key(k) implies run_map(long)[k] == goal[k] by {
        let p = choose|p: int| 0 <= p < long.len() && run_keys(long)[p] == k;
        assert(run_keys(long)[p] == k);
        lemma_position(run_keys(long), p);
        if p < n {
            assert(run_keys(short)[p] == k);
            lemma_position(run_keys(short), p);
        }
    }
    assert(run_map(long) =~= goal);
}

/// Lays `run` over `base`: what `run` holds under a key takes the place of
/// what `base` held under it.
pub fn overlay_run(base: &mut Vec<StorageEntry>, run: &Vec<StorageEntry>)
    requires
        ascending(key_seq(old(base)@)),
        ascending(key_seq(run@)),
    ensures
        ascending(key_seq(final(base)@)),
        run_map(entry_views(final(base)@)) == run_map(entry_views(old(base)@)).union_prefer_right(
            run_map(entry_views(run@)),
        ),
{
    let ghost start = run_map(entry_views(base@));
    let ghost records = entry_views(run@);
    proof {
        lemma_run_map_keyed(run@);
        assert(records.subrange(0, 0) =~= Seq::<EntryModel>::empty());
        crate::entry::lemma_run_map_empty(records.subrange(0, 0));
        assert(start.union_prefer_right(Map::<Seq<char>, EntryModel>::empty()) =~= start);
    }
    let mut j: usize = 0;
    while j < run.len()
        invariant
            j <= run.len(),
            records == entry_views(run@),
            sorted_run(records),
            ascending(key_seq(base@)),
            run_map(entry_views(base@)) == start.union_prefer_right(
                run_map(records.subrange(0, j as int)),
            ),
        decreases run.len() - j,
    {
        let entry = run[j].clone();
        let ghost before = base@;
        proof {
            lemma_run_prefix(records, j as int);
        }
        upsert(base, entry);
        proof {
            lemma_run_map_upsert(before, base@, entry);
            assert(entry@ == records[j as int]);
            assert(run_map(entry_views(base@)) =~= start.union_prefer_right(
                run_map(records.subrange(0, j + 1)),
            ));
        }
        j = j + 1;
    }
    assert(records.subrange(0, run.len() as int) =~= records);
}

/// Merges `run`, the later of the two, into `base` by timestamp: under each
/// key the record with the greater timestamp stays, that of `run` where they
/// are equal.
pub fn merge_run(base: &mut Vec<StorageEntry>, run: &Vec<StorageEntry>)
    requires
        ascending(key_seq(old(base)@)),
        ascending(key_seq(run@)),
    ensures
        ascending(key_seq(final(base)@)),
        run_map(entry_views(final(base)@)) == newer_of(
            run_map(entry_views(old(base)@)),
            run_map(entry_views(run@)),
        ),
{
    let ghost start = run_map(entry_views(base@));
    let ghost records = entry_views(run@);
    proof {
        lemma_run_map_keyed(run@);
        assert(records.subrange(0, 0) =~= Seq::<EntryModel>::empty());
        crate::entry::lemma_run_map_empty(records.subrange(0, 0));
        assert(newer_of(start, Map::<Seq<char>, EntryModel>::empty()) =~= start);
    }
    let mut j: usize = 0;
    while j < run.len()
        invariant
            j <= run.len(),
            records == entry_views(run@),
            sorted_run(records),
            ascending(key_seq(base@)),
            run_map(entry_views(base@)) == newer_of(start, run_map(records.subrange(0, j as int))),
        decreases run.len() - j,
    {
        let ghost before = base@;
        let ghost seen = run_map(records.subrange(0, j as int));
        proof {
            lemma_run_prefix(records, j as int);
            lemma_run_map_keyed(before);
            assert(run[j as int]@ == records[j as int]);
        }
        let ghost k = records[j as int].key;
        let ghost held = run_map(entry_views(before));
        let newer = match find_key(base, run[j].key.as_str()) {
            Some(at) => {
                proof {
                    lemma_keyed_map_item(before, at as int);
                    assert(crate::keys::keyed_map(before).contains_key(k));
                    assert(held.contains_key(k));
                    assert(held[k] == before[at as int]@);
                    assert(start.contains_key(k) && held[k] == start[k]);
                }
                run[j].timestamp >= base[at].timestamp
            },
            None => {
                proof {
                    assert(!crate::keys::keyed_map(before).contains_key(k));
                    assert(!held.dom().contains(k));
                    assert(!start.contains_key(k));
                }
                true
            },
        };
        if newer {
            let entry = run[j].clone();
            upsert(base, entry);
            proof {
                lemma_run_map_upsert(before, base@, entry);
                assert(run_map(entry_views(base@)) =~= newer_of(
                    start,
                    seen.insert(records[j as int].key, records[j as int]),
                ));
            }
        } else {
            assert(run_map(entry_views(base@)) =~= newer_of(
                start,
                seen.insert(records[j as int].key, records[j as int]),
            ));
        }
        j = j + 1;
    }
    assert(records.subrange(0, run.len() as int) =~= records);
}

} // verus!
