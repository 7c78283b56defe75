use vstd::prelude::*;
use crate::text::{
    lemma_lex_irreflexive, lemma_lex_total, lemma_lex_transitive, lex_lt, str_less, str_same,
};

verus! {

/// An item that is filed under a key of text.
pub trait Keyed {
    spec fn key_view(&self) -> Seq<char>;

    fn key_text(&self) -> (key: &str)
        ensures
            key@ == self.key_view(),
    ;
}

/// The keys of `items`, in order.
pub open spec fn key_seq<T: Keyed>(items: Seq<T>) -> Seq<Seq<char>> {
    Seq::new(items.len(), |i: int| items[i].key_view())
}

/// Strictly ascending, hence free of duplicates.
pub open spec fn ascending(keys: Seq<Seq<char>>) -> bool {
    forall|i: int, j: int| 0 <= i < j < keys.len() ==> lex_lt(#[trigger] keys[i], #[trigger] keys[j])
}

/// In an ascending sequence a key stands at one place at most.
pub proof fn lemma_ascending_distinct(keys: Seq<Seq<char>>, i: int, j: int)
    requires
        ascending(keys),
        0 <= i < keys.len(),
        0 <= j < keys.len(),
        keys[i] == keys[j],
    ensures
        i == j,
{
    if i < j {
        lemma_lex_irreflexive(keys[i]);
    } else if j < i {
        lemma_lex_irreflexive(keys[j]);
    }
}

/// The place of `key` in `keys`, where it occurs.
pub open spec fn position(keys: Seq<Seq<char>>, key: Seq<char>) -> int {
    choose|i: int| 0 <= i < keys.len() && keys[i] == key
}

/// In an ascending sequence the place of a key is the place where it stands.
pub proof fn lemma_position(keys: Seq<Seq<char>>, i: int)
    requires
        ascending(keys),
        0 <= i < keys.len(),
    ensures
        position(keys, keys[i]) == i,
        keys.contains(keys[i]),
{
    let p = position(keys, keys[i]);
    lemma_ascending_distinct(keys, p, i);
}

/// The item filed under `key`, where there is one.
pub open spec fn item_at<T: Keyed>(items: Seq<T>, key: Seq<char>) -> T {
    items[position(key_seq(items), key)]
}

/// The items as a map from key to item.
pub open spec fn keyed_map<T: Keyed>(items: Seq<T>) -> Map<Seq<char>, T> {
    Map::new(|k: Seq<char>| key_seq(items).contains(k), |k: Seq<char>| item_at(items, k))
}

/// Each item of an ascending sequence is the one filed under its key.
pub proof fn lemma_keyed_map_item<T: Keyed>(items: Seq<T>, i: int)
    requires
        ascending(key_seq(items)),
        0 <= i < items.len(),
    ensures
        keyed_map(items).contains_key(items[i].key_view()),
        keyed_map(items)[items[i].key_view()] == items[i],
{
    assert(key_seq(items)[i] == items[i].key_view());
    lemma_position(key_seq(items), i);
}

/// What `upsert` does to the map.
pub proof fn lemma_upsert_map<T: Keyed>(before: Seq<T>, after: Seq<T>, item: T, at: int)
    requires
        ascending(key_seq(before)),
        ascending(key_seq(after)),
        0 <= at < after.len(),
        key_seq(before).contains(item.key_view()) ==> at == position(
            key_seq(before),
            item.key_view(),
        ) && after == before.update(at, item),
        !key_seq(before).contains(item.key_view()) ==> at <= before.len() && after
            == before.insert(at, item),
    ensures
        keyed_map(after) == keyed_map(before).insert(item.key_view(), item),
{
    let k = item.key_view();
    let kb = key_seq(before);
    let ka = key_seq(after);
    let goal = keyed_map(before).insert(k, item);
    if kb.contains(k) {
        let w = choose|w: int| 0 <= w < kb.len() && kb[w] == k;
        assert(0 <= position(kb, k) < kb.len());
        assert(ka =~= kb);
    } else {
        assert(ka =~= kb.insert(at, k));
    }
    assert(after[at] == item);
    assert(ka[at] == k);
    lemma_position(ka, at);
    assert forall|x: Seq<char>| keyed_map(after).contains_key(x) <==> goal.contains_key(x) by {
        if ka.contains(x) && x != k {
            let p = choose|p: int| 0 <= p < ka.len() && ka[p] == x;
            if kb.contains(k) {
                assert(kb[p] == x);
            } else {
                if p < at {
                    assert(kb[p] == x);
                } else {
                    assert(kb[p - 1] == x);
                }
            }
        }
        if kb.contains(x) && x != k {
            let p = choose|p: int| 0 <= p < kb.len() && kb[p] == x;
            if kb.contains(k) {
                assert(ka[p] == x);
            } else {
                if p < at {
                    assert(ka[p] == x);
                } else {
                    assert(ka[p + 1] == x);
                }
            }
        }
    }
    assert forall|x: Seq<char>| keyed_map(after).contains_key(x) implies keyed_map(after)[x]
        == goal[x] by {
        if x != k {
            let p = choose|p: int| 0 <= p < kb.len() && kb[p] == x;
            assert(kb.contains(x));
            lemma_position(kb, p);
            if kb.contains(k) {
                assert(ka[p] == x);
                lemma_position(ka, p);
            } else {
                if p < at {
                    assert(ka[p] == x);
                    lemma_position(ka, p);
                } else {
                    assert(ka[p + 1] == x);
                    lemma_position(ka, p + 1);
                }
            }
        }
    }
    assert(keyed_map(after) =~= goal);
}

/// The first `n + 1` items of an ascending sequence are its first `n` with
/// the next one filed under a key that none of them has.
pub proof fn lemma_keyed_prefix<T: Keyed>(items: Seq<T>, n: int)
    requires
        ascending(key_seq(items)),
        0 <= n < items.len(),
    ensures
        ascending(key_seq(items.subrange(0, n))),
        ascending(key_seq(items.subrange(0, n + 1))),
        !keyed_map(items.subrange(0, n)).contains_key(items[n].key_view()),
        keyed_map(items.subrange(0, n + 1)) == keyed_map(items.subrange(0, n)).insert(
            items[n].key_view(),
            items[n],
        ),
{
    let short = items.subrange(0, n);
    let long = items.subrange(0, n + 1);
    let ks = key_seq(items);
    assert forall|i: int, j: int| 0 <= i < j < long.len() implies lex_lt(
        #[trigger] key_seq(long)[i],
        #[trigger] key_seq(long)[j],
    ) by {
        assert(ks[i] == key_seq(long)[i] && ks[j] == key_seq(long)[j]);
    }
    assert forall|i: int, j: int| 0 <= i < j < short.len() implies lex_lt(
        #[trigger] key_seq(short)[i],
        #[trigger] key_seq(short)[j],
    ) by {
        assert(ks[i] == key_seq(short)[i] && ks[j] == key_seq(short)[j]);
    }
    if keyed_map(short).contains_key(items[n].key_view()) {
        let p = choose|p: int| 0 <= p < short.len() && key_seq(short)[p] == items[n].key_view();
        assert(ks[p] == items[n].key_view() && ks[n] == items[n].key_view());
        lemma_ascending_distinct(ks, p, n);
    }
    assert(long =~= short.insert(n, items[n]));
    lemma_upsert_map(short, long, items[n], n);
}

/// The first place whose key is not below `key`.
pub fn lower_bound<T: Keyed>(items: &Vec<T>, key: &str) -> (at: usize)
    requires
        ascending(key_seq(items@)),
    ensures
        at <= items.len(),
        forall|i: int| 0 <= i < at ==> lex_lt(#[trigger] items[i].key_view(), key@),
        forall|i: int| at <= i < items.len() ==> !lex_lt(#[trigger] items[i].key_view(), key@),
{
    let ghost ks = key_seq(items@);
    let mut low: usize = 0;
    let mut high: usize = items.len();
    while low < high
        invariant
            low <= high <= items.len(),
            ks == key_seq(items@),
            ascending(ks),
            forall|i: int| 0 <= i < low ==> lex_lt(#[trigger] items[i].key_view(), key@),
            forall|i: int| high <= i < items.len() ==> !lex_lt(#[trigger] items[i].key_view(), key@),
        decreases high - low,
    {
        let mid: usize = low + (high - low) / 2;
        if str_less(items[mid].key_text(), key) {
            assert forall|i: int| 0 <= i < mid + 1 implies lex_lt(#[trigger] items[i].key_view(), key@) by {
                if i < mid {
                    assert(lex_lt(ks[i], ks[mid as int]));
                    lemma_lex_transitive(ks[i], ks[mid as int], key@);
                }
            }
            low = mid + 1;
        } else {
            assert forall|i: int| mid <= i < items.len() implies !lex_lt(#[trigger] items[i].key_view(), key@) by {
                if mid < i && lex_lt(items[i].key_view(), key@) {
                    assert(lex_lt(ks[mid as int], ks[i]));
                    lemma_lex_transitive(ks[mid as int], ks[i], key@);
                }
            }
            high = mid;
        }
    }
    low
}

/// Where `key` stands in `items`, if it does.
pub fn find_key<T: Keyed>(items: &Vec<T>, key: &str) -> (found: Option<usize>)
    requires
        ascending(key_seq(items@)),
    ensures
        match found {
            Some(at) => at < items.len() && items[at as int].key_view() == key@
                && position(key_seq(items@), key@) == at,
            None => !key_seq(items@).contains(key@),
        },
{
    let at = lower_bound(items, key);
    let ghost ks = key_seq(items@);
    if at < items.len() && str_same(items[at].key_text(), key) {
        proof {
            assert(ks[at as int] == key@);
            lemma_position(ks, at as int);
        }
        Some(at)
    } else {
        proof {
            if ks.contains(key@) {
                let j = choose|j: int| 0 <= j < ks.len() && ks[j] == key@;
                lemma_lex_irreflexive(key@);
                if j < at {
                    assert(lex_lt(items[j].key_view(), key@));
                } else if j > at {
                    assert(lex_lt(ks[at as int], ks[j]));
                    assert(!lex_lt(items[at as int].key_view(), key@));
                    lemma_lex_total(ks[at as int], key@);
                } else {
                    assert(items[at as int].key_view() == key@);
                }
            }
        }
        None
    }
}

/// Files `item` under its key: in place of the item that had the key, or at
/// the place that keeps the keys ascending.
pub fn upsert<T: Keyed>(items: &mut Vec<T>, item: T) -> (at: usize)
    requires
        ascending(key_seq(old(items)@)),
    ensures
        ascending(key_seq(final(items)@)),
        at < final(items).len(),
        at <= old(items).len(),
        final(items)@[at as int] == item,
        key_seq(old(items)@).contains(item.key_view()) ==> {
            &&& at == position(key_seq(old(items)@), item.key_view())
            &&& final(items)@ == old(items)@.update(at as int, item)
        },
        !key_seq(old(items)@).contains(item.key_view()) ==> final(items)@ == old(items)@.insert(
            at as int,
            item,
        ),
        keyed_map(final(items)@) == keyed_map(old(items)@).insert(item.key_view(), item),
{
    let ghost before = items@;
    let ghost ks = key_seq(before);
    let ghost k = item.key_view();
    let at = lower_bound(items, item.key_text());
    let hit = at < items.len() && str_same(items[at].key_text(), item.key_text());
    if hit {
        proof {
            assert(ks[at as int] == k);
            lemma_position(ks, at as int);
        }
        items[at] = item;
        proof {
            let after = key_seq(items@);
            assert(after =~= ks);
        }
    } else {
        proof {
            if ks.contains(k) {
                let j = choose|j: int| 0 <= j < ks.len() && ks[j] == k;
                lemma_lex_irreflexive(k);
                if j < at {
                    assert(lex_lt(before[j].key_view(), k));
                } else if j > at {
                    assert(lex_lt(ks[at as int], ks[j]));
                    assert(!lex_lt(before[at as int].key_view(), k));
                    lemma_lex_total(ks[at as int], k);
                } else {
                    assert(before[at as int].key_view() == k);
                }
            }
        }
        items.insert(at, item);
        proof {
            let after = key_seq(items@);
            assert forall|i: int, j: int| 0 <= i < j < after.len() implies lex_lt(
                #[trigger] after[i],
                #[trigger] after[j],
            ) by {
                if i < at && j == at {
                    assert(lex_lt(before[i].key_view(), k));
                } else if i == at {
                    assert(!lex_lt(before[j - 1].key_view(), k));
                    assert(ks[j - 1] != k);
                    lemma_lex_total(ks[j - 1], k);
                } else if i < at && j < at {
                    assert(lex_lt(ks[i], ks[j]));
                } else if i < at {
                    assert(lex_lt(ks[i], ks[j - 1]));
                } else {
                    assert(lex_lt(ks[i - 1], ks[j - 1]));
                }
            }
        }
    }
    proof {
        lemma_upsert_map(before, items@, item, at as int);
    }
    at
}

/// Takes the item filed under `key` out of `items`, if there is one.
pub fn remove_key<T: Keyed>(items: &mut Vec<T>, key: &str) -> (taken: Option<T>)
    requires
        ascending(key_seq(old(items)@)),
    ensures
        ascending(key_seq(final(items)@)),
        keyed_map(final(items)@) == keyed_map(old(items)@).remove(key@),
        match taken {
            Some(item) => keyed_map(old(items)@).contains_key(key@) && keyed_map(old(items)@)[key@]
                == item && exists|at: int|
                0 <= at < old(items).len() && final(items)@ == #[trigger] old(items)@.remove(at),
            None => !keyed_map(old(items)@).contains_key(key@) && final(items)@ == old(items)@,
        },
{
    let ghost before = items@;
    let ghost kb = key_seq(before);
    match find_key(items, key) {
        None => {
            assert(keyed_map(items@) =~= keyed_map(before).remove(key@));
            None
        },
        Some(at) => {
            proof {
                lemma_keyed_map_item(before, at as int);
            }
            let item = items.remove(at);
            proof {
                let after = items@;
                let ka = key_seq(after);
                assert(ka =~= kb.remove(at as int));
                assert forall|i: int, j: int| 0 <= i < j < ka.len() implies lex_lt(
                    #[trigger] ka[i],
                    #[trigger] ka[j],
                ) by {
                    let i0 = if i < at { i } else { i + 1 };
                    let j0 = if j < at { j } else { j + 1 };
                    assert(lex_lt(kb[i0], kb[j0]));
                }
                let goal = keyed_map(before).remove(key@);
                assert forall|x: Seq<char>| keyed_map(after).contains_key(x) <==> goal.contains_key(x) by {
                    if ka.contains(x) {
                        let p = choose|p: int| 0 <= p < ka.len() && ka[p] == x;
                        let p0 = if p < at { p } else { p + 1 };
                        assert(kb[p0] == x);
                        if x == key@ {
                            lemma_ascending_distinct(kb, p0, at as int);
                        }
                    }
                    if kb.contains(x) && x != key@ {
                        let p = choose|p: int| 0 <= p < kb.len() && kb[p] == x;
                        if p < at {
                            assert(ka[p] == x);
                        } else {
                            assert(p != at);
                            assert(ka[p - 1] == x);
                        }
                    }
                }
                assert forall|x: Seq<char>| keyed_map(after).contains_key(x) implies keyed_map(after)[x]
                    == goal[x] by {
                    let p = choose|p: int| 0 <= p < ka.len() && ka[p] == x;
                    lemma_position(ka, p);
                    let p0 = if p < at { p } else { p + 1 };
                    assert(kb[p0] == x);
                    lemma_position(kb, p0);
                }
                assert(keyed_map(after) =~= goal);
            }
            Some(item)
        },
    }
}

/// Two ascending sequences with the same members are the same sequence.
pub proof fn lemma_ascending_unique(a: Seq<Seq<char>>, b: Seq<Seq<char>>)
    requires
        ascending(a),
        ascending(b),
        forall|k: Seq<char>| a.contains(k) <==> b.contains(k),
    ensures
        a == b,
    decreases a.len(),
{
    if a.len() == 0 {
        if b.len() > 0 {
            assert(b.contains(b[0]));
        }
        assert(a =~= b);
    } else {
        let x = a.last();
        assert(a.contains(x)) by {
            assert(a[a.len() - 1] == x);
        }
        let j = choose|j: int| 0 <= j < b.len() && b[j] == x;
        let y = b.last();
        assert(b.contains(y)) by {
            assert(b[b.len() - 1] == y);
        }
        let i = choose|i: int| 0 <= i < a.len() && a[i] == y;
        // x is the greatest of a, y the greatest of b: they are the same
        if x != y {
            assert(i < a.len() - 1);
            assert(lex_lt(a[i], a[a.len() - 1]));
            assert(j < b.len() - 1);
            assert(lex_lt(b[j], b[b.len() - 1]));
            crate::text::lemma_lex_asymmetric(x, y);
        }
        let a0 = a.drop_last();
        let b0 = b.drop_last();
        assert forall|i: int, j: int| 0 <= i < j < a0.len() implies lex_lt(
            #[trigger] a0[i],
            #[trigger] a0[j],
        ) by {
            assert(a0[i] == a[i] && a0[j] == a[j]);
        }
        assert forall|i: int, j: int| 0 <= i < j < b0.len() implies lex_lt(
            #[trigger] b0[i],
            #[trigger] b0[j],
        ) by {
            assert(b0[i] == b[i] && b0[j] == b[j]);
        }
        assert forall|k: Seq<char>| a0.contains(k) <==> b0.contains(k) by {
            if a0.contains(k) {
                let p = choose|p: int| 0 <= p < a0.len() && a0[p] == k;
                assert(a[p] == k);
                assert(a.contains(k));
                let q = choose|q: int| 0 <= q < b.len() && b[q] == k;
                if q == b.len() - 1 {
                    lemma_ascending_distinct(a, p, a.len() - 1);
                }
                assert(b0[q] == k);
            }
            if b0.contains(k) {
                let q = choose|q: int| 0 <= q < b0.len() && b0[q] == k;
                assert(b[q] == k);
                assert(b.contains(k));
                let p = choose|p: int| 0 <= p < a.len() && a[p] == k;
                if p == a.len() - 1 {
                    lemma_ascending_distinct(b, q, b.len() - 1);
                }
                assert(a0[p] == k);
            }
        }
        lemma_ascending_unique(a0, b0);
        assert(a =~= a0.push(x));
        assert(b =~= b0.push(y));
    }
}

/// The members of `keys` in ascending order, where `keys` is finite.
pub open spec fn sorted_keys(keys: Set<Seq<char>>) -> Seq<Seq<char>> {
    choose|s: Seq<Seq<char>>| ascending(s) && forall|k: Seq<char>| s.contains(k) <==> keys.contains(k)
}

/// An ascending sequence is the sorted sequence of its members.
pub proof fn lemma_sorted_keys(s: Seq<Seq<char>>, keys: Set<Seq<char>>)
    requires
        ascending(s),
        forall|k: Seq<char>| s.contains(k) <==> keys.contains(k),
    ensures
        sorted_keys(keys) == s,
{
    let t = sorted_keys(keys);
    lemma_ascending_unique(s, t);
}

/// A finite set of keys that is not empty has a greatest member.
pub proof fn lemma_greatest_key(keys: Set<Seq<char>>) -> (top: Seq<char>)
    requires
        keys.finite(),
        keys.len() > 0,
    ensures
        keys.contains(top),
        forall|k: Seq<char>| keys.contains(k) && k != top ==> lex_lt(k, top),
    decreases keys.len(),
{
    let x = keys.choose();
    let rest = keys.remove(x);
    if rest.len() == 0 {
        assert forall|k: Seq<char>| keys.contains(k) && k != x implies lex_lt(k, x) by {
            assert(rest.contains(k));
        }
        x
    } else {
        let m = lemma_greatest_key(rest);
        crate::text::lemma_lex_total(x, m);
        if lex_lt(m, x) {
            assert forall|k: Seq<char>| keys.contains(k) && k != x implies lex_lt(k, x) by {
                assert(rest.contains(k));
                if k != m {
                    crate::text::lemma_lex_transitive(k, m, x);
                }
            }
            x
        } else {
            assert forall|k: Seq<char>| keys.contains(k) && k != m implies lex_lt(k, m) by {
                if k != x {
                    assert(rest.contains(k));
                }
            }
            m
        }
    }
}

/// A finite set of keys has its members in ascending order: `sorted_keys`
/// holds each of them once and nothing else.
pub proof fn lemma_sorted_exists(keys: Set<Seq<char>>)
    requires
        keys.finite(),
    ensures
        ascending(sorted_keys(keys)),
        forall|k: Seq<char>| sorted_keys(keys).contains(k) <==> keys.contains(k),
    decreases keys.len(),
{
    if keys.len() == 0 {
        let none = Seq::<Seq<char>>::empty();
        assert(ascending(none));
        assert forall|k: Seq<char>| none.contains(k) <==> keys.contains(k) by {
            if keys.contains(k) {
                assert(keys.remove(k).len() + 1 == keys.len());
            }
        }
    } else {
        let top = lemma_greatest_key(keys);
        let rest = keys.remove(top);
        lemma_sorted_exists(rest);
        let before = sorted_keys(rest);
        let all = before.push(top);
        assert forall|i: int, j: int| 0 <= i < j < all.len() implies lex_lt(
            #[trigger] all[i],
            #[trigger] all[j],
        ) by {
            assert(before.contains(before[i]));
            if j < before.len() {
                assert(lex_lt(before[i], before[j]));
            } else {
                assert(rest.contains(before[i]));
            }
        }
        assert forall|k: Seq<char>| all.contains(k) <==> keys.contains(k) by {
            if all.contains(k) {
                let i = choose|i: int| 0 <= i < all.len() && all[i] == k;
                if i < before.len() {
                    assert(before.contains(before[i]));
                }
            }
            if keys.contains(k) {
                if k == top {
                    assert(all[before.len() as int] == k);
                } else {
                    assert(rest.contains(k));
                    let i = choose|i: int| 0 <= i < before.len() && before[i] == k;
                    assert(all[i] == k);
                }
            }
        }
        assert(ascending(all));
    }
}

} // verus!
