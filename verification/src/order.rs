use vstd::prelude::*;
use crate::ast::OrderByClause;
use crate::row::{row_views, Row};
use crate::text::{lemma_lex_asymmetric, lemma_lex_total, lemma_lex_transitive, lex_lt, str_less};

verus! {

/// The text by which a row is ordered: its value under `column`, or the empty
/// text where it lacks the column.
pub open spec fn order_key(row: Map<Seq<char>, Seq<char>>, column: Seq<char>) -> Seq<char> {
    if row.contains_key(column) {
        row[column]
    } else {
        Seq::empty()
    }
}

/// Whether the key `a` must stand before the key `b`.
pub open spec fn goes_before(a: Seq<char>, b: Seq<char>, descending: bool) -> bool {
    if descending {
        lex_lt(b, a)
    } else {
        lex_lt(a, b)
    }
}

/// `sorted` with `row` put behind every row that need not stand behind it.
pub open spec fn placed(
    sorted: Seq<Map<Seq<char>, Seq<char>>>,
    row: Map<Seq<char>, Seq<char>>,
    column: Seq<char>,
    descending: bool,
) -> Seq<Map<Seq<char>, Seq<char>>>
    decreases sorted.len(),
{
    if sorted.len() == 0 {
        seq![row]
    } else if goes_before(order_key(row, column), order_key(sorted.last(), column), descending) {
        placed(sorted.drop_last(), row, column, descending).push(sorted.last())
    } else {
        sorted.push(row)
    }
}

/// The rows in the order of their keys, rows with equal keys in the order in
/// which they came.
pub open spec fn ordered(
    rows: Seq<Map<Seq<char>, Seq<char>>>,
    column: Seq<char>,
    descending: bool,
) -> Seq<Map<Seq<char>, Seq<char>>>
    decreases rows.len(),
{
    if rows.len() == 0 {
        Seq::empty()
    } else {
        placed(ordered(rows.drop_last(), column, descending), rows.last(), column, descending)
    }
}

/// No row stands behind a row that must stand behind it.
pub open spec fn in_order(rows: Seq<Map<Seq<char>, Seq<char>>>, column: Seq<char>, descending: bool) -> bool {
    forall|i: int, j: int|
        0 <= i < j < rows.len() ==> !goes_before(
            order_key(#[trigger] rows[j], column),
            order_key(#[trigger] rows[i], column),
            descending,
        )
}

/// Where `row` must stand before all rows from place `at` on and need not
/// stand before the row in front of that place, placing it puts it at `at`.
pub proof fn lemma_placed_at(
    sorted: Seq<Map<Seq<char>, Seq<char>>>,
    row: Map<Seq<char>, Seq<char>>,
    column: Seq<char>,
    descending: bool,
    at: int,
)
    requires
        0 <= at <= sorted.len(),
        forall|q: int|
            at <= q < sorted.len() ==> goes_before(
                order_key(row, column),
                order_key(#[trigger] sorted[q], column),
                descending,
            ),
        at > 0 ==> !goes_before(order_key(row, column), order_key(sorted[at - 1], column), descending),
    ensures
        placed(sorted, row, column, descending) == sorted.insert(at, row),
    decreases sorted.len(),
{
    if sorted.len() == 0 {
        assert(sorted.insert(0, row) =~= seq![row]);
    } else if goes_before(order_key(row, column), order_key(sorted.last(), column), descending) {
        assert(at < sorted.len());
        let init = sorted.drop_last();
        assert forall|q: int| at <= q < init.len() implies goes_before(
            order_key(row, column),
            order_key(#[trigger] init[q], column),
            descending,
        ) by {
            assert(init[q] == sorted[q]);
        }
        if at > 0 {
            assert(init[at - 1] == sorted[at - 1]);
        }
        lemma_placed_at(init, row, column, descending, at);
        assert(init.insert(at, row).push(sorted.last()) =~= sorted.insert(at, row));
    } else {
        if at < sorted.len() {
            assert(goes_before(
                order_key(row, column),
                order_key(sorted[sorted.len() - 1], column),
                descending,
            ));
        }
        assert(sorted.insert(sorted.len() as int, row) =~= sorted.push(row));
    }
}

/// Sorts the rows by the text they hold under the ordering column, ascending
/// or descending; a row that lacks the column sorts as if it held the empty
/// text. Rows with equal texts keep their order.
pub fn apply_order_by(rows: Vec<Row>, order_by: &OrderByClause) -> (sorted: Vec<Row>)
    requires
        forall|i: int| 0 <= i < rows.len() ==> (#[trigger] rows[i]).wf(),
    ensures
        forall|i: int| 0 <= i < sorted.len() ==> (#[trigger] sorted[i]).wf(),
        row_views(sorted@) == ordered(row_views(rows@), order_by.column@, order_by.descending),
{
    let ghost all = row_views(rows@);
    let ghost column = order_by.column@;
    let descending = order_by.descending;
    let empty = String::new();
    let mut sorted: Vec<Row> = Vec::new();
    let mut i: usize = 0;
    proof {
        assert(all.subrange(0, 0) =~= Seq::<Map<Seq<char>, Seq<char>>>::empty());
        assert(row_views(sorted@) =~= Seq::<Map<Seq<char>, Seq<char>>>::empty());
    }
    while i < rows.len()
        invariant
            i <= rows.len(),
            all == row_views(rows@),
            column == order_by.column@,
            descending == order_by.descending,
            empty@ == Seq::<char>::empty(),
            forall|k: int| 0 <= k < rows.len() ==> (#[trigger] rows[k]).wf(),
            forall|k: int| 0 <= k < sorted.len() ==> (#[trigger] sorted[k]).wf(),
            row_views(sorted@) == ordered(all.subrange(0, i as int), column, descending),
        decreases rows.len() - i,
    {
        let ghost next = all.subrange(0, i + 1);
        let ghost before = row_views(sorted@);
        proof {
            assert(next.drop_last() =~= all.subrange(0, i as int));
            assert(next.last() == rows[i as int]@);
        }
        let key = match rows[i].get(order_by.column.as_str()) {
            Some(text) => text,
            None => &empty,
        };
        assert(key@ == order_key(rows[i as int]@, column));
        let mut at: usize = sorted.len();
        let mut searching = true;
        while at > 0 && searching
            invariant
                at <= sorted.len(),
                before == row_views(sorted@),
                column == order_by.column@,
                descending == order_by.descending,
                empty@ == Seq::<char>::empty(),
                key@ == order_key(rows[i as int]@, column),
                forall|k: int| 0 <= k < sorted.len() ==> (#[trigger] sorted[k]).wf(),
                forall|q: int|
                    at <= q < before.len() ==> goes_before(
                        key@,
                        order_key(#[trigger] before[q], column),
                        descending,
                    ),
                !searching ==> at > 0 && !goes_before(
                    key@,
                    order_key(before[at - 1], column),
                    descending,
                ),
            decreases at + if searching { 1nat } else { 0nat },
        {
            let other = match sorted[at - 1].get(order_by.column.as_str()) {
                Some(text) => text,
                None => &empty,
            };
            assert(before[at - 1] == sorted[at - 1]@);
            let first = if descending {
                str_less(other.as_str(), key.as_str())
            } else {
                str_less(key.as_str(), other.as_str())
            };
            if first {
                at = at - 1;
            } else {
                searching = false;
            }
        }
        proof {
            lemma_placed_at(before, rows[i as int]@, column, descending, at as int);
        }
        sorted.insert(at, rows[i].clone());
        assert(row_views(sorted@) =~= before.insert(at as int, rows[i as int]@));
        i = i + 1;
    }
    assert(all.subrange(0, rows.len() as int) =~= all);
    sorted
}

proof fn lemma_placed_props(
    sorted: Seq<Map<Seq<char>, Seq<char>>>,
    row: Map<Seq<char>, Seq<char>>,
    column: Seq<char>,
    descending: bool,
)
    requires
        in_order(sorted, column, descending),
    ensures
        in_order(placed(sorted, row, column, descending), column, descending),
        placed(sorted, row, column, descending).to_multiset() == sorted.to_multiset().insert(row),
        placed(sorted, row, column, descending).len() == sorted.len() + 1,
        forall|k: int|
            0 <= k < sorted.len() + 1 ==> #[trigger] placed(sorted, row, column, descending)[k] == row
                || sorted.contains(placed(sorted, row, column, descending)[k]),
    decreases sorted.len(),
{
    broadcast use vstd::seq_lib::to_multiset_build;

    let out = placed(sorted, row, column, descending);
    let key = order_key(row, column);
    if sorted.len() == 0 {
        assert(sorted =~= Seq::<Map<Seq<char>, Seq<char>>>::empty());
        assert(out =~= sorted.push(row));
        assert(out.to_multiset() =~= sorted.to_multiset().insert(row));
    } else if goes_before(key, order_key(sorted.last(), column), descending) {
        let init = sorted.drop_last();
        assert(in_order(init, column, descending)) by {
            assert forall|i: int, j: int| 0 <= i < j < init.len() implies !goes_before(
                order_key(#[trigger] init[j], column),
                order_key(#[trigger] init[i], column),
                descending,
            ) by {
                assert(init[i] == sorted[i] && init[j] == sorted[j]);
            }
        }
        lemma_placed_props(init, row, column, descending);
        let inner = placed(init, row, column, descending);
        assert(sorted =~= init.push(sorted.last()));
        assert(out.to_multiset() =~= sorted.to_multiset().insert(row)) by {
            assert(out == inner.push(sorted.last()));
            assert(sorted.to_multiset() =~= init.to_multiset().insert(sorted.last()));
        }
        assert forall|k: int| 0 <= k < sorted.len() + 1 implies #[trigger] out[k] == row
            || sorted.contains(out[k]) by {
            if k < inner.len() {
                if inner[k] != row {
                    let w = choose|w: int| 0 <= w < init.len() && init[w] == inner[k];
                    assert(sorted[w] == inner[k]);
                }
            } else {
                assert(sorted[sorted.len() - 1] == out[k]);
            }
        }
        assert forall|i: int, j: int| 0 <= i < j < out.len() implies !goes_before(
            order_key(#[trigger] out[j], column),
            order_key(#[trigger] out[i], column),
            descending,
        ) by {
            if j < inner.len() {
                assert(out[i] == inner[i] && out[j] == inner[j]);
            } else {
                // out[j] is the last row of `sorted`; out[i] is `row` or a row of `init`
                assert(out[i] == inner[i]);
                let last_key = order_key(sorted.last(), column);
                if inner[i] == row {
                    if descending {
                        lemma_lex_asymmetric(last_key, key);
                    } else {
                        lemma_lex_asymmetric(key, last_key);
                    }
                } else {
                    let w = choose|w: int| 0 <= w < init.len() && init[w] == inner[i];
                    assert(sorted[w] == inner[i]);
                    assert(!goes_before(
                        order_key(sorted[sorted.len() - 1], column),
                        order_key(sorted[w], column),
                        descending,
                    ));
                }
            }
        }
    } else {
        assert forall|k: int| 0 <= k < sorted.len() + 1 implies #[trigger] out[k] == row
            || sorted.contains(out[k]) by {
            if k < sorted.len() {
                assert(sorted[k] == out[k]);
            }
        }
        assert forall|i: int, j: int| 0 <= i < j < out.len() implies !goes_before(
            order_key(#[trigger] out[j], column),
            order_key(#[trigger] out[i], column),
            descending,
        ) by {
            if j < sorted.len() {
                assert(out[i] == sorted[i] && out[j] == sorted[j]);
            } else {
                // out[j] is `row`, which need not stand before the last row of `sorted`
                let n = sorted.len() - 1;
                let last_key = order_key(sorted.last(), column);
                let own = order_key(out[i], column);
                assert(out[i] == sorted[i]);
                if i < n {
                    assert(!goes_before(order_key(sorted[n], column), order_key(sorted[i], column), descending));
                    if goes_before(key, own, descending) {
                        lemma_order_step(key, own, last_key, descending);
                    }
                }
            }
        }
        assert(out.to_multiset() =~= sorted.to_multiset().insert(row));
    }
}

/// If `a` must stand before `b`, and `c` need not stand before `b`, then `a`
/// must stand before `c`.
proof fn lemma_order_step(a: Seq<char>, b: Seq<char>, c: Seq<char>, descending: bool)
    requires
        goes_before(a, b, descending),
        !goes_before(c, b, descending),
    ensures
        goes_before(a, c, descending),
{
    lemma_lex_total(b, c);
    if descending {
        // b < a, not b < c
        if b != c {
            lemma_lex_transitive(c, b, a);
        }
    } else {
        // a < b, not c < b
        if b != c {
            lemma_lex_transitive(a, b, c);
        }
    }
}

/// Ordering keeps every row, each as often as it came, and leaves no row
/// behind a row that must stand behind it.
pub proof fn law_ordered_is_sorted(
    rows: Seq<Map<Seq<char>, Seq<char>>>,
    column: Seq<char>,
    descending: bool,
)
    ensures
        in_order(ordered(rows, column, descending), column, descending),
        ordered(rows, column, descending).to_multiset() == rows.to_multiset(),
        ordered(rows, column, descending).len() == rows.len(),
    decreases rows.len(),
{
    broadcast use vstd::seq_lib::to_multiset_build;

    if rows.len() > 0 {
        law_ordered_is_sorted(rows.drop_last(), column, descending);
        lemma_placed_props(ordered(rows.drop_last(), column, descending), rows.last(), column, descending);
        assert(rows =~= rows.drop_last().push(rows.last()));
        assert(rows.to_multiset() =~= rows.drop_last().to_multiset().insert(rows.last()));
    } else {
        assert(ordered(rows, column, descending) =~= rows);
    }
}

/// `order`, the places of rows that are in order, with the place `i` put
/// behind every place whose row need not stand behind the row at `i`.
pub open spec fn placed_index(
    rows: Seq<Map<Seq<char>, Seq<char>>>,
    order: Seq<int>,
    i: int,
    column: Seq<char>,
    descending: bool,
) -> Seq<int>
    decreases order.len(),
{
    if order.len() == 0 {
        seq![i]
    } else if goes_before(
        order_key(rows[i], column),
        order_key(rows[order.last()], column),
        descending,
    ) {
        placed_index(rows, order.drop_last(), i, column, descending).push(order.last())
    } else {
        order.push(i)
    }
}

/// For each place of the first `n` rows in order, the place at which its row came.
pub open spec fn arrival(
    rows: Seq<Map<Seq<char>, Seq<char>>>,
    column: Seq<char>,
    descending: bool,
    n: nat,
) -> Seq<int>
    decreases n,
{
    if n == 0 {
        Seq::empty()
    } else {
        placed_index(rows, arrival(rows, column, descending, (n - 1) as nat), n - 1, column, descending)
    }
}

/// The rows at the places `order`.
pub open spec fn picked(rows: Seq<Map<Seq<char>, Seq<char>>>, order: Seq<int>) -> Seq<
    Map<Seq<char>, Seq<char>>,
> {
    Seq::new(order.len(), |k: int| rows[order[k]])
}

/// The places `order` lie below `bound`, none of them twice; their rows are
/// in order, and rows with equal keys stand as they came.
pub open spec fn stable_order(
    rows: Seq<Map<Seq<char>, Seq<char>>>,
    order: Seq<int>,
    column: Seq<char>,
    descending: bool,
    bound: int,
) -> bool {
    &&& forall|k: int| 0 <= k < order.len() ==> 0 <= #[trigger] order[k] < bound
    &&& forall|k: int, l: int| 0 <= k < l < order.len() ==> #[trigger] order[k] != #[trigger] order[l]
    &&& forall|k: int, l: int|
        0 <= k < l < order.len() ==> !goes_before(
            order_key(rows[#[trigger] order[l]], column),
            order_key(rows[#[trigger] order[k]], column),
            descending,
        )
    &&& forall|k: int, l: int|
        0 <= k < l < order.len() && order_key(rows[#[trigger] order[k]], column) == order_key(
            rows[#[trigger] order[l]],
            column,
        ) ==> order[k] < order[l]
}

proof fn lemma_placed_index(
    rows: Seq<Map<Seq<char>, Seq<char>>>,
    order: Seq<int>,
    i: int,
    column: Seq<char>,
    descending: bool,
)
    requires
        0 <= i < rows.len(),
        stable_order(rows, order, column, descending, i),
    ensures
        stable_order(rows, placed_index(rows, order, i, column, descending), column, descending, i + 1),
        placed_index(rows, order, i, column, descending).len() == order.len() + 1,
        picked(rows, placed_index(rows, order, i, column, descending)) == placed(
            picked(rows, order),
            rows[i],
            column,
            descending,
        ),
        forall|k: int|
            0 <= k < order.len() + 1 ==> #[trigger] placed_index(rows, order, i, column, descending)[k]
                == i || order.contains(placed_index(rows, order, i, column, descending)[k]),
    decreases order.len(),
{
    let out = placed_index(rows, order, i, column, descending);
    let key = order_key(rows[i], column);
    if order.len() == 0 {
        assert(picked(rows, out) =~= placed(picked(rows, order), rows[i], column, descending));
    } else {
        let last = order.last();
        let n = order.len() - 1;
        assert(order[n] == last);
        let last_key = order_key(rows[last], column);
        assert(picked(rows, order).last() == rows[last]);
        assert(picked(rows, order).drop_last() =~= picked(rows, order.drop_last()));
        if goes_before(key, last_key, descending) {
            let init = order.drop_last();
            assert(stable_order(rows, init, column, descending, i)) by {
                assert forall|k: int| 0 <= k < init.len() implies 0 <= #[trigger] init[k] < i by {
                    assert(init[k] == order[k]);
                }
                assert forall|k: int, l: int| 0 <= k < l < init.len() implies #[trigger] init[k]
                    != #[trigger] init[l] by {
                    assert(init[k] == order[k] && init[l] == order[l]);
                }
                assert forall|k: int, l: int| 0 <= k < l < init.len() implies !goes_before(
                    order_key(rows[#[trigger] init[l]], column),
                    order_key(rows[#[trigger] init[k]], column),
                    descending,
                ) by {
                    assert(init[k] == order[k] && init[l] == order[l]);
                }
                assert forall|k: int, l: int|
                    0 <= k < l < init.len() && order_key(rows[#[trigger] init[k]], column)
                        == order_key(rows[#[trigger] init[l]], column) implies init[k] < init[l] by {
                    assert(init[k] == order[k] && init[l] == order[l]);
                }
            }
            lemma_placed_index(rows, init, i, column, descending);
            let inner = placed_index(rows, init, i, column, descending);
            assert(out == inner.push(last));
            assert(picked(rows, out) =~= picked(rows, inner).push(rows[last]));
            // where each place of `inner` comes from
            assert forall|k: int| 0 <= k < inner.len() implies inner[k] == i || exists|w: int|
                0 <= w < n && order[w] == #[trigger] inner[k] by {
                if inner[k] != i {
                    let w = choose|w: int| 0 <= w < init.len() && init[w] == inner[k];
                    assert(order[w] == inner[k]);
                }
            }
            assert forall|k: int| 0 <= k < out.len() implies #[trigger] out[k] == i || order.contains(
                out[k],
            ) by {
                if k < inner.len() {
                    if inner[k] != i {
                        let w = choose|w: int| 0 <= w < n && order[w] == inner[k];
                        assert(order[w] == out[k]);
                    }
                } else {
                    assert(order[n] == out[k]);
                }
            }
            assert forall|k: int| 0 <= k < out.len() implies 0 <= #[trigger] out[k] < i + 1 by {
                if k < inner.len() {
                    assert(out[k] == inner[k]);
                }
            }
            assert forall|k: int, l: int| 0 <= k < l < out.len() implies #[trigger] out[k]
                != #[trigger] out[l] by {
                if l < inner.len() {
                    assert(out[k] == inner[k] && out[l] == inner[l]);
                } else {
                    assert(out[k] == inner[k]);
                    if inner[k] != i {
                        let w = choose|w: int| 0 <= w < n && order[w] == inner[k];
                        assert(order[w] != order[n]);
                    }
                }
            }
            assert forall|k: int, l: int| 0 <= k < l < out.len() implies !goes_before(
                order_key(rows[#[trigger] out[l]], column),
                order_key(rows[#[trigger] out[k]], column),
                descending,
            ) by {
                if l < inner.len() {
                    assert(out[k] == inner[k] && out[l] == inner[l]);
                } else {
                    assert(out[k] == inner[k]);
                    if inner[k] == i {
                        if descending {
                            lemma_lex_asymmetric(last_key, key);
                        } else {
                            lemma_lex_asymmetric(key, last_key);
                        }
                    } else {
                        let w = choose|w: int| 0 <= w < n && order[w] == inner[k];
                        assert(!goes_before(
                            order_key(rows[order[n]], column),
                            order_key(rows[order[w]], column),
                            descending,
                        ));
                    }
                }
            }
            assert forall|k: int, l: int|
                0 <= k < l < out.len() && order_key(rows[#[trigger] out[k]], column) == order_key(
                    rows[#[trigger] out[l]],
                    column,
                ) implies out[k] < out[l] by {
                if l < inner.len() {
                    assert(out[k] == inner[k] && out[l] == inner[l]);
                } else {
                    assert(out[k] == inner[k]);
                    if inner[k] == i {
                        crate::text::lemma_lex_irreflexive(key);
                    } else {
                        let w = choose|w: int| 0 <= w < n && order[w] == inner[k];
                        assert(order[w] < order[n]);
                    }
                }
            }
        } else {
            assert(out == order.push(i));
            assert(picked(rows, out) =~= picked(rows, order).push(rows[i]));
            assert forall|k: int| 0 <= k < out.len() implies #[trigger] out[k] == i || order.contains(
                out[k],
            ) by {
                if k < order.len() {
                    assert(order[k] == out[k]);
                }
            }
            assert forall|k: int| 0 <= k < out.len() implies 0 <= #[trigger] out[k] < i + 1 by {
                if k < order.len() {
                    assert(out[k] == order[k]);
                }
            }
            assert forall|k: int, l: int| 0 <= k < l < out.len() implies #[trigger] out[k]
                != #[trigger] out[l] by {
                assert(out[k] == order[k]);
                if l < order.len() {
                    assert(out[l] == order[l]);
                }
            }
            assert forall|k: int, l: int| 0 <= k < l < out.len() implies !goes_before(
                order_key(rows[#[trigger] out[l]], column),
                order_key(rows[#[trigger] out[k]], column),
                descending,
            ) by {
                assert(out[k] == order[k]);
                if l < order.len() {
                    assert(out[l] == order[l]);
                } else {
                    let own = order_key(rows[order[k]], column);
                    if k < n && goes_before(key, own, descending) {
                        assert(!goes_before(
                            order_key(rows[order[n]], column),
                            order_key(rows[order[k]], column),
                            descending,
                        ));
                        lemma_order_step(key, own, last_key, descending);
                    }
                }
            }
            assert forall|k: int, l: int|
                0 <= k < l < out.len() && order_key(rows[#[trigger] out[k]], column) == order_key(
                    rows[#[trigger] out[l]],
                    column,
                ) implies out[k] < out[l] by {
                assert(out[k] == order[k]);
                if l < order.len() {
                    assert(out[l] == order[l]);
                }
            }
        }
    }
}

/// Ordering is stable: each row of the result is the row that came at the
/// place that `arrival` names; every place is named once; and of two rows
/// with equal keys the one that came first stands first.
pub proof fn law_ordered_is_stable(
    rows: Seq<Map<Seq<char>, Seq<char>>>,
    column: Seq<char>,
    descending: bool,
    n: nat,
)
    requires
        n <= rows.len(),
    ensures
        arrival(rows, column, descending, n).len() == n,
        stable_order(rows, arrival(rows, column, descending, n), column, descending, n as int),
        ordered(rows.subrange(0, n as int), column, descending) == picked(
            rows,
            arrival(rows, column, descending, n),
        ),
    decreases n,
{
    if n > 0 {
        law_ordered_is_stable(rows, column, descending, (n - 1) as nat);
        lemma_placed_index(rows, arrival(rows, column, descending, (n - 1) as nat), n - 1, column, descending);
        let part = rows.subrange(0, n as int);
        assert(part.drop_last() =~= rows.subrange(0, n - 1));
        assert(part.last() == rows[n - 1]);
    } else {
        assert(rows.subrange(0, 0) =~= Seq::<Map<Seq<char>, Seq<char>>>::empty());
        assert(picked(rows, arrival(rows, column, descending, 0)) =~= Seq::<
            Map<Seq<char>, Seq<char>>,
        >::empty());
    }
}

} // verus!
