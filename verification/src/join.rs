use vstd::prelude::*;
use vstd::string::StringExecFns;
use crate::ast::{JoinClause, JoinType};
use crate::row::{row_views, Row};
use crate::text::{last_segment, last_segment_text, string_same, text_views};

verus! {

/// The name of the column `name` of the joined table `table` in a joined row.
pub open spec fn qualified(table: Seq<char>, name: Seq<char>) -> Seq<char> {
    table + "."@ + name
}

/// Whether `name` is the name of some column of the joined table `table`.
pub open spec fn is_qualified(table: Seq<char>, name: Seq<char>) -> bool {
    name.len() > table.len() && name.subrange(0, table.len() as int + 1) == table + "."@
}

/// The column of the joined table that the joined row's column `name` holds.
pub open spec fn unqualified(table: Seq<char>, name: Seq<char>) -> Seq<char> {
    name.subrange(table.len() as int + 1, name.len() as int)
}

/// The columns of `row`, each under its name in a row joined with `table`.
pub open spec fn prefixed(row: Map<Seq<char>, Seq<char>>, table: Seq<char>) -> Map<
    Seq<char>,
    Seq<char>,
> {
    Map::new(
        |q: Seq<char>| is_qualified(table, q) && row.contains_key(unqualified(table, q)),
        |q: Seq<char>| row[unqualified(table, q)],
    )
}

/// The columns of `row`, each holding the text `NULL`.
pub open spec fn nulls(row: Map<Seq<char>, Seq<char>>) -> Map<Seq<char>, Seq<char>> {
    Map::new(|k: Seq<char>| row.contains_key(k), |k: Seq<char>| "NULL"@)
}

/// Two rows agree on their join columns: both lack them, or both hold the
/// same text.
pub open spec fn join_matches(
    left: Map<Seq<char>, Seq<char>>,
    right: Map<Seq<char>, Seq<char>>,
    left_column: Seq<char>,
    right_column: Seq<char>,
) -> bool {
    if left.contains_key(left_column) {
        right.contains_key(right_column) && left[left_column] == right[right_column]
    } else {
        !right.contains_key(right_column)
    }
}

/// A left row with a right row: the left row's columns under their own names
/// and the right row's under the joined table's.
pub open spec fn combined(
    left: Map<Seq<char>, Seq<char>>,
    right: Map<Seq<char>, Seq<char>>,
    table: Seq<char>,
) -> Map<Seq<char>, Seq<char>> {
    left.union_prefer_right(prefixed(right, table))
}

/// A left row that no right row matches: `NULL` under each column that the
/// first right row has; nothing is added where there is no right row.
pub open spec fn left_alone(
    left: Map<Seq<char>, Seq<char>>,
    rights: Seq<Map<Seq<char>, Seq<char>>>,
    table: Seq<char>,
) -> Map<Seq<char>, Seq<char>> {
    if rights.len() == 0 {
        left
    } else {
        combined(left, nulls(rights[0]), table)
    }
}

/// A right row that no left row matches: `NULL` under each column that the
/// first left row has; nothing is added where there is no left row.
pub open spec fn right_alone(
    right: Map<Seq<char>, Seq<char>>,
    lefts: Seq<Map<Seq<char>, Seq<char>>>,
    table: Seq<char>,
) -> Map<Seq<char>, Seq<char>> {
    if lefts.len() == 0 {
        combined(Map::empty(), right, table)
    } else {
        combined(nulls(lefts[0]), right, table)
    }
}

/// The columns that a join compares and the name of the joined table.
pub struct JoinOn {
    pub left_column: Seq<char>,
    pub right_column: Seq<char>,
    pub table: Seq<char>,
    /// Every pair counts as a match: a cross join.
    pub every: bool,
}

impl JoinOn {
    pub open spec fn pairs(self, left: Map<Seq<char>, Seq<char>>, right: Map<Seq<char>, Seq<char>>) -> bool {
        self.every || join_matches(left, right, self.left_column, self.right_column)
    }
}

/// The joined rows of one left row, in the order of the right rows.
pub open spec fn matches_of(
    on: JoinOn,
    left: Map<Seq<char>, Seq<char>>,
    rights: Seq<Map<Seq<char>, Seq<char>>>,
) -> Seq<Map<Seq<char>, Seq<char>>>
    decreases rights.len(),
{
    if rights.len() == 0 {
        Seq::empty()
    } else if on.pairs(left, rights.last()) {
        matches_of(on, left, rights.drop_last()).push(combined(left, rights.last(), on.table))
    } else {
        matches_of(on, left, rights.drop_last())
    }
}

/// The joined rows of one right row, in the order of the left rows.
pub open spec fn matches_to(
    on: JoinOn,
    right: Map<Seq<char>, Seq<char>>,
    lefts: Seq<Map<Seq<char>, Seq<char>>>,
) -> Seq<Map<Seq<char>, Seq<char>>>
    decreases lefts.len(),
{
    if lefts.len() == 0 {
        Seq::empty()
    } else if on.pairs(lefts.last(), right) {
        matches_to(on, right, lefts.drop_last()).push(combined(lefts.last(), right, on.table))
    } else {
        matches_to(on, right, lefts.drop_last())
    }
}

/// The number of right rows that pair with `left`.
pub open spec fn match_count(
    on: JoinOn,
    left: Map<Seq<char>, Seq<char>>,
    rights: Seq<Map<Seq<char>, Seq<char>>>,
) -> nat
    decreases rights.len(),
{
    if rights.len() == 0 {
        0
    } else if on.pairs(left, rights.last()) {
        match_count(on, left, rights.drop_last()) + 1
    } else {
        match_count(on, left, rights.drop_last())
    }
}

/// The number of pairs of a left and a right row that pair.
pub open spec fn pair_count(
    on: JoinOn,
    lefts: Seq<Map<Seq<char>, Seq<char>>>,
    rights: Seq<Map<Seq<char>, Seq<char>>>,
) -> nat
    decreases lefts.len(),
{
    if lefts.len() == 0 {
        0
    } else {
        pair_count(on, lefts.drop_last(), rights) + match_count(on, lefts.last(), rights)
    }
}

/// The block of one left row in a join that keeps unmatched left rows.
pub open spec fn left_block(
    on: JoinOn,
    left: Map<Seq<char>, Seq<char>>,
    rights: Seq<Map<Seq<char>, Seq<char>>>,
) -> Seq<Map<Seq<char>, Seq<char>>> {
    if matches_of(on, left, rights).len() == 0 {
        seq![left_alone(left, rights, on.table)]
    } else {
        matches_of(on, left, rights)
    }
}

/// The block of one right row in a join that keeps unmatched right rows.
pub open spec fn right_block(
    on: JoinOn,
    right: Map<Seq<char>, Seq<char>>,
    lefts: Seq<Map<Seq<char>, Seq<char>>>,
) -> Seq<Map<Seq<char>, Seq<char>>> {
    if matches_to(on, right, lefts).len() == 0 {
        seq![right_alone(right, lefts, on.table)]
    } else {
        matches_to(on, right, lefts)
    }
}

/// Inner and cross join: for each left row in turn, its joined rows.
pub open spec fn inner_rows(
    on: JoinOn,
    lefts: Seq<Map<Seq<char>, Seq<char>>>,
    rights: Seq<Map<Seq<char>, Seq<char>>>,
) -> Seq<Map<Seq<char>, Seq<char>>>
    decreases lefts.len(),
{
    if lefts.len() == 0 {
        Seq::empty()
    } else {
        inner_rows(on, lefts.drop_last(), rights) + matches_of(on, lefts.last(), rights)
    }
}

/// Left join: for each left row in turn, its joined rows, or the row alone
/// where it has none.
pub open spec fn left_join_rows(
    on: JoinOn,
    lefts: Seq<Map<Seq<char>, Seq<char>>>,
    rights: Seq<Map<Seq<char>, Seq<char>>>,
) -> Seq<Map<Seq<char>, Seq<char>>>
    decreases lefts.len(),
{
    if lefts.len() == 0 {
        Seq::empty()
    } else {
        left_join_rows(on, lefts.drop_last(), rights) + left_block(on, lefts.last(), rights)
    }
}

/// Right join: for each of the first `n` right rows in turn, its joined
/// rows, or the row alone where it has none.
pub open spec fn right_join_rows(
    on: JoinOn,
    lefts: Seq<Map<Seq<char>, Seq<char>>>,
    rights: Seq<Map<Seq<char>, Seq<char>>>,
    n: nat,
) -> Seq<Map<Seq<char>, Seq<char>>>
    recommends
        n <= rights.len(),
    decreases n,
{
    if n == 0 {
        Seq::empty()
    } else {
        right_join_rows(on, lefts, rights, (n - 1) as nat) + right_block(on, rights[n - 1], lefts)
    }
}

/// Of the first `n` right rows those that no left row matches, each alone.
pub open spec fn lone_rights(
    on: JoinOn,
    lefts: Seq<Map<Seq<char>, Seq<char>>>,
    rights: Seq<Map<Seq<char>, Seq<char>>>,
    n: nat,
) -> Seq<Map<Seq<char>, Seq<char>>>
    recommends
        n <= rights.len(),
    decreases n,
{
    if n == 0 {
        Seq::empty()
    } else if matches_to(on, rights[n - 1], lefts).len() == 0 {
        lone_rights(on, lefts, rights, (n - 1) as nat).push(right_alone(rights[n - 1], lefts, on.table))
    } else {
        lone_rights(on, lefts, rights, (n - 1) as nat)
    }
}

/// The rows of a join of `lefts` with `rights`.
pub open spec fn joined(
    kind: JoinType,
    on: JoinOn,
    lefts: Seq<Map<Seq<char>, Seq<char>>>,
    rights: Seq<Map<Seq<char>, Seq<char>>>,
) -> Seq<Map<Seq<char>, Seq<char>>> {
    match kind {
        JoinType::Inner => inner_rows(on, lefts, rights),
        JoinType::Cross => inner_rows(on, lefts, rights),
        JoinType::Left => left_join_rows(on, lefts, rights),
        JoinType::Right => right_join_rows(on, lefts, rights, rights.len()),
        JoinType::Full => left_join_rows(on, lefts, rights) + lone_rights(on, lefts, rights, rights.len()),
    }
}

/// What a join clause compares: the last dotted segment of each column
/// reference; a cross join compares nothing.
pub open spec fn join_on(clause: JoinClause) -> JoinOn {
    JoinOn {
        left_column: last_segment(clause.on_left@),
        right_column: last_segment(clause.on_right@),
        table: clause.table@,
        every: clause.join_type is Cross,
    }
}

/// The map that holds, for each of the first `n` of `names`, the column of
/// `row` under its qualified name.
pub open spec fn prefixed_first(
    row: Map<Seq<char>, Seq<char>>,
    table: Seq<char>,
    names: Seq<Seq<char>>,
    n: nat,
) -> Map<Seq<char>, Seq<char>>
    recommends
        n <= names.len(),
    decreases n,
{
    if n == 0 {
        Map::empty()
    } else {
        prefixed_first(row, table, names, (n - 1) as nat).insert(
            qualified(table, names[n - 1]),
            row[names[n - 1]],
        )
    }
}

proof fn lemma_qualified(table: Seq<char>, name: Seq<char>)
    ensures
        is_qualified(table, qualified(table, name)),
        unqualified(table, qualified(table, name)) == name,
{
    reveal_strlit(".");
    let q = qualified(table, name);
    assert(q.subrange(0, table.len() as int + 1) =~= table + "."@);
    assert(unqualified(table, q) =~= name);
}

proof fn lemma_unqualified(table: Seq<char>, q: Seq<char>)
    requires
        is_qualified(table, q),
    ensures
        qualified(table, unqualified(table, q)) == q,
{
    reveal_strlit(".");
    assert(qualified(table, unqualified(table, q)) =~= q.subrange(0, table.len() as int + 1) + q.subrange(
        table.len() as int + 1,
        q.len() as int,
    ));
    assert(qualified(table, unqualified(table, q)) =~= q);
}

proof fn lemma_prefixed_first(
    row: Map<Seq<char>, Seq<char>>,
    table: Seq<char>,
    names: Seq<Seq<char>>,
    n: nat,
)
    requires
        n <= names.len(),
        forall|k: Seq<char>| names.contains(k) <==> row.contains_key(k),
    ensures
        forall|q: Seq<char>|
            prefixed_first(row, table, names, n).contains_key(q) <==> is_qualified(table, q)
                && names.subrange(0, n as int).contains(unqualified(table, q)),
        forall|q: Seq<char>| #[trigger]
            prefixed_first(row, table, names, n).contains_key(q) ==> prefixed_first(
                row,
                table,
                names,
                n,
            )[q] == row[unqualified(table, q)],
        n == names.len() ==> prefixed_first(row, table, names, n) == prefixed(row, table),
    decreases n,
{
    if n > 0 {
        lemma_prefixed_first(row, table, names, (n - 1) as nat);
        let short = names.subrange(0, n - 1);
        let long = names.subrange(0, n as int);
        let added = qualified(table, names[n - 1]);
        lemma_qualified(table, names[n - 1]);
        assert(long =~= short.push(names[n - 1]));
        assert forall|q: Seq<char>|
            prefixed_first(row, table, names, n).contains_key(q) <==> is_qualified(table, q)
                && long.contains(unqualified(table, q)) by {
            if q == added {
                assert(long[n - 1] == names[n - 1]);
            } else {
                if is_qualified(table, q) && long.contains(unqualified(table, q)) {
                    let i = choose|i: int| 0 <= i < long.len() && long[i] == unqualified(table, q);
                    if i == n - 1 {
                        lemma_unqualified(table, q);
                    } else {
                        assert(short[i] == unqualified(table, q));
                    }
                }
                if is_qualified(table, q) && short.contains(unqualified(table, q)) {
                    let i = choose|i: int| 0 <= i < short.len() && short[i] == unqualified(table, q);
                    assert(long[i] == unqualified(table, q));
                }
            }
        }
    } else {
        assert(names.subrange(0, 0) =~= Seq::<Seq<char>>::empty());
    }
    if n == names.len() {
        assert(names.subrange(0, n as int) =~= names);
        let got = prefixed_first(row, table, names, n);
        assert forall|q: Seq<char>| got.contains_key(q) <==> prefixed(row, table).contains_key(q) by {
            if is_qualified(table, q) {
                assert(names.contains(unqualified(table, q)) <==> row.contains_key(
                    unqualified(table, q),
                ));
            }
        }
        assert forall|q: Seq<char>| got.contains_key(q) implies got[q] == prefixed(row, table)[q] by {}
        assert(got =~= prefixed(row, table));
    }
}

/// Adds the columns of `source` to `row`, each under its name qualified by
/// `table`, in place of what `row` held under that name.
pub fn add_prefixed(row: &mut Row, source: &Row, table: &str)
    requires
        old(row).wf(),
        source.wf(),
    ensures
        final(row).wf(),
        final(row)@ == combined(old(row)@, source@, table@),
{
    let names = source.names();
    let ghost all = text_views(names@);
    let ghost start = row@;
    proof {
        source.lemma_names();
        assert(start.union_prefer_right(Map::<Seq<char>, Seq<char>>::empty()) =~= start);
    }
    let mut i: usize = 0;
    while i < names.len()
        invariant
            i <= names.len(),
            source.wf(),
            row.wf(),
            all == text_views(names@),
            all == source.names_view(),
            forall|k: Seq<char>| all.contains(k) <==> source@.contains_key(k),
            row@ == start.union_prefer_right(prefixed_first(source@, table@, all, i as nat)),
        decreases names.len() - i,
    {
        assert(all[i as int] == names[i as int]@);
        assert(all.contains(names[i as int]@));
        match source.get(names[i].as_str()) {
            Some(value) => {
                let mut name = table.to_owned();
                name.append(".");
                name.append(names[i].as_str());
                assert(name@ == qualified(table@, names[i as int]@));
                row.insert(name, value.clone());
                assert(row@ =~= start.union_prefer_right(
                    prefixed_first(source@, table@, all, (i + 1) as nat),
                ));
            },
            None => {},
        }
        i = i + 1;
    }
    proof {
        lemma_prefixed_first(source@, table@, all, all.len());
    }
}

/// A row with the columns of `source`, each holding the text `NULL`.
pub fn null_row(source: &Row) -> (row: Row)
    requires
        source.wf(),
    ensures
        row.wf(),
        row@ == nulls(source@),
{
    let names = source.names();
    let ghost all = text_views(names@);
    let mut row = Row::new();
    proof {
        source.lemma_names();
    }
    let mut i: usize = 0;
    while i < names.len()
        invariant
            i <= names.len(),
            row.wf(),
            all == text_views(names@),
            forall|k: Seq<char>| all.contains(k) <==> source@.contains_key(k),
            forall|k: Seq<char>| row@.contains_key(k) <==> all.subrange(0, i as int).contains(k),
            forall|k: Seq<char>| row@.contains_key(k) ==> row@[k] == "NULL"@,
        decreases names.len() - i,
    {
        let ghost before = row@;
        let ghost short = all.subrange(0, i as int);
        let ghost long = all.subrange(0, i + 1);
        row.insert(names[i].clone(), "NULL".to_owned());
        proof {
            assert(long =~= short.push(names[i as int]@));
            assert forall|k: Seq<char>| row@.contains_key(k) <==> long.contains(k) by {
                if long.contains(k) {
                    let j = choose|j: int| 0 <= j < long.len() && long[j] == k;
                    if j < i {
                        assert(short[j] == k);
                    }
                }
                if before.contains_key(k) {
                    let j = choose|j: int| 0 <= j < short.len() && short[j] == k;
                    assert(long[j] == k);
                }
                if k == names[i as int]@ {
                    assert(long[i as int] == k);
                }
            }
        }
        i = i + 1;
    }
    proof {
        assert(all.subrange(0, names.len() as int) =~= all);
        assert(row@ =~= nulls(source@));
    }
    row
}

/// Whether two rows agree on their join columns.
pub fn rows_match(left: &Row, right: &Row, left_column: &str, right_column: &str) -> (agree: bool)
    requires
        left.wf(),
        right.wf(),
    ensures
        agree == join_matches(left@, right@, left_column@, right_column@),
{
    match left.get(left_column) {
        Some(a) => match right.get(right_column) {
            Some(b) => string_same(a, b),
            None => false,
        },
        None => !right.contains_key(right_column),
    }
}

/// A left row with a right row.
pub fn combine(left: &Row, right: &Row, table: &str) -> (row: Row)
    requires
        left.wf(),
        right.wf(),
    ensures
        row.wf(),
        row@ == combined(left@, right@, table@),
{
    let mut row = left.clone();
    add_prefixed(&mut row, right, table);
    row
}

/// A left row that no right row matches.
pub fn pad_left(left: &Row, rights: &Vec<Row>, table: &str) -> (row: Row)
    requires
        left.wf(),
        forall|i: int| 0 <= i < rights.len() ==> (#[trigger] rights[i]).wf(),
    ensures
        row.wf(),
        row@ == left_alone(left@, row_views(rights@), table@),
{
    let mut row = left.clone();
    if rights.len() > 0 {
        let blanks = null_row(&rights[0]);
        add_prefixed(&mut row, &blanks, table);
    }
    row
}

/// A right row that no left row matches.
pub fn pad_right(right: &Row, lefts: &Vec<Row>, table: &str) -> (row: Row)
    requires
        right.wf(),
        forall|i: int| 0 <= i < lefts.len() ==> (#[trigger] lefts[i]).wf(),
    ensures
        row.wf(),
        row@ == right_alone(right@, row_views(lefts@), table@),
{
    let mut row = if lefts.len() > 0 {
        null_row(&lefts[0])
    } else {
        Row::new()
    };
    add_prefixed(&mut row, right, table);
    row
}

/// Appends to `out` the joined rows of `left`, in the order of `rights`, and
/// says how many they are.
fn push_matches(
    out: &mut Vec<Row>,
    left: &Row,
    rights: &Vec<Row>,
    left_column: &str,
    right_column: &str,
    table: &str,
    every: bool,
) -> (count: usize)
    requires
        left.wf(),
        forall|i: int| 0 <= i < rights.len() ==> (#[trigger] rights[i]).wf(),
        forall|i: int| 0 <= i < old(out).len() ==> (#[trigger] old(out)[i]).wf(),
    ensures
        forall|i: int| 0 <= i < final(out).len() ==> (#[trigger] final(out)[i]).wf(),
        row_views(final(out)@) == row_views(old(out)@) + matches_of(
            (JoinOn { left_column: left_column@, right_column: right_column@, table: table@, every }),
            left@,
            row_views(rights@),
        ),
        count == matches_of(
            (JoinOn { left_column: left_column@, right_column: right_column@, table: table@, every }),
            left@,
            row_views(rights@),
        ).len(),
{
    let ghost on = JoinOn { left_column: left_column@, right_column: right_column@, table: table@, every };
    let ghost all = row_views(rights@);
    let ghost start = row_views(out@);
    let mut count: usize = 0;
    let mut j: usize = 0;
    proof {
        assert(all.subrange(0, 0) =~= Seq::<Map<Seq<char>, Seq<char>>>::empty());
        assert(start + Seq::<Map<Seq<char>, Seq<char>>>::empty() =~= start);
    }
    while j < rights.len()
        invariant
            j <= rights.len(),
            left.wf(),
            all == row_views(rights@),
            on == (JoinOn { left_column: left_column@, right_column: right_column@, table: table@, every }),
            forall|i: int| 0 <= i < rights.len() ==> (#[trigger] rights[i]).wf(),
            forall|i: int| 0 <= i < out.len() ==> (#[trigger] out[i]).wf(),
            row_views(out@) == start + matches_of(on, left@, all.subrange(0, j as int)),
            count == matches_of(on, left@, all.subrange(0, j as int)).len(),
            count <= j,
        decreases rights.len() - j,
    {
        let ghost next = all.subrange(0, j + 1);
        let ghost before = row_views(out@);
        proof {
            assert(next.drop_last() =~= all.subrange(0, j as int));
            assert(next.last() == rights[j as int]@);
        }
        if every || rows_match(left, &rights[j], left_column, right_column) {
            out.push(combine(left, &rights[j], table));
            count = count + 1;
            assert(row_views(out@) =~= before.push(combined(left@, rights[j as int]@, table@)));
            assert(row_views(out@) =~= start + matches_of(on, left@, next));
        }
        j = j + 1;
    }
    assert(all.subrange(0, rights.len() as int) =~= all);
    count
}

/// Appends to `out` the joined rows of `right`, in the order of `lefts`, and
/// says how many they are.
fn push_matches_to(
    out: &mut Vec<Row>,
    right: &Row,
    lefts: &Vec<Row>,
    left_column: &str,
    right_column: &str,
    table: &str,
) -> (count: usize)
    requires
        right.wf(),
        forall|i: int| 0 <= i < lefts.len() ==> (#[trigger] lefts[i]).wf(),
        forall|i: int| 0 <= i < old(out).len() ==> (#[trigger] old(out)[i]).wf(),
    ensures
        forall|i: int| 0 <= i < final(out).len() ==> (#[trigger] final(out)[i]).wf(),
        row_views(final(out)@) == row_views(old(out)@) + matches_to(
            (JoinOn {
                left_column: left_column@,
                right_column: right_column@,
                table: table@,
                every: false,
            }),
            right@,
            row_views(lefts@),
        ),
        count == matches_to(
            (JoinOn {
                left_column: left_column@,
                right_column: right_column@,
                table: table@,
                every: false,
            }),
            right@,
            row_views(lefts@),
        ).len(),
{
    let ghost on = JoinOn {
        left_column: left_column@,
        right_column: right_column@,
        table: table@,
        every: false,
    };
    let ghost all = row_views(lefts@);
    let ghost start = row_views(out@);
    let mut count: usize = 0;
    let mut j: usize = 0;
    proof {
        assert(all.subrange(0, 0) =~= Seq::<Map<Seq<char>, Seq<char>>>::empty());
        assert(start + Seq::<Map<Seq<char>, Seq<char>>>::empty() =~= start);
    }
    while j < lefts.len()
        invariant
            j <= lefts.len(),
            right.wf(),
            all == row_views(lefts@),
            on == (JoinOn {
                left_column: left_column@,
                right_column: right_column@,
                table: table@,
                every: false,
            }),
            forall|i: int| 0 <= i < lefts.len() ==> (#[trigger] lefts[i]).wf(),
            forall|i: int| 0 <= i < out.len() ==> (#[trigger] out[i]).wf(),
            row_views(out@) == start + matches_to(on, right@, all.subrange(0, j as int)),
            count == matches_to(on, right@, all.subrange(0, j as int)).len(),
            count <= j,
        decreases lefts.len() - j,
    {
        let ghost next = all.subrange(0, j + 1);
        let ghost before = row_views(out@);
        proof {
            assert(next.drop_last() =~= all.subrange(0, j as int));
            assert(next.last() == lefts[j as int]@);
        }
        if rows_match(&lefts[j], right, left_column, right_column) {
            out.push(combine(&lefts[j], right, table));
            count = count + 1;
            assert(row_views(out@) =~= before.push(combined(lefts[j as int]@, right@, table@)));
            assert(row_views(out@) =~= start + matches_to(on, right@, next));
        }
        j = j + 1;
    }
    assert(all.subrange(0, lefts.len() as int) =~= all);
    count
}

/// Joins `left_rows` with `right_rows` as `join` says. A joined row holds
/// the left row's columns under their own names and the right row's under
/// the joined table's name, a dot and their own. Inner and cross joins give
/// the matching pairs, or all pairs; left, right and full joins also give
/// each unmatched row of the side they keep, once, with `NULL` under the
/// columns of the other side's first row.
pub fn perform_join(left_rows: &Vec<Row>, right_rows: &Vec<Row>, join: &JoinClause) -> (rows: Vec<Row>)
    requires
        forall|i: int| 0 <= i < left_rows.len() ==> (#[trigger] left_rows[i]).wf(),
        forall|i: int| 0 <= i < right_rows.len() ==> (#[trigger] right_rows[i]).wf(),
    ensures
        forall|i: int| 0 <= i < rows.len() ==> (#[trigger] rows[i]).wf(),
        row_views(rows@) == joined(
            join.join_type,
            join_on(*join),
            row_views(left_rows@),
            row_views(right_rows@),
        ),
{
    let left_text = last_segment_text(join.on_left.as_str());
    let right_text = last_segment_text(join.on_right.as_str());
    let left_column = left_text.as_str();
    let right_column = right_text.as_str();
    let table = join.table.as_str();
    let ghost on = join_on(*join);
    let ghost lefts = row_views(left_rows@);
    let ghost rights = row_views(right_rows@);
    let mut rows: Vec<Row> = Vec::new();
    assert(row_views(rows@) =~= Seq::<Map<Seq<char>, Seq<char>>>::empty());
    assert(lefts.subrange(0, 0) =~= Seq::<Map<Seq<char>, Seq<char>>>::empty());
    match join.join_type {
        JoinType::Inner | JoinType::Cross => {
            let every = match join.join_type {
                JoinType::Cross => true,
                _ => false,
            };
            let mut i: usize = 0;
            while i < left_rows.len()
                invariant
                    i <= left_rows.len(),
                    every == on.every,
                    on == join_on(*join),
                    left_column@ == on.left_column,
                    right_column@ == on.right_column,
                    table@ == on.table,
                    lefts == row_views(left_rows@),
                    rights == row_views(right_rows@),
                    forall|k: int| 0 <= k < left_rows.len() ==> (#[trigger] left_rows[k]).wf(),
                    forall|k: int| 0 <= k < right_rows.len() ==> (#[trigger] right_rows[k]).wf(),
                    forall|k: int| 0 <= k < rows.len() ==> (#[trigger] rows[k]).wf(),
                    row_views(rows@) == inner_rows(on, lefts.subrange(0, i as int), rights),
                decreases left_rows.len() - i,
            {
                let ghost next = lefts.subrange(0, i + 1);
                assert(next.drop_last() =~= lefts.subrange(0, i as int));
                assert(next.last() == left_rows[i as int]@);
                push_matches(&mut rows, &left_rows[i], right_rows, left_column, right_column, table, every);
                i = i + 1;
            }
            assert(lefts.subrange(0, left_rows.len() as int) =~= lefts);
        },
        JoinType::Left | JoinType::Full => {
            let mut i: usize = 0;
            while i < left_rows.len()
                invariant
                    i <= left_rows.len(),
                    !on.every,
                    on == join_on(*join),
                    left_column@ == on.left_column,
                    right_column@ == on.right_column,
                    table@ == on.table,
                    lefts == row_views(left_rows@),
                    rights == row_views(right_rows@),
                    forall|k: int| 0 <= k < left_rows.len() ==> (#[trigger] left_rows[k]).wf(),
                    forall|k: int| 0 <= k < right_rows.len() ==> (#[trigger] right_rows[k]).wf(),
                    forall|k: int| 0 <= k < rows.len() ==> (#[trigger] rows[k]).wf(),
                    row_views(rows@) == left_join_rows(on, lefts.subrange(0, i as int), rights),
                decreases left_rows.len() - i,
            {
                let ghost next = lefts.subrange(0, i + 1);
                let ghost before = row_views(rows@);
                assert(next.drop_last() =~= lefts.subrange(0, i as int));
                assert(next.last() == left_rows[i as int]@);
                let found = push_matches(
                    &mut rows,
                    &left_rows[i],
                    right_rows,
                    left_column,
                    right_column,
                    table,
                    false,
                );
                if found == 0 {
                    rows.push(pad_left(&left_rows[i], right_rows, table));
                    assert(row_views(rows@) =~= before + seq![
                        left_alone(left_rows[i as int]@, rights, table@),
                    ]);
                }
                i = i + 1;
            }
            assert(lefts.subrange(0, left_rows.len() as int) =~= lefts);
            let full = match join.join_type {
                JoinType::Full => true,
                _ => false,
            };
            if full {
                let ghost head = row_views(rows@);
                assert(head + Seq::<Map<Seq<char>, Seq<char>>>::empty() =~= head);
                let mut j: usize = 0;
                while j < right_rows.len()
                    invariant
                        j <= right_rows.len(),
                        !on.every,
                        on == join_on(*join),
                        left_column@ == on.left_column,
                        right_column@ == on.right_column,
                        table@ == on.table,
                        lefts == row_views(left_rows@),
                        rights == row_views(right_rows@),
                        forall|k: int| 0 <= k < left_rows.len() ==> (#[trigger] left_rows[k]).wf(),
                        forall|k: int| 0 <= k < right_rows.len() ==> (#[trigger] right_rows[k]).wf(),
                        forall|k: int| 0 <= k < rows.len() ==> (#[trigger] rows[k]).wf(),
                        row_views(rows@) == head + lone_rights(on, lefts, rights, j as nat),
                    decreases right_rows.len() - j,
                {
                    let ghost before = row_views(rows@);
                    let mut scratch: Vec<Row> = Vec::new();
                    assert(row_views(scratch@) =~= Seq::<Map<Seq<char>, Seq<char>>>::empty());
                    let found = push_matches_to(
                        &mut scratch,
                        &right_rows[j],
                        left_rows,
                        left_column,
                        right_column,
                        table,
                    );
                    assert(rights[j as int] == right_rows[j as int]@);
                    if found == 0 {
                        rows.push(pad_right(&right_rows[j], left_rows, table));
                        assert(row_views(rows@) =~= before.push(
                            right_alone(right_rows[j as int]@, lefts, table@),
                        ));
                        assert(row_views(rows@) =~= head + lone_rights(on, lefts, rights, (j + 1) as nat));
                    }
                    j = j + 1;
                }
            }
        },
        JoinType::Right => {
            let mut j: usize = 0;
            while j < right_rows.len()
                invariant
                    j <= right_rows.len(),
                    !on.every,
                    on == join_on(*join),
                    left_column@ == on.left_column,
                    right_column@ == on.right_column,
                    table@ == on.table,
                    lefts == row_views(left_rows@),
                    rights == row_views(right_rows@),
                    forall|k: int| 0 <= k < left_rows.len() ==> (#[trigger] left_rows[k]).wf(),
                    forall|k: int| 0 <= k < right_rows.len() ==> (#[trigger] right_rows[k]).wf(),
                    forall|k: int| 0 <= k < rows.len() ==> (#[trigger] rows[k]).wf(),
                    row_views(rows@) == right_join_rows(on, lefts, rights, j as nat),
                decreases right_rows.len() - j,
            {
                let ghost before = row_views(rows@);
                assert(rights[j as int] == right_rows[j as int]@);
                let found = push_matches_to(
                    &mut rows,
                    &right_rows[j],
                    left_rows,
                    left_column,
                    right_column,
                    table,
                );
                if found == 0 {
                    rows.push(pad_right(&right_rows[j], left_rows, table));
                    assert(row_views(rows@) =~= before + seq![
                        right_alone(right_rows[j as int]@, lefts, table@),
                    ]);
                }
                j = j + 1;
            }
        },
    }
    rows
}

/// One left row gives as many joined rows as right rows pair with it.
pub proof fn lemma_matches_count(
    on: JoinOn,
    left: Map<Seq<char>, Seq<char>>,
    rights: Seq<Map<Seq<char>, Seq<char>>>,
)
    ensures
        matches_of(on, left, rights).len() == match_count(on, left, rights),
        on.every ==> match_count(on, left, rights) == rights.len(),
        match_count(on, left, rights) <= rights.len(),
    decreases rights.len(),
{
    if rights.len() > 0 {
        lemma_matches_count(on, left, rights.drop_last());
    }
}

/// An inner join gives as many rows as there are pairs of a left and a right
/// row that agree on the join columns.
pub proof fn law_inner_join_count(
    on: JoinOn,
    lefts: Seq<Map<Seq<char>, Seq<char>>>,
    rights: Seq<Map<Seq<char>, Seq<char>>>,
)
    requires
        !on.every,
    ensures
        joined(JoinType::Inner, on, lefts, rights).len() == pair_count(on, lefts, rights),
    decreases lefts.len(),
{
    if lefts.len() > 0 {
        law_inner_join_count(on, lefts.drop_last(), rights);
        lemma_matches_count(on, lefts.last(), rights);
    }
}

/// A cross join gives as many rows as there are left rows times right rows.
pub proof fn law_cross_join_count(
    on: JoinOn,
    lefts: Seq<Map<Seq<char>, Seq<char>>>,
    rights: Seq<Map<Seq<char>, Seq<char>>>,
)
    requires
        on.every,
    ensures
        joined(JoinType::Cross, on, lefts, rights).len() == lefts.len() * rights.len(),
    decreases lefts.len(),
{
    if lefts.len() > 0 {
        law_cross_join_count(on, lefts.drop_last(), rights);
        lemma_matches_count(on, lefts.last(), rights);
        assert(lefts.len() * rights.len() == (lefts.len() - 1) * rights.len() + rights.len())
            by (nonlinear_arith);
        assert(lefts.drop_last().len() == lefts.len() - 1);
    } else {
        assert(lefts.len() * rights.len() == 0) by (nonlinear_arith)
            requires
                lefts.len() == 0,
        ;
    }
}

/// The rows that a left join gives for the left rows: for each the number of
/// right rows that pair with it, and one where none does.
pub open spec fn left_join_count(
    on: JoinOn,
    lefts: Seq<Map<Seq<char>, Seq<char>>>,
    rights: Seq<Map<Seq<char>, Seq<char>>>,
) -> nat
    decreases lefts.len(),
{
    if lefts.len() == 0 {
        0
    } else if match_count(on, lefts.last(), rights) == 0 {
        left_join_count(on, lefts.drop_last(), rights) + 1
    } else {
        left_join_count(on, lefts.drop_last(), rights) + match_count(on, lefts.last(), rights)
    }
}

/// A left join gives, for each left row, its matching pairs, and one row
/// where it has none; so it gives exactly as many rows as there are left
/// rows where no left row pairs with more than one right row.
pub proof fn law_left_join_count(
    on: JoinOn,
    lefts: Seq<Map<Seq<char>, Seq<char>>>,
    rights: Seq<Map<Seq<char>, Seq<char>>>,
)
    ensures
        joined(JoinType::Left, on, lefts, rights).len() == left_join_count(on, lefts, rights),
        joined(JoinType::Left, on, lefts, rights).len() >= lefts.len(),
        (forall|i: int| 0 <= i < lefts.len() ==> match_count(on, #[trigger] lefts[i], rights) <= 1)
            ==> joined(JoinType::Left, on, lefts, rights).len() == lefts.len(),
    decreases lefts.len(),
{
    if lefts.len() > 0 {
        let init = lefts.drop_last();
        law_left_join_count(on, init, rights);
        lemma_matches_count(on, lefts.last(), rights);
        if forall|i: int| 0 <= i < lefts.len() ==> match_count(on, #[trigger] lefts[i], rights) <= 1 {
            assert forall|i: int| 0 <= i < init.len() implies match_count(
                on,
                #[trigger] init[i],
                rights,
            ) <= 1 by {
                assert(init[i] == lefts[i]);
            }
            assert(match_count(on, lefts[lefts.len() - 1], rights) <= 1);
        }
    }
}

/// In a left join the block of a left row that pairs with no right row is
/// that row alone, once: it keeps its own columns and holds `NULL` under
/// each column of the first right row; the block of a left row that pairs
/// with some right row holds joined rows only.
pub proof fn law_left_join_padding(
    on: JoinOn,
    left: Map<Seq<char>, Seq<char>>,
    rights: Seq<Map<Seq<char>, Seq<char>>>,
    column: Seq<char>,
)
    requires
        rights.len() > 0,
        rights[0].contains_key(column),
    ensures
        match_count(on, left, rights) == 0 ==> left_block(on, left, rights) == seq![
            left_alone(left, rights, on.table),
        ],
        left_alone(left, rights, on.table).contains_key(qualified(on.table, column)),
        left_alone(left, rights, on.table)[qualified(on.table, column)] == "NULL"@,
        forall|k: Seq<char>|
            left.contains_key(k) && !is_qualified(on.table, k) ==> left_alone(
                left,
                rights,
                on.table,
            ).contains_key(k) && left_alone(left, rights, on.table)[k] == left[k],
        match_count(on, left, rights) > 0 ==> left_block(on, left, rights) == matches_of(
            on,
            left,
            rights,
        ),
{
    lemma_matches_count(on, left, rights);
    lemma_qualified(on.table, column);
}

} // verus!
