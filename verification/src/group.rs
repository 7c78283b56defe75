use vstd::prelude::*;
use crate::ast::ColumnExpr;
use crate::filter::{display_name, display_name_text, Stop, StopModel};
use crate::numeric::{
    query_views, same_texts, FactsModel, FoldKind, NumberFacts, NumberQuery, QueryModel,
};
use crate::row::{row_views, Row};
use crate::text::{decimal, decimal_text, text_views};

verus! {

/// The values of `row` under the grouping columns, in their order; the empty
/// text where the row lacks a column.
pub open spec fn group_key(row: Map<Seq<char>, Seq<char>>, columns: Seq<Seq<char>>) -> Seq<Seq<char>> {
    Seq::new(
        columns.len(),
        |i: int|
            if row.contains_key(columns[i]) {
                row[columns[i]]
            } else {
                Seq::<char>::empty()
            },
    )
}

/// The group keys of `rows`, each once, in the order in which they first occur.
pub open spec fn bucket_keys(rows: Seq<Map<Seq<char>, Seq<char>>>, columns: Seq<Seq<char>>) -> Seq<
    Seq<Seq<char>>,
>
    decreases rows.len(),
{
    if rows.len() == 0 {
        Seq::empty()
    } else if bucket_keys(rows.drop_last(), columns).contains(group_key(rows.last(), columns)) {
        bucket_keys(rows.drop_last(), columns)
    } else {
        bucket_keys(rows.drop_last(), columns).push(group_key(rows.last(), columns))
    }
}

/// The rows with the group key `key`, in order.
pub open spec fn bucket(
    rows: Seq<Map<Seq<char>, Seq<char>>>,
    columns: Seq<Seq<char>>,
    key: Seq<Seq<char>>,
) -> Seq<Map<Seq<char>, Seq<char>>>
    decreases rows.len(),
{
    if rows.len() == 0 {
        Seq::empty()
    } else if group_key(rows.last(), columns) == key {
        bucket(rows.drop_last(), columns, key).push(rows.last())
    } else {
        bucket(rows.drop_last(), columns, key)
    }
}

/// The values that the rows of `rows` hold under `column`, in order; a row
/// that lacks the column gives none.
pub open spec fn column_values(rows: Seq<Map<Seq<char>, Seq<char>>>, column: Seq<char>) -> Seq<Seq<char>>
    decreases rows.len(),
{
    if rows.len() == 0 {
        Seq::empty()
    } else if rows.last().contains_key(column) {
        column_values(rows.drop_last(), column).push(rows.last()[column])
    } else {
        column_values(rows.drop_last(), column)
    }
}

/// The numeric question behind an aggregate: which fold, and of which values.
pub open spec fn fold_query(expr: ColumnExpr, rows: Seq<Map<Seq<char>, Seq<char>>>) -> Option<QueryModel> {
    match expr {
        ColumnExpr::Sum(name) => Some(
            QueryModel::Fold { kind: FoldKind::Sum, values: column_values(rows, name@) },
        ),
        ColumnExpr::Avg(name) => Some(
            QueryModel::Fold { kind: FoldKind::Avg, values: column_values(rows, name@) },
        ),
        ColumnExpr::Min(name) => Some(
            QueryModel::Fold { kind: FoldKind::Min, values: column_values(rows, name@) },
        ),
        ColumnExpr::Max(name) => Some(
            QueryModel::Fold { kind: FoldKind::Max, values: column_values(rows, name@) },
        ),
        _ => None,
    }
}

/// What an aggregate writes into the row of a bucket: `COUNT(*)` the number
/// of rows, `COUNT(c)` the number of rows that have the column, a fold what
/// the caller answered; a plain column and `*` write nothing.
pub open spec fn aggregate_value(
    expr: ColumnExpr,
    rows: Seq<Map<Seq<char>, Seq<char>>>,
    facts: FactsModel,
) -> Option<Seq<char>> {
    match expr {
        ColumnExpr::CountAll => Some(decimal(rows.len())),
        ColumnExpr::Count(name) => Some(decimal(column_values(rows, name@).len())),
        ColumnExpr::Column(_) => None,
        ColumnExpr::All => None,
        _ => match fold_query(expr, rows) {
            Some(QueryModel::Fold { kind, values }) => Some(facts.folds[(kind, values)]),
            _ => None,
        },
    }
}

/// The row that stands for a bucket: its first row, with what each of the
/// first `n` aggregates of `exprs` computes written under the aggregate's
/// name.
pub open spec fn aggregated_row(
    rows: Seq<Map<Seq<char>, Seq<char>>>,
    exprs: Seq<ColumnExpr>,
    facts: FactsModel,
    n: nat,
) -> Map<Seq<char>, Seq<char>>
    recommends
        rows.len() > 0,
        n <= exprs.len(),
    decreases n,
{
    if n == 0 {
        rows[0]
    } else {
        match aggregate_value(exprs[n - 1], rows, facts) {
            Some(text) => aggregated_row(rows, exprs, facts, (n - 1) as nat).insert(
                display_name(exprs[n - 1]),
                text,
            ),
            None => aggregated_row(rows, exprs, facts, (n - 1) as nat),
        }
    }
}

/// The folds among the first `n` of `exprs` that `facts` does not answer for
/// the bucket `rows`, in order.
pub open spec fn open_folds(
    rows: Seq<Map<Seq<char>, Seq<char>>>,
    exprs: Seq<ColumnExpr>,
    facts: FactsModel,
    n: nat,
) -> Seq<QueryModel>
    recommends
        n <= exprs.len(),
    decreases n,
{
    if n == 0 {
        Seq::empty()
    } else {
        match fold_query(exprs[n - 1], rows) {
            Some(query) => if facts.answers(query) {
                open_folds(rows, exprs, facts, (n - 1) as nat)
            } else {
                open_folds(rows, exprs, facts, (n - 1) as nat).push(query)
            },
            None => open_folds(rows, exprs, facts, (n - 1) as nat),
        }
    }
}

/// The unanswered folds of the first `n` buckets, bucket by bucket.
pub open spec fn all_open_folds(
    rows: Seq<Map<Seq<char>, Seq<char>>>,
    columns: Seq<Seq<char>>,
    exprs: Seq<ColumnExpr>,
    facts: FactsModel,
    n: nat,
) -> Seq<QueryModel>
    recommends
        n <= bucket_keys(rows, columns).len(),
    decreases n,
{
    if n == 0 {
        Seq::empty()
    } else {
        all_open_folds(rows, columns, exprs, facts, (n - 1) as nat) + open_folds(
            bucket(rows, columns, bucket_keys(rows, columns)[n - 1]),
            exprs,
            facts,
            exprs.len(),
        )
    }
}

/// Grouping and aggregation: one row for each group key, in the order in
/// which the keys first occur; or the folds that must be answered first.
pub open spec fn aggregated(
    rows: Seq<Map<Seq<char>, Seq<char>>>,
    columns: Seq<Seq<char>>,
    exprs: Seq<ColumnExpr>,
    facts: FactsModel,
) -> Result<Seq<Map<Seq<char>, Seq<char>>>, StopModel> {
    let keys = bucket_keys(rows, columns);
    let open = all_open_folds(rows, columns, exprs, facts, keys.len());
    if open.len() > 0 {
        Err(StopModel::Needs(open))
    } else {
        Ok(
            Seq::new(
                keys.len(),
                |b: int| aggregated_row(bucket(rows, columns, keys[b]), exprs, facts, exprs.len()),
            ),
        )
    }
}

/// The views of `keys`, in order.
pub open spec fn key_views(keys: Seq<Vec<String>>) -> Seq<Seq<Seq<char>>> {
    Seq::new(keys.len(), |i: int| text_views(keys[i]@))
}

/// The group key of `row`.
pub fn group_key_of(row: &Row, group_by: &Vec<String>) -> (key: Vec<String>)
    requires
        row.wf(),
    ensures
        text_views(key@) == group_key(row@, text_views(group_by@)),
{
    let mut key: Vec<String> = Vec::new();
    let mut i: usize = 0;
    while i < group_by.len()
        invariant
            i <= group_by.len(),
            row.wf(),
            key.len() == i,
            forall|j: int|
                0 <= j < i ==> (#[trigger] key[j])@ == group_key(row@, text_views(group_by@))[j],
        decreases group_by.len() - i,
    {
        assert(text_views(group_by@)[i as int] == group_by[i as int]@);
        match row.get(group_by[i].as_str()) {
            Some(value) => key.push(value.clone()),
            None => key.push(String::new()),
        }
        i = i + 1;
    }
    assert(text_views(key@) =~= group_key(row@, text_views(group_by@)));
    key
}

/// Whether `keys` holds `key`.
fn has_key(keys: &Vec<Vec<String>>, key: &Vec<String>) -> (has: bool)
    ensures
        has == key_views(keys@).contains(text_views(key@)),
{
    let mut i: usize = 0;
    while i < keys.len()
        invariant
            i <= keys.len(),
            forall|j: int| 0 <= j < i ==> key_views(keys@)[j] != text_views(key@),
        decreases keys.len() - i,
    {
        if same_texts(&keys[i], key) {
            assert(key_views(keys@)[i as int] == text_views(key@));
            return true;
        }
        i = i + 1;
    }
    false
}

/// The group keys of `rows`, each once, in the order in which they first occur.
fn distinct_keys(rows: &Vec<Row>, group_by: &Vec<String>) -> (keys: Vec<Vec<String>>)
    requires
        forall|i: int| 0 <= i < rows.len() ==> (#[trigger] rows[i]).wf(),
    ensures
        key_views(keys@) == bucket_keys(row_views(rows@), text_views(group_by@)),
{
    let ghost all = row_views(rows@);
    let ghost columns = text_views(group_by@);
    let mut keys: Vec<Vec<String>> = Vec::new();
    let mut i: usize = 0;
    proof {
        assert(all.subrange(0, 0) =~= Seq::<Map<Seq<char>, Seq<char>>>::empty());
        assert(key_views(keys@) =~= Seq::<Seq<Seq<char>>>::empty());
    }
    while i < rows.len()
        invariant
            i <= rows.len(),
            all == row_views(rows@),
            columns == text_views(group_by@),
            forall|k: int| 0 <= k < rows.len() ==> (#[trigger] rows[k]).wf(),
            key_views(keys@) == bucket_keys(all.subrange(0, i as int), columns),
        decreases rows.len() - i,
    {
        let ghost next = all.subrange(0, i + 1);
        let ghost before = key_views(keys@);
        proof {
            assert(next.drop_last() =~= all.subrange(0, i as int));
            assert(next.last() == rows[i as int]@);
        }
        let key = group_key_of(&rows[i], group_by);
        if !has_key(&keys, &key) {
            keys.push(key);
            assert(key_views(keys@) =~= before.push(group_key(rows[i as int]@, columns)));
        }
        i = i + 1;
    }
    assert(all.subrange(0, rows.len() as int) =~= all);
    keys
}

/// Copies of the rows with the group key `key`, in order.
fn bucket_of(rows: &Vec<Row>, group_by: &Vec<String>, key: &Vec<String>) -> (members: Vec<Row>)
    requires
        forall|i: int| 0 <= i < rows.len() ==> (#[trigger] rows[i]).wf(),
    ensures
        forall|i: int| 0 <= i < members.len() ==> (#[trigger] members[i]).wf(),
        row_views(members@) == bucket(row_views(rows@), text_views(group_by@), text_views(key@)),
{
    let ghost all = row_views(rows@);
    let ghost columns = text_views(group_by@);
    let mut members: Vec<Row> = Vec::new();
    let mut i: usize = 0;
    proof {
        assert(all.subrange(0, 0) =~= Seq::<Map<Seq<char>, Seq<char>>>::empty());
        assert(row_views(members@) =~= Seq::<Map<Seq<char>, Seq<char>>>::empty());
    }
    while i < rows.len()
        invariant
            i <= rows.len(),
            all == row_views(rows@),
            columns == text_views(group_by@),
            forall|k: int| 0 <= k < rows.len() ==> (#[trigger] rows[k]).wf(),
            forall|k: int| 0 <= k < members.len() ==> (#[trigger] members[k]).wf(),
            row_views(members@) == bucket(all.subrange(0, i as int), columns, text_views(key@)),
        decreases rows.len() - i,
    {
        let ghost next = all.subrange(0, i + 1);
        let ghost before = row_views(members@);
        proof {
            assert(next.drop_last() =~= all.subrange(0, i as int));
            assert(next.last() == rows[i as int]@);
        }
        let own = group_key_of(&rows[i], group_by);
        if same_texts(&own, key) {
            members.push(rows[i].clone());
            assert(row_views(members@) =~= before.push(rows[i as int]@));
        }
        i = i + 1;
    }
    assert(all.subrange(0, rows.len() as int) =~= all);
    members
}

/// The values that `rows` hold under `column`, in order.
pub fn values_of(rows: &Vec<Row>, column: &str) -> (values: Vec<String>)
    requires
        forall|i: int| 0 <= i < rows.len() ==> (#[trigger] rows[i]).wf(),
    ensures
        text_views(values@) == column_values(row_views(rows@), column@),
{
    let ghost all = row_views(rows@);
    let mut values: Vec<String> = Vec::new();
    let mut i: usize = 0;
    proof {
        assert(all.subrange(0, 0) =~= Seq::<Map<Seq<char>, Seq<char>>>::empty());
        assert(text_views(values@) =~= Seq::<Seq<char>>::empty());
    }
    while i < rows.len()
        invariant
            i <= rows.len(),
            all == row_views(rows@),
            forall|k: int| 0 <= k < rows.len() ==> (#[trigger] rows[k]).wf(),
            text_views(values@) == column_values(all.subrange(0, i as int), column@),
        decreases rows.len() - i,
    {
        let ghost next = all.subrange(0, i + 1);
        let ghost before = text_views(values@);
        proof {
            assert(next.drop_last() =~= all.subrange(0, i as int));
            assert(next.last() == rows[i as int]@);
        }
        match rows[i].get(column) {
            Some(value) => {
                values.push(value.clone());
                assert(text_views(values@) =~= before.push(rows[i as int]@[column@]));
            },
            None => {},
        }
        i = i + 1;
    }
    assert(all.subrange(0, rows.len() as int) =~= all);
    values
}

/// The numeric question behind `expr` for the bucket `rows`, if it has one.
fn fold_query_of(expr: &ColumnExpr, rows: &Vec<Row>) -> (query: Option<(FoldKind, Vec<String>)>)
    requires
        forall|i: int| 0 <= i < rows.len() ==> (#[trigger] rows[i]).wf(),
    ensures
        match query {
            Some((kind, values)) => fold_query(*expr, row_views(rows@)) == Some(
                QueryModel::Fold { kind, values: text_views(values@) },
            ),
            None => fold_query(*expr, row_views(rows@)) is None,
        },
{
    match expr {
        ColumnExpr::Sum(name) => Some((FoldKind::Sum, values_of(rows, name.as_str()))),
        ColumnExpr::Avg(name) => Some((FoldKind::Avg, values_of(rows, name.as_str()))),
        ColumnExpr::Min(name) => Some((FoldKind::Min, values_of(rows, name.as_str()))),
        ColumnExpr::Max(name) => Some((FoldKind::Max, values_of(rows, name.as_str()))),
        _ => None,
    }
}

/// Aggregates one bucket: the row that stands for it, and the folds that are
/// still unanswered, which are added to `open`.
fn aggregate_bucket(
    members: &Vec<Row>,
    columns: &Vec<ColumnExpr>,
    facts: &NumberFacts,
    open: &mut Vec<NumberQuery>,
) -> (row: Row)
    requires
        members.len() > 0,
        forall|i: int| 0 <= i < members.len() ==> (#[trigger] members[i]).wf(),
    ensures
        row.wf(),
        query_views(final(open)@) == query_views(old(open)@) + open_folds(
            row_views(members@),
            columns@,
            facts@,
            columns.len() as nat,
        ),
        open_folds(row_views(members@), columns@, facts@, columns.len() as nat).len() == 0 ==> row@
            == aggregated_row(row_views(members@), columns@, facts@, columns.len() as nat),
{
    let ghost rows = row_views(members@);
    let ghost start = query_views(open@);
    let mut row = members[0].clone();
    let mut i: usize = 0;
    proof {
        assert(rows[0] == members[0]@);
        assert(start + Seq::<QueryModel>::empty() =~= start);
    }
    while i < columns.len()
        invariant
            i <= columns.len(),
            rows == row_views(members@),
            members.len() > 0,
            forall|k: int| 0 <= k < members.len() ==> (#[trigger] members[k]).wf(),
            row.wf(),
            query_views(open@) == start + open_folds(rows, columns@, facts@, i as nat),
            open_folds(rows, columns@, facts@, i as nat).len() == 0 ==> row@ == aggregated_row(
                rows,
                columns@,
                facts@,
                i as nat,
            ),
        decreases columns.len() - i,
    {
        let ghost before = query_views(open@);
        match &columns[i] {
            ColumnExpr::CountAll => {
                row.insert("COUNT(*)".to_owned(), decimal_text(members.len() as u64));
            },
            ColumnExpr::Count(name) => {
                let present = values_of(members, name.as_str());
                row.insert(display_name_text(&columns[i]), decimal_text(present.len() as u64));
            },
            ColumnExpr::Column(_) => {},
            ColumnExpr::All => {},
            other => {
                match fold_query_of(other, members) {
                    Some((kind, values)) => {
                        match facts.fold_of(kind, &values) {
                            Some(text) => {
                                row.insert(display_name_text(&columns[i]), text);
                            },
                            None => {
                                open.push(NumberQuery::Fold { kind, values });
                                assert(query_views(open@) =~= before.push(
                                    QueryModel::Fold { kind, values: text_views(values@) },
                                ));
                            },
                        }
                    },
                    None => {},
                }
            },
        }
        i = i + 1;
    }
    row
}

/// Groups `rows` by the values of the columns `group_by` and writes into the
/// first row of each group what the aggregates among `columns` compute.
/// Without grouping columns all rows are one group.
pub fn apply_group_by(
    rows: Vec<Row>,
    group_by: &Vec<String>,
    columns: &Vec<ColumnExpr>,
    facts: &NumberFacts,
) -> (outcome: Result<Vec<Row>, Stop>)
    requires
        forall|i: int| 0 <= i < rows.len() ==> (#[trigger] rows[i]).wf(),
    ensures
        match outcome {
            Ok(groups) => aggregated(row_views(rows@), text_views(group_by@), columns@, facts@) == Ok::<
                Seq<Map<Seq<char>, Seq<char>>>,
                StopModel,
            >(row_views(groups@)) && forall|i: int|
                0 <= i < groups.len() ==> (#[trigger] groups[i]).wf(),
            Err(stop) => aggregated(row_views(rows@), text_views(group_by@), columns@, facts@) == Err::<
                Seq<Map<Seq<char>, Seq<char>>>,
                StopModel,
            >(stop@),
        },
{
    let ghost all = row_views(rows@);
    let ghost by = text_views(group_by@);
    let keys = distinct_keys(&rows, group_by);
    let ghost key_seq = bucket_keys(all, by);
    let mut groups: Vec<Row> = Vec::new();
    let mut open: Vec<NumberQuery> = Vec::new();
    let mut b: usize = 0;
    proof {
        assert(query_views(open@) =~= Seq::<QueryModel>::empty());
    }
    while b < keys.len()
        invariant
            b <= keys.len(),
            all == row_views(rows@),
            by == text_views(group_by@),
            key_seq == bucket_keys(all, by),
            key_views(keys@) == key_seq,
            forall|k: int| 0 <= k < rows.len() ==> (#[trigger] rows[k]).wf(),
            forall|k: int| 0 <= k < groups.len() ==> (#[trigger] groups[k]).wf(),
            groups.len() == b,
            query_views(open@) == all_open_folds(all, by, columns@, facts@, b as nat),
            query_views(open@).len() == 0 ==> forall|k: int|
                0 <= k < b ==> (#[trigger] groups[k])@ == aggregated_row(
                    bucket(all, by, key_seq[k]),
                    columns@,
                    facts@,
                    columns.len() as nat,
                ),
        decreases keys.len() - b,
    {
        assert(key_views(keys@)[b as int] == text_views(keys[b as int]@));
        let members = bucket_of(&rows, group_by, &keys[b]);
        proof {
            lemma_bucket_of_key(all, by, b as int);
        }
        let ghost before = query_views(open@);
        let row = aggregate_bucket(&members, columns, facts, &mut open);
        groups.push(row);
        proof {
            if query_views(open@).len() == 0 {
                assert(before.len() == 0);
            }
        }
        b = b + 1;
    }
    if open.len() > 0 {
        Err(Stop::Needs(open))
    } else {
        proof {
            let want = Seq::new(
                key_seq.len(),
                |k: int| aggregated_row(bucket(all, by, key_seq[k]), columns@, facts@, columns.len() as nat),
            );
            assert(row_views(groups@) =~= want);
        }
        Ok(groups)
    }
}

/// Every key among the bucket keys is the key of some row, so its bucket is
/// not empty.
pub proof fn lemma_bucket_of_key(
    rows: Seq<Map<Seq<char>, Seq<char>>>,
    columns: Seq<Seq<char>>,
    b: int,
)
    requires
        0 <= b < bucket_keys(rows, columns).len(),
    ensures
        bucket(rows, columns, bucket_keys(rows, columns)[b]).len() > 0,
    decreases rows.len(),
{
    let key = bucket_keys(rows, columns)[b];
    if rows.len() > 0 {
        let prior = bucket_keys(rows.drop_last(), columns);
        if b < prior.len() {
            assert(prior[b] == key);
            lemma_bucket_of_key(rows.drop_last(), columns, b);
        }
    }
}

/// The bucket keys are the group keys of the rows, each once: grouping gives
/// as many rows as the rows have distinct group keys.
pub proof fn law_one_row_per_group(
    rows: Seq<Map<Seq<char>, Seq<char>>>,
    columns: Seq<Seq<char>>,
    exprs: Seq<ColumnExpr>,
    facts: FactsModel,
)
    ensures
        bucket_keys(rows, columns).no_duplicates(),
        bucket_keys(rows, columns).to_set() == Set::new(
            |key: Seq<Seq<char>>|
                exists|i: int| 0 <= i < rows.len() && key == group_key(#[trigger] rows[i], columns),
        ),
        bucket_keys(rows, columns).len() == Set::new(
            |key: Seq<Seq<char>>|
                exists|i: int| 0 <= i < rows.len() && key == group_key(#[trigger] rows[i], columns),
        ).len(),
        aggregated(rows, columns, exprs, facts) is Ok ==> aggregated(
            rows,
            columns,
            exprs,
            facts,
        )->Ok_0.len() == bucket_keys(rows, columns).len(),
    decreases rows.len(),
{
    let keys = bucket_keys(rows, columns);
    let distinct = Set::new(
        |key: Seq<Seq<char>>|
            exists|i: int| 0 <= i < rows.len() && key == group_key(#[trigger] rows[i], columns),
    );
    if rows.len() > 0 {
        let init = rows.drop_last();
        law_one_row_per_group(init, columns, exprs, facts);
        let prior = bucket_keys(init, columns);
        let last_key = group_key(rows.last(), columns);
        assert forall|key: Seq<Seq<char>>| keys.to_set().contains(key) <==> distinct.contains(key) by {
            if keys.to_set().contains(key) {
                if prior.to_set().contains(key) {
                    let i = choose|i: int|
                        0 <= i < init.len() && key == group_key(#[trigger] init[i], columns);
                    assert(rows[i] == init[i]);
                } else {
                    let j = choose|j: int| 0 <= j < keys.len() && keys[j] == key;
                    if j < prior.len() {
                        assert(prior[j] == key);
                    }
                    assert(key == group_key(rows[rows.len() - 1], columns));
                }
            }
            if distinct.contains(key) {
                let i = choose|i: int| 0 <= i < rows.len() && key == group_key(#[trigger] rows[i], columns);
                if i < init.len() {
                    assert(init[i] == rows[i]);
                    assert(prior.to_set().contains(key));
                    let j = choose|j: int| 0 <= j < prior.len() && prior[j] == key;
                    assert(keys[j] == key);
                } else {
                    if prior.contains(last_key) {
                        let j = choose|j: int| 0 <= j < prior.len() && prior[j] == last_key;
                        assert(keys[j] == key);
                    } else {
                        assert(keys[keys.len() - 1] == key);
                    }
                }
            }
        }
        assert(keys.to_set() =~= distinct);
    } else {
        assert(keys.to_set() =~= distinct);
    }
    keys.unique_seq_to_set();
}

} // verus!
