use vstd::prelude::*;
use crate::ast::{ColumnExpr, HavingClause, WhereClause};
use crate::error::{frame, framed, ErrorModel, ExecError};
use crate::numeric::{query_views, FactsModel, NumberFacts, NumberQuery, NumericOrder, QueryModel};
use crate::row::{row_views, Row};
use crate::text::{str_same, string_same};

verus! {

/// Why a stage of a statement could not finish: it failed, or it needs
/// answers to numeric questions first.
#[derive(Debug)]
pub enum Stop {
    Failed(ExecError),
    Needs(Vec<NumberQuery>),
}

/// The mathematical value of a `Stop`.
pub enum StopModel {
    Failed(ErrorModel),
    Needs(Seq<QueryModel>),
}

impl View for Stop {
    type V = StopModel;

    open spec fn view(&self) -> StopModel {
        match self {
            Stop::Failed(error) => StopModel::Failed(error@),
            Stop::Needs(queries) => StopModel::Needs(query_views(queries@)),
        }
    }
}

/// What a condition says of one row.
#[derive(Debug)]
pub enum Judgement {
    Keep,
    Drop,
    /// The condition cannot be decided before this question is answered.
    Ask(NumberQuery),
    Fail(ExecError),
}

/// The mathematical value of a `Judgement`.
pub enum JudgementModel {
    Keep,
    Drop,
    Ask(QueryModel),
    Fail(ErrorModel),
}

impl View for Judgement {
    type V = JudgementModel;

    open spec fn view(&self) -> JudgementModel {
        match self {
            Judgement::Keep => JudgementModel::Keep,
            Judgement::Drop => JudgementModel::Drop,
            Judgement::Ask(query) => JudgementModel::Ask(query@),
            Judgement::Fail(error) => JudgementModel::Fail(error@),
        }
    }
}

/// The views of `judgements`, in order.
pub open spec fn judgement_views(judgements: Seq<Judgement>) -> Seq<JudgementModel> {
    Seq::new(judgements.len(), |i: int| judgements[i]@)
}

/// The error of a comparison operand that is no number.
pub open spec fn invalid_number() -> ErrorModel {
    ErrorModel::ParseError("Invalid number"@)
}

/// The error of an operator that the engine does not know.
pub open spec fn unsupported_operator(operator: Seq<char>) -> ErrorModel {
    ErrorModel::Unsupported(framed("Unsupported operator: "@, operator, ""@))
}

/// The error of a column that a row lacks.
pub open spec fn column_not_found(column: Seq<char>) -> ErrorModel {
    ErrorModel::NotFound(framed("Column '"@, column, "' not found"@))
}

/// Keep or drop.
pub open spec fn keep_if(holds: bool) -> JudgementModel {
    if holds {
        JudgementModel::Keep
    } else {
        JudgementModel::Drop
    }
}

/// What comparing `left` with `right` as numbers says, where `pick` tells
/// which of the outcomes keep the row: an unanswered comparison is asked
/// for, and an operand that is no number is an error.
pub open spec fn numeric_judgement(
    left: Seq<char>,
    right: Seq<char>,
    facts: FactsModel,
    pick: spec_fn(NumericOrder) -> bool,
) -> JudgementModel {
    if !facts.orders.contains_key((left, right)) {
        JudgementModel::Ask(QueryModel::Compare { left, right })
    } else if facts.orders[(left, right)] == NumericOrder::NotNumeric {
        JudgementModel::Fail(invalid_number())
    } else {
        keep_if(pick(facts.orders[(left, right)]))
    }
}

/// What a WHERE condition says of `row`: a row that lacks the column is
/// dropped; `=` and `!=` compare the texts; `<` and `>` compare them as
/// numbers; any other operator is an error.
pub open spec fn where_judgement(
    row: Map<Seq<char>, Seq<char>>,
    column: Seq<char>,
    operator: Seq<char>,
    value: Seq<char>,
    facts: FactsModel,
) -> JudgementModel {
    if !row.contains_key(column) {
        JudgementModel::Drop
    } else if operator == "="@ {
        keep_if(row[column] == value)
    } else if operator == "!="@ {
        keep_if(row[column] != value)
    } else if operator == ">"@ {
        numeric_judgement(row[column], value, facts, |o: NumericOrder| o == NumericOrder::Greater)
    } else if operator == "<"@ {
        numeric_judgement(row[column], value, facts, |o: NumericOrder| o == NumericOrder::Less)
    } else {
        JudgementModel::Fail(unsupported_operator(operator))
    }
}

/// The name under which an aggregated row holds what `expr` computes.
pub open spec fn display_name(expr: ColumnExpr) -> Seq<char> {
    match expr {
        ColumnExpr::Column(name) => name@,
        ColumnExpr::Count(name) => framed("COUNT("@, name@, ")"@),
        ColumnExpr::Sum(name) => framed("SUM("@, name@, ")"@),
        ColumnExpr::Avg(name) => framed("AVG("@, name@, ")"@),
        ColumnExpr::Min(name) => framed("MIN("@, name@, ")"@),
        ColumnExpr::Max(name) => framed("MAX("@, name@, ")"@),
        ColumnExpr::CountAll => "COUNT(*)"@,
        ColumnExpr::All => "*"@,
    }
}

/// The column that a HAVING condition on `expr` reads.
pub open spec fn having_column(expr: ColumnExpr) -> Seq<char> {
    match expr {
        ColumnExpr::All => "ALL"@,
        _ => display_name(expr),
    }
}

/// What a HAVING condition says of `row`: the column must be there; its
/// value and the threshold are compared as numbers by `>`, `<`, `=` or `!=`;
/// any other operator is an error.
pub open spec fn having_judgement(
    row: Map<Seq<char>, Seq<char>>,
    column: Seq<char>,
    operator: Seq<char>,
    value: Seq<char>,
    facts: FactsModel,
) -> JudgementModel {
    if !row.contains_key(column) {
        JudgementModel::Fail(column_not_found(column))
    } else if !facts.orders.contains_key((row[column], value)) {
        JudgementModel::Ask(QueryModel::Compare { left: row[column], right: value })
    } else if facts.orders[(row[column], value)] == NumericOrder::NotNumeric {
        JudgementModel::Fail(invalid_number())
    } else if operator == ">"@ {
        keep_if(facts.orders[(row[column], value)] == NumericOrder::Greater)
    } else if operator == "<"@ {
        keep_if(facts.orders[(row[column], value)] == NumericOrder::Less)
    } else if operator == "="@ {
        keep_if(facts.orders[(row[column], value)] == NumericOrder::Equal)
    } else if operator == "!="@ {
        keep_if(facts.orders[(row[column], value)] != NumericOrder::Equal)
    } else {
        JudgementModel::Fail(unsupported_operator(operator))
    }
}

/// The questions among `judgements`, in order.
pub open spec fn asked(judgements: Seq<JudgementModel>) -> Seq<QueryModel>
    decreases judgements.len(),
{
    if judgements.len() == 0 {
        Seq::empty()
    } else {
        match judgements.last() {
            JudgementModel::Ask(query) => asked(judgements.drop_last()).push(query),
            _ => asked(judgements.drop_last()),
        }
    }
}

/// The first error among `judgements`.
pub open spec fn first_failure(judgements: Seq<JudgementModel>) -> Option<ErrorModel>
    decreases judgements.len(),
{
    if judgements.len() == 0 {
        None
    } else {
        match first_failure(judgements.drop_last()) {
            Some(error) => Some(error),
            None => match judgements.last() {
                JudgementModel::Fail(error) => Some(error),
                _ => None,
            },
        }
    }
}

/// The rows whose judgement is to keep them, in order.
pub open spec fn kept(
    rows: Seq<Map<Seq<char>, Seq<char>>>,
    judgements: Seq<JudgementModel>,
) -> Seq<Map<Seq<char>, Seq<char>>>
    recommends
        rows.len() == judgements.len(),
    decreases rows.len(),
{
    if rows.len() == 0 || judgements.len() != rows.len() {
        Seq::empty()
    } else if judgements.last() is Keep {
        kept(rows.drop_last(), judgements.drop_last()).push(rows.last())
    } else {
        kept(rows.drop_last(), judgements.drop_last())
    }
}

/// What a condition makes of `rows`: it asks all open questions at once;
/// else it fails with the first error; else it gives the rows to keep.
pub open spec fn sifted(
    rows: Seq<Map<Seq<char>, Seq<char>>>,
    judgements: Seq<JudgementModel>,
) -> Result<Seq<Map<Seq<char>, Seq<char>>>, StopModel> {
    if asked(judgements).len() > 0 {
        Err(StopModel::Needs(asked(judgements)))
    } else {
        match first_failure(judgements) {
            Some(error) => Err(StopModel::Failed(error)),
            None => Ok(kept(rows, judgements)),
        }
    }
}

/// The judgement of a WHERE condition on each of `rows`.
pub open spec fn where_judgements(
    rows: Seq<Map<Seq<char>, Seq<char>>>,
    clause: WhereClause,
    facts: FactsModel,
) -> Seq<JudgementModel> {
    Seq::new(
        rows.len(),
        |i: int| where_judgement(rows[i], clause.column@, clause.operator@, clause.value@, facts),
    )
}

/// The judgement of a HAVING condition on each of `rows`.
pub open spec fn having_judgements(
    rows: Seq<Map<Seq<char>, Seq<char>>>,
    clause: HavingClause,
    facts: FactsModel,
) -> Seq<JudgementModel> {
    Seq::new(
        rows.len(),
        |i: int|
            having_judgement(
                rows[i],
                having_column(clause.column_expr),
                clause.operator@,
                clause.value@,
                facts,
            ),
    )
}

fn keep_or_drop(holds: bool) -> (judgement: Judgement)
    ensures
        judgement@ == keep_if(holds),
{
    if holds {
        Judgement::Keep
    } else {
        Judgement::Drop
    }
}

fn fail_invalid_number() -> (judgement: Judgement)
    ensures
        judgement@ == JudgementModel::Fail(invalid_number()),
{
    Judgement::Fail(ExecError::ParseError("Invalid number".to_owned()))
}

fn fail_unsupported(operator: &str) -> (judgement: Judgement)
    ensures
        judgement@ == JudgementModel::Fail(unsupported_operator(operator@)),
{
    Judgement::Fail(ExecError::Unsupported(frame("Unsupported operator: ", operator, "")))
}

/// What a WHERE condition says of `row`.
pub fn evaluate_where_condition(row: &Row, where_clause: &WhereClause, facts: &NumberFacts) -> (judgement:
    Judgement)
    requires
        row.wf(),
    ensures
        judgement@ == where_judgement(
            row@,
            where_clause.column@,
            where_clause.operator@,
            where_clause.value@,
            facts@,
        ),
{
    let operator = where_clause.operator.as_str();
    match row.get(where_clause.column.as_str()) {
        None => Judgement::Drop,
        Some(held) => {
            if str_same(operator, "=") {
                keep_or_drop(string_same(held, &where_clause.value))
            } else if str_same(operator, "!=") {
                keep_or_drop(!string_same(held, &where_clause.value))
            } else if str_same(operator, ">") {
                match facts.order_of(held.as_str(), where_clause.value.as_str()) {
                    None => Judgement::Ask(
                        NumberQuery::Compare { left: held.clone(), right: where_clause.value.clone() },
                    ),
                    Some(NumericOrder::NotNumeric) => fail_invalid_number(),
                    Some(order) => keep_or_drop(order == NumericOrder::Greater),
                }
            } else if str_same(operator, "<") {
                match facts.order_of(held.as_str(), where_clause.value.as_str()) {
                    None => Judgement::Ask(
                        NumberQuery::Compare { left: held.clone(), right: where_clause.value.clone() },
                    ),
                    Some(NumericOrder::NotNumeric) => fail_invalid_number(),
                    Some(order) => keep_or_drop(order == NumericOrder::Less),
                }
            } else {
                fail_unsupported(operator)
            }
        },
    }
}

/// The name under which an aggregated row holds what `expr` computes.
pub fn display_name_text(expr: &ColumnExpr) -> (name: String)
    ensures
        name@ == display_name(*expr),
{
    match expr {
        ColumnExpr::Column(name) => name.clone(),
        ColumnExpr::Count(name) => frame("COUNT(", name.as_str(), ")"),
        ColumnExpr::Sum(name) => frame("SUM(", name.as_str(), ")"),
        ColumnExpr::Avg(name) => frame("AVG(", name.as_str(), ")"),
        ColumnExpr::Min(name) => frame("MIN(", name.as_str(), ")"),
        ColumnExpr::Max(name) => frame("MAX(", name.as_str(), ")"),
        ColumnExpr::CountAll => "COUNT(*)".to_owned(),
        ColumnExpr::All => "*".to_owned(),
    }
}

/// What a HAVING condition says of `row`.
pub fn evaluate_having_condition(row: &Row, having: &HavingClause, facts: &NumberFacts) -> (judgement:
    Judgement)
    requires
        row.wf(),
    ensures
        judgement@ == having_judgement(
            row@,
            having_column(having.column_expr),
            having.operator@,
            having.value@,
            facts@,
        ),
{
    let column = match &having.column_expr {
        ColumnExpr::All => "ALL".to_owned(),
        other => display_name_text(other),
    };
    let operator = having.operator.as_str();
    match row.get(column.as_str()) {
        None => Judgement::Fail(ExecError::NotFound(frame("Column '", column.as_str(), "' not found"))),
        Some(held) => match facts.order_of(held.as_str(), having.value.as_str()) {
            None => Judgement::Ask(
                NumberQuery::Compare { left: held.clone(), right: having.value.clone() },
            ),
            Some(NumericOrder::NotNumeric) => fail_invalid_number(),
            Some(order) => {
                if str_same(operator, ">") {
                    keep_or_drop(order == NumericOrder::Greater)
                } else if str_same(operator, "<") {
                    keep_or_drop(order == NumericOrder::Less)
                } else if str_same(operator, "=") {
                    keep_or_drop(order == NumericOrder::Equal)
                } else if str_same(operator, "!=") {
                    keep_or_drop(order != NumericOrder::Equal)
                } else {
                    fail_unsupported(operator)
                }
            },
        },
    }
}

/// Carries out the judgements on `rows`.
pub fn sift(rows: Vec<Row>, judgements: Vec<Judgement>) -> (outcome: Result<Vec<Row>, Stop>)
    requires
        rows.len() == judgements.len(),
        forall|i: int| 0 <= i < rows.len() ==> (#[trigger] rows[i]).wf(),
    ensures
        match outcome {
            Ok(left) => sifted(row_views(rows@), judgement_views(judgements@)) == Ok::<
                Seq<Map<Seq<char>, Seq<char>>>,
                StopModel,
            >(row_views(left@)) && forall|i: int| 0 <= i < left.len() ==> (#[trigger] left[i]).wf(),
            Err(stop) => sifted(row_views(rows@), judgement_views(judgements@)) == Err::<
                Seq<Map<Seq<char>, Seq<char>>>,
                StopModel,
            >(stop@),
        },
{
    let ghost all_rows = row_views(rows@);
    let ghost all = judgement_views(judgements@);
    let mut left: Vec<Row> = Vec::new();
    let mut queries: Vec<NumberQuery> = Vec::new();
    let mut failure: Option<ExecError> = None;
    let mut rows = rows;
    let mut judgements = judgements;
    let n: usize = rows.len();
    let mut i: usize = 0;
    proof {
        assert(all.subrange(0, 0) =~= Seq::<JudgementModel>::empty());
        assert(all_rows.subrange(0, 0) =~= Seq::<Map<Seq<char>, Seq<char>>>::empty());
        assert(row_views(left@) =~= Seq::<Map<Seq<char>, Seq<char>>>::empty());
        assert(query_views(queries@) =~= Seq::<QueryModel>::empty());
    }
    while i < n
        invariant
            i <= n,
            n == rows.len(),
            n == judgements.len(),
            all_rows == row_views(rows@),
            all == judgement_views(judgements@),
            forall|k: int| 0 <= k < rows.len() ==> (#[trigger] rows[k]).wf(),
            forall|k: int| 0 <= k < left.len() ==> (#[trigger] left[k]).wf(),
            row_views(left@) == kept(all_rows.subrange(0, i as int), all.subrange(0, i as int)),
            query_views(queries@) == asked(all.subrange(0, i as int)),
            match failure {
                Some(error) => first_failure(all.subrange(0, i as int)) == Some(error@),
                None => first_failure(all.subrange(0, i as int)) is None,
            },
        decreases n - i,
    {
        let ghost next = all.subrange(0, i + 1);
        let ghost next_rows = all_rows.subrange(0, i + 1);
        let ghost before_left = row_views(left@);
        let ghost before_queries = query_views(queries@);
        proof {
            assert(next.drop_last() =~= all.subrange(0, i as int));
            assert(next_rows.drop_last() =~= all_rows.subrange(0, i as int));
            assert(next.last() == judgements[i as int]@);
            assert(next_rows.last() == rows[i as int]@);
        }
        match &judgements[i] {
            Judgement::Keep => {
                left.push(rows[i].clone());
                assert(row_views(left@) =~= before_left.push(rows[i as int]@));
            },
            Judgement::Drop => {},
            Judgement::Ask(query) => {
                queries.push(copy_query(query));
                assert(query_views(queries@) =~= before_queries.push(query@));
            },
            Judgement::Fail(error) => {
                if failure.is_none() {
                    failure = Some(error.clone());
                }
            },
        }
        i = i + 1;
    }
    proof {
        assert(all.subrange(0, n as int) =~= all);
        assert(all_rows.subrange(0, n as int) =~= all_rows);
    }
    if queries.len() > 0 {
        Err(Stop::Needs(queries))
    } else {
        match failure {
            Some(error) => Err(Stop::Failed(error)),
            None => Ok(left),
        }
    }
}

/// What stands in the way of carrying out the judgements: the open questions,
/// all at once; else the first error; else nothing.
pub open spec fn pending(judgements: Seq<JudgementModel>) -> Option<StopModel> {
    if asked(judgements).len() > 0 {
        Some(StopModel::Needs(asked(judgements)))
    } else {
        match first_failure(judgements) {
            Some(error) => Some(StopModel::Failed(error)),
            None => None,
        }
    }
}

/// The number of rows among the first `n` that the judgements keep.
pub open spec fn keep_count(judgements: Seq<JudgementModel>, n: nat) -> nat
    recommends
        n <= judgements.len(),
    decreases n,
{
    if n == 0 {
        0
    } else if judgements[n - 1] is Keep {
        keep_count(judgements, (n - 1) as nat) + 1
    } else {
        keep_count(judgements, (n - 1) as nat)
    }
}

/// What stands in the way of carrying out the judgements.
pub fn settle(judgements: &Vec<Judgement>) -> (stop: Option<Stop>)
    ensures
        match stop {
            Some(found) => pending(judgement_views(judgements@)) == Some(found@),
            None => pending(judgement_views(judgements@)) is None,
        },
{
    let ghost all = judgement_views(judgements@);
    let mut queries: Vec<NumberQuery> = Vec::new();
    let mut failure: Option<ExecError> = None;
    let mut i: usize = 0;
    proof {
        assert(all.subrange(0, 0) =~= Seq::<JudgementModel>::empty());
        assert(query_views(queries@) =~= Seq::<QueryModel>::empty());
    }
    while i < judgements.len()
        invariant
            i <= judgements.len(),
            all == judgement_views(judgements@),
            query_views(queries@) == asked(all.subrange(0, i as int)),
            match failure {
                Some(error) => first_failure(all.subrange(0, i as int)) == Some(error@),
                None => first_failure(all.subrange(0, i as int)) is None,
            },
        decreases judgements.len() - i,
    {
        let ghost next = all.subrange(0, i + 1);
        let ghost before_queries = query_views(queries@);
        proof {
            assert(next.drop_last() =~= all.subrange(0, i as int));
            assert(next.last() == judgements[i as int]@);
        }
        match &judgements[i] {
            Judgement::Keep => {},
            Judgement::Drop => {},
            Judgement::Ask(query) => {
                queries.push(copy_query(query));
                assert(query_views(queries@) =~= before_queries.push(query@));
            },
            Judgement::Fail(error) => {
                if failure.is_none() {
                    failure = Some(error.clone());
                }
            },
        }
        i = i + 1;
    }
    proof {
        assert(all.subrange(0, judgements.len() as int) =~= all);
    }
    if queries.len() > 0 {
        Some(Stop::Needs(queries))
    } else {
        match failure {
            Some(error) => Some(Stop::Failed(error)),
            None => None,
        }
    }
}

/// The judgement of an optional WHERE condition on each of `rows`: without a
/// condition every row is kept.
pub open spec fn judgements_or_keep(
    rows: Seq<Map<Seq<char>, Seq<char>>>,
    clause: Option<WhereClause>,
    facts: FactsModel,
) -> Seq<JudgementModel> {
    match clause {
        Some(condition) => where_judgements(rows, condition, facts),
        None => Seq::new(rows.len(), |i: int| JudgementModel::Keep),
    }
}

/// The judgement of an optional WHERE condition on each of `rows`.
pub fn judge_rows(rows: &Vec<Row>, clause: &Option<WhereClause>, facts: &NumberFacts) -> (judgements: Vec<
    Judgement,
>)
    requires
        forall|i: int| 0 <= i < rows.len() ==> (#[trigger] rows[i]).wf(),
    ensures
        judgements.len() == rows.len(),
        judgement_views(judgements@) == judgements_or_keep(row_views(rows@), *clause, facts@),
{
    let mut judgements: Vec<Judgement> = Vec::new();
    let mut i: usize = 0;
    while i < rows.len()
        invariant
            i <= rows.len(),
            judgements.len() == i,
            forall|k: int| 0 <= k < rows.len() ==> (#[trigger] rows[k]).wf(),
            forall|k: int|
                0 <= k < i ==> (#[trigger] judgements[k])@ == judgements_or_keep(
                    row_views(rows@),
                    *clause,
                    facts@,
                )[k],
        decreases rows.len() - i,
    {
        let judgement = match clause {
            Some(condition) => evaluate_where_condition(&rows[i], condition, facts),
            None => Judgement::Keep,
        };
        assert(row_views(rows@)[i as int] == rows[i as int]@);
        judgements.push(judgement);
        i = i + 1;
    }
    assert(judgement_views(judgements@) =~= judgements_or_keep(row_views(rows@), *clause, facts@));
    judgements
}

/// A copy of `query`.
pub fn copy_query(query: &NumberQuery) -> (copy: NumberQuery)
    ensures
        copy@ == query@,
{
    match query {
        NumberQuery::Compare { left, right } => NumberQuery::Compare {
            left: left.clone(),
            right: right.clone(),
        },
        NumberQuery::Fold { kind, values } => NumberQuery::Fold {
            kind: *kind,
            values: crate::numeric::copy_texts(values),
        },
    }
}

/// Keeps the rows of which the WHERE condition holds.
pub fn apply_where_clause(rows: Vec<Row>, where_clause: &WhereClause, facts: &NumberFacts) -> (outcome:
    Result<Vec<Row>, Stop>)
    requires
        forall|i: int| 0 <= i < rows.len() ==> (#[trigger] rows[i]).wf(),
    ensures
        match outcome {
            Ok(left) => sifted(
                row_views(rows@),
                where_judgements(row_views(rows@), *where_clause, facts@),
            ) == Ok::<Seq<Map<Seq<char>, Seq<char>>>, StopModel>(row_views(left@)) && forall|i: int|
                0 <= i < left.len() ==> (#[trigger] left[i]).wf(),
            Err(stop) => sifted(
                row_views(rows@),
                where_judgements(row_views(rows@), *where_clause, facts@),
            ) == Err::<Seq<Map<Seq<char>, Seq<char>>>, StopModel>(stop@),
        },
{
    let mut judgements: Vec<Judgement> = Vec::new();
    let mut i: usize = 0;
    while i < rows.len()
        invariant
            i <= rows.len(),
            judgements.len() == i,
            forall|k: int| 0 <= k < rows.len() ==> (#[trigger] rows[k]).wf(),
            forall|k: int|
                0 <= k < i ==> (#[trigger] judgements[k])@ == where_judgement(
                    rows[k]@,
                    where_clause.column@,
                    where_clause.operator@,
                    where_clause.value@,
                    facts@,
                ),
        decreases rows.len() - i,
    {
        judgements.push(evaluate_where_condition(&rows[i], where_clause, facts));
        i = i + 1;
    }
    assert(judgement_views(judgements@) =~= where_judgements(row_views(rows@), *where_clause, facts@));
    sift(rows, judgements)
}

/// Keeps the rows of which the HAVING condition holds.
pub fn apply_having(rows: Vec<Row>, having: &HavingClause, facts: &NumberFacts) -> (outcome: Result<
    Vec<Row>,
    Stop,
>)
    requires
        forall|i: int| 0 <= i < rows.len() ==> (#[trigger] rows[i]).wf(),
    ensures
        match outcome {
            Ok(left) => sifted(
                row_views(rows@),
                having_judgements(row_views(rows@), *having, facts@),
            ) == Ok::<Seq<Map<Seq<char>, Seq<char>>>, StopModel>(row_views(left@)) && forall|i: int|
                0 <= i < left.len() ==> (#[trigger] left[i]).wf(),
            Err(stop) => sifted(
                row_views(rows@),
                having_judgements(row_views(rows@), *having, facts@),
            ) == Err::<Seq<Map<Seq<char>, Seq<char>>>, StopModel>(stop@),
        },
{
    let mut judgements: Vec<Judgement> = Vec::new();
    let mut i: usize = 0;
    while i < rows.len()
        invariant
            i <= rows.len(),
            judgements.len() == i,
            forall|k: int| 0 <= k < rows.len() ==> (#[trigger] rows[k]).wf(),
            forall|k: int|
                0 <= k < i ==> (#[trigger] judgements[k])@ == having_judgement(
                    rows[k]@,
                    having_column(having.column_expr),
                    having.operator@,
                    having.value@,
                    facts@,
                ),
        decreases rows.len() - i,
    {
        judgements.push(evaluate_having_condition(&rows[i], having, facts));
        i = i + 1;
    }
    assert(judgement_views(judgements@) =~= having_judgements(row_views(rows@), *having, facts@));
    sift(rows, judgements)
}

/// A condition only ever removes rows: what it keeps are rows that it was
/// given, no more of them than there were, and in their order.
pub proof fn law_sift_only_removes(
    rows: Seq<Map<Seq<char>, Seq<char>>>,
    judgements: Seq<JudgementModel>,
)
    requires
        rows.len() == judgements.len(),
    ensures
        kept(rows, judgements).len() <= rows.len(),
        forall|i: int|
            0 <= i < kept(rows, judgements).len() ==> rows.contains(#[trigger] kept(rows, judgements)[i]),
        sifted(rows, judgements) is Ok ==> sifted(rows, judgements)->Ok_0 == kept(rows, judgements),
    decreases rows.len(),
{
    if rows.len() > 0 {
        law_sift_only_removes(rows.drop_last(), judgements.drop_last());
        let prior = kept(rows.drop_last(), judgements.drop_last());
        assert forall|i: int| 0 <= i < kept(rows, judgements).len() implies rows.contains(
            #[trigger] kept(rows, judgements)[i],
        ) by {
            if i < prior.len() {
                assert(rows.drop_last().contains(prior[i]));
                let j = choose|j: int| 0 <= j < rows.drop_last().len() && rows.drop_last()[j] == prior[i];
                assert(rows[j] == prior[i]);
            } else {
                assert(rows[rows.len() - 1] == rows.last());
            }
        }
    }
}

} // verus!
