use vstd::prelude::*;
use crate::ast::{ColumnExpr, HavingClause, OrderByClause, SelectStatement, WhereClause};
use crate::filter::{
    apply_having, apply_where_clause, having_judgements, sifted, where_judgements, Stop,
    StopModel,
};
use crate::format::{first_names, format_select_result, rendered, schema_view};
use crate::group::{aggregated, apply_group_by};
use crate::join::{join_on, joined, perform_join};
use crate::numeric::{FactsModel, NumberFacts};
use crate::order::{apply_order_by, ordered};
use crate::row::{row_views, Row};
use crate::text::text_views;

verus! {

/// Whether `expr` is an aggregate.
pub open spec fn is_aggregate(expr: ColumnExpr) -> bool {
    match expr {
        ColumnExpr::Column(_) => false,
        ColumnExpr::All => false,
        _ => true,
    }
}

/// Whether the projection holds an aggregate.
pub open spec fn has_aggregates(columns: Seq<ColumnExpr>) -> bool {
    exists|i: int| 0 <= i < columns.len() && is_aggregate(#[trigger] columns[i])
}

/// The WHERE stage: without a condition the rows pass as they are.
pub open spec fn where_stage(
    rows: Seq<Map<Seq<char>, Seq<char>>>,
    clause: Option<WhereClause>,
    facts: FactsModel,
) -> Result<Seq<Map<Seq<char>, Seq<char>>>, StopModel> {
    match clause {
        Some(condition) => sifted(rows, where_judgements(rows, condition, facts)),
        None => Ok(rows),
    }
}

/// The aggregation stage: it runs where the statement groups, and where it
/// does not group but projects an aggregate; all rows are then one group.
pub open spec fn group_stage(
    rows: Seq<Map<Seq<char>, Seq<char>>>,
    group_by: Option<Vec<String>>,
    columns: Seq<ColumnExpr>,
    facts: FactsModel,
) -> Result<Seq<Map<Seq<char>, Seq<char>>>, StopModel> {
    match group_by {
        Some(names) => aggregated(rows, text_views(names@), columns, facts),
        None => if has_aggregates(columns) {
            aggregated(rows, Seq::empty(), columns, facts)
        } else {
            Ok(rows)
        },
    }
}

/// The HAVING stage: without a condition the rows pass as they are.
pub open spec fn having_stage(
    rows: Seq<Map<Seq<char>, Seq<char>>>,
    clause: Option<HavingClause>,
    facts: FactsModel,
) -> Result<Seq<Map<Seq<char>, Seq<char>>>, StopModel> {
    match clause {
        Some(condition) => sifted(rows, having_judgements(rows, condition, facts)),
        None => Ok(rows),
    }
}

/// The ORDER BY stage: without a clause the rows pass as they are.
pub open spec fn order_stage(rows: Seq<Map<Seq<char>, Seq<char>>>, clause: Option<OrderByClause>) -> Seq<
    Map<Seq<char>, Seq<char>>,
> {
    match clause {
        Some(order) => ordered(rows, order.column@, order.descending),
        None => rows,
    }
}

/// The rows that a statement starts from: the table's rows, or their join
/// with the rows of the joined table.
pub open spec fn join_stage(
    lefts: Seq<Map<Seq<char>, Seq<char>>>,
    rights: Seq<Map<Seq<char>, Seq<char>>>,
    stmt: SelectStatement,
) -> Seq<Map<Seq<char>, Seq<char>>> {
    match stmt.join {
        Some(join) => joined(join.join_type, join_on(join), lefts, rights),
        None => lefts,
    }
}

/// What a SELECT gives for the rows `lefts` of its table and the rows
/// `rights` of the joined table: join, then WHERE, then grouping and
/// aggregation, then HAVING, then ORDER BY, then the projection as text.
pub open spec fn select_result(
    lefts: Seq<Map<Seq<char>, Seq<char>>>,
    rights: Seq<Map<Seq<char>, Seq<char>>>,
    stmt: SelectStatement,
    schema: Option<Seq<Seq<char>>>,
    facts: FactsModel,
) -> Result<Seq<char>, StopModel> {
    match where_stage(join_stage(lefts, rights, stmt), stmt.where_clause, facts) {
        Err(stop) => Err(stop),
        Ok(filtered) => match group_stage(filtered, stmt.group_by, stmt.columns@, facts) {
            Err(stop) => Err(stop),
            Ok(grouped) => match having_stage(grouped, stmt.having, facts) {
                Err(stop) => Err(stop),
                Ok(chosen) => {
                    let sorted = order_stage(chosen, stmt.order_by);
                    Ok(rendered(sorted, stmt.columns@, schema, first_names(sorted)))
                },
            },
        },
    }
}

/// Whether the projection holds an aggregate.
pub fn projects_aggregate(columns: &Vec<ColumnExpr>) -> (found: bool)
    ensures
        found == has_aggregates(columns@),
{
    let mut i: usize = 0;
    while i < columns.len()
        invariant
            i <= columns.len(),
            forall|k: int| 0 <= k < i ==> !is_aggregate(#[trigger] columns[k]),
        decreases columns.len() - i,
    {
        let aggregate = match &columns[i] {
            ColumnExpr::Column(_) => false,
            ColumnExpr::All => false,
            _ => true,
        };
        if aggregate {
            return true;
        }
        i = i + 1;
    }
    false
}

/// Runs a SELECT on the rows of its table, `left_rows`, and the rows of the
/// joined table, `right_rows`, which are read only where the statement
/// joins. `schema` holds the table's recorded columns, if any.
pub fn run_select(
    left_rows: Vec<Row>,
    right_rows: &Vec<Row>,
    stmt: &SelectStatement,
    schema: Option<&Vec<String>>,
    facts: &NumberFacts,
) -> (outcome: Result<String, Stop>)
    requires
        forall|i: int| 0 <= i < left_rows.len() ==> (#[trigger] left_rows[i]).wf(),
        forall|i: int| 0 <= i < right_rows.len() ==> (#[trigger] right_rows[i]).wf(),
    ensures
        match outcome {
            Ok(text) => select_result(
                row_views(left_rows@),
                row_views(right_rows@),
                *stmt,
                schema_view(schema),
                facts@,
            ) == Ok::<Seq<char>, StopModel>(text@),
            Err(stop) => select_result(
                row_views(left_rows@),
                row_views(right_rows@),
                *stmt,
                schema_view(schema),
                facts@,
            ) == Err::<Seq<char>, StopModel>(stop@),
        },
{
    let rows = match &stmt.join {
        Some(join) => perform_join(&left_rows, right_rows, join),
        None => left_rows,
    };
    let rows = match &stmt.where_clause {
        Some(condition) => match apply_where_clause(rows, condition, facts) {
            Ok(kept) => kept,
            Err(stop) => {
                return Err(stop);
            },
        },
        None => rows,
    };
    let rows = match &stmt.group_by {
        Some(names) => match apply_group_by(rows, names, &stmt.columns, facts) {
            Ok(groups) => groups,
            Err(stop) => {
                return Err(stop);
            },
        },
        None => if projects_aggregate(&stmt.columns) {
            let none: Vec<String> = Vec::new();
            assert(text_views(none@) =~= Seq::<Seq<char>>::empty());
            match apply_group_by(rows, &none, &stmt.columns, facts) {
                Ok(groups) => groups,
                Err(stop) => {
                    return Err(stop);
                },
            }
        } else {
            rows
        },
    };
    let rows = match &stmt.having {
        Some(condition) => match apply_having(rows, condition, facts) {
            Ok(kept) => kept,
            Err(stop) => {
                return Err(stop);
            },
        },
        None => rows,
    };
    let rows = match &stmt.order_by {
        Some(order) => apply_order_by(rows, order),
        None => rows,
    };
    Ok(format_select_result(&rows, &stmt.columns, schema))
}

} // verus!
