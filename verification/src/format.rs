use vstd::prelude::*;
use vstd::string::StringExecFns;
use vstd::string::StringSliceAdditionalSpecFns;
use crate::ast::ColumnExpr;
use crate::entry::utf8_len;
use crate::filter::{display_name, display_name_text};
use crate::numeric::copy_texts;
use crate::row::{row_views, Row};
use crate::text::{joined, push_joined, push_repeated, repeated, text_views};

verus! {

/// Whether the projection is `*` alone.
pub open spec fn is_star(columns: Seq<ColumnExpr>) -> bool {
    columns.len() == 1 && columns[0] is All
}

/// What a row shows under `name`: its value, or `NULL` where it lacks the column.
pub open spec fn cell(row: Map<Seq<char>, Seq<char>>, name: Seq<char>) -> Seq<char> {
    if row.contains_key(name) {
        row[name]
    } else {
        "NULL"@
    }
}

/// The names over the columns of the result: for `*` the table's recorded
/// columns, or the first row's column names in ascending order where none
/// are recorded; else the names of the projected items, in their order.
pub open spec fn headers(
    columns: Seq<ColumnExpr>,
    schema: Option<Seq<Seq<char>>>,
    first_names: Seq<Seq<char>>,
) -> Seq<Seq<char>> {
    if is_star(columns) {
        match schema {
            Some(names) => names,
            None => first_names,
        }
    } else {
        Seq::new(columns.len(), |i: int| display_name(columns[i]))
    }
}

/// What a row shows for one projected item.
pub open spec fn shown(row: Map<Seq<char>, Seq<char>>, expr: ColumnExpr) -> Seq<char> {
    match expr {
        ColumnExpr::All => "*"@,
        _ => cell(row, display_name(expr)),
    }
}

/// The texts that one line of the result shows for `row`.
pub open spec fn cells(
    row: Map<Seq<char>, Seq<char>>,
    columns: Seq<ColumnExpr>,
    schema: Option<Seq<Seq<char>>>,
    first_names: Seq<Seq<char>>,
) -> Seq<Seq<char>> {
    if is_star(columns) {
        let names = headers(columns, schema, first_names);
        Seq::new(names.len(), |i: int| cell(row, names[i]))
    } else {
        Seq::new(columns.len(), |i: int| shown(row, columns[i]))
    }
}

/// The number of dashes under a header line: one more than its bytes.
pub open spec fn rule_length(header: Seq<char>) -> nat {
    if utf8_len(header) < usize::MAX {
        (utf8_len(header) + 1) as nat
    } else {
        usize::MAX as nat
    }
}

/// The lines of the first `n` rows, each ended by a line break.
pub open spec fn body(
    rows: Seq<Map<Seq<char>, Seq<char>>>,
    columns: Seq<ColumnExpr>,
    schema: Option<Seq<Seq<char>>>,
    first_names: Seq<Seq<char>>,
    n: nat,
) -> Seq<char>
    recommends
        n <= rows.len(),
    decreases n,
{
    if n == 0 {
        Seq::empty()
    } else {
        body(rows, columns, schema, first_names, (n - 1) as nat) + joined(
            cells(rows[n - 1], columns, schema, first_names),
            " | "@,
        ) + "\n"@
    }
}

/// The text of a result: for no rows a remark; else a header line, a rule of
/// dashes, and one line for each row, the texts of a line set apart by ` | `.
pub open spec fn rendered(
    rows: Seq<Map<Seq<char>, Seq<char>>>,
    columns: Seq<ColumnExpr>,
    schema: Option<Seq<Seq<char>>>,
    first_names: Seq<Seq<char>>,
) -> Seq<char> {
    if rows.len() == 0 {
        "No matching rows found"@
    } else {
        let header = joined(headers(columns, schema, first_names), " | "@);
        header + "\n"@ + repeated('-', rule_length(header)) + "\n"@ + body(
            rows,
            columns,
            schema,
            first_names,
            rows.len(),
        )
    }
}

/// The recorded columns as a model.
pub open spec fn schema_view(schema: Option<&Vec<String>>) -> Option<Seq<Seq<char>>> {
    match schema {
        Some(names) => Some(text_views(names@)),
        None => None,
    }
}

/// The column names of the first of `rows` in ascending order; none where
/// there is no row.
pub open spec fn first_names(rows: Seq<Map<Seq<char>, Seq<char>>>) -> Seq<Seq<char>> {
    if rows.len() == 0 {
        Seq::empty()
    } else {
        crate::keys::sorted_keys(rows[0].dom())
    }
}

fn is_star_list(columns: &Vec<ColumnExpr>) -> (star: bool)
    ensures
        star == is_star(columns@),
{
    if columns.len() == 1 {
        match &columns[0] {
            ColumnExpr::All => true,
            _ => false,
        }
    } else {
        false
    }
}

fn cell_text(row: &Row, name: &str) -> (text: String)
    requires
        row.wf(),
    ensures
        text@ == cell(row@, name@),
{
    match row.get(name) {
        Some(value) => value.clone(),
        None => "NULL".to_owned(),
    }
}

fn header_names(columns: &Vec<ColumnExpr>, schema: Option<&Vec<String>>, first: &Row) -> (names: Vec<
    String,
>)
    ensures
        text_views(names@) == headers(columns@, schema_view(schema), first.names_view()),
{
    if is_star_list(columns) {
        match schema {
            Some(recorded) => copy_texts(recorded),
            None => {
                let names = first.names();
                names
            },
        }
    } else {
        let mut names: Vec<String> = Vec::new();
        let mut i: usize = 0;
        while i < columns.len()
            invariant
                i <= columns.len(),
                names.len() == i,
                forall|k: int| 0 <= k < i ==> (#[trigger] names[k])@ == display_name(columns[k]),
            decreases columns.len() - i,
        {
            names.push(display_name_text(&columns[i]));
            i = i + 1;
        }
        assert(text_views(names@) =~= headers(columns@, schema_view(schema), first.names_view()));
        names
    }
}

fn row_cells(row: &Row, columns: &Vec<ColumnExpr>, names: &Vec<String>, star: bool) -> (texts: Vec<String>)
    requires
        row.wf(),
        star == is_star(columns@),
    ensures
        star ==> text_views(texts@) == Seq::new(
            names.len() as nat,
            |i: int| cell(row@, text_views(names@)[i]),
        ),
        !star ==> text_views(texts@) == Seq::new(
            columns.len() as nat,
            |i: int| shown(row@, columns[i]),
        ),
{
    let mut texts: Vec<String> = Vec::new();
    if star {
        let mut i: usize = 0;
        while i < names.len()
            invariant
                i <= names.len(),
                row.wf(),
                texts.len() == i,
                forall|k: int| 0 <= k < i ==> (#[trigger] texts[k])@ == cell(row@, names[k]@),
            decreases names.len() - i,
        {
            texts.push(cell_text(row, names[i].as_str()));
            i = i + 1;
        }
        assert(text_views(texts@) =~= Seq::new(
            names.len() as nat,
            |i: int| cell(row@, text_views(names@)[i]),
        ));
    } else {
        let mut i: usize = 0;
        while i < columns.len()
            invariant
                i <= columns.len(),
                row.wf(),
                texts.len() == i,
                forall|k: int| 0 <= k < i ==> (#[trigger] texts[k])@ == shown(row@, columns[k]),
            decreases columns.len() - i,
        {
            let text = match &columns[i] {
                ColumnExpr::All => "*".to_owned(),
                other => cell_text(row, display_name_text(other).as_str()),
            };
            texts.push(text);
            i = i + 1;
        }
        assert(text_views(texts@) =~= Seq::new(columns.len() as nat, |i: int| shown(row@, columns[i])));
    }
    texts
}

/// Writes the result of a SELECT as text. `schema` holds the table's
/// recorded columns, if any were recorded.
pub fn format_select_result(rows: &Vec<Row>, columns: &Vec<ColumnExpr>, schema: Option<&Vec<String>>) -> (text:
    String)
    requires
        forall|i: int| 0 <= i < rows.len() ==> (#[trigger] rows[i]).wf(),
    ensures
        text@ == rendered(
            row_views(rows@),
            columns@,
            schema_view(schema),
            first_names(row_views(rows@)),
        ),
{
    if rows.len() == 0 {
        return "No matching rows found".to_owned();
    }
    let ghost all = row_views(rows@);
    let ghost given = schema_view(schema);
    let ghost firsts = first_names(all);
    proof {
        rows[0].lemma_names();
        assert(all[0] == rows[0]@);
    }
    let star = is_star_list(columns);
    let names = header_names(columns, schema, &rows[0]);
    let mut header = String::new();
    push_joined(&mut header, &names, " | ");
    assert(header@ =~= joined(headers(columns@, given, firsts), " | "@));
    let bytes: usize = header.as_str().len();
    let dashes: usize = if bytes < usize::MAX {
        bytes + 1
    } else {
        usize::MAX
    };
    let mut text = header;
    text.append("\n");
    push_repeated(&mut text, '-', dashes);
    text.append("\n");
    let ghost head = text@;
    assert(head + Seq::<char>::empty() =~= head);
    let mut i: usize = 0;
    while i < rows.len()
        invariant
            i <= rows.len(),
            all == row_views(rows@),
            given == schema_view(schema),
            firsts == first_names(all),
            star == is_star(columns@),
            text_views(names@) == headers(columns@, given, firsts),
            forall|k: int| 0 <= k < rows.len() ==> (#[trigger] rows[k]).wf(),
            text@ == head + body(all, columns@, given, firsts, i as nat),
        decreases rows.len() - i,
    {
        let texts = row_cells(&rows[i], columns, &names, star);
        assert(all[i as int] == rows[i as int]@);
        assert(text_views(texts@) =~= cells(all[i as int], columns@, given, firsts));
        let ghost before = text@;
        push_joined(&mut text, &texts, " | ");
        text.append("\n");
        assert(text@ =~= head + body(all, columns@, given, firsts, (i + 1) as nat));
        i = i + 1;
    }
    text
}

} // verus!
