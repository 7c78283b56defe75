use lsm_sql::{
    AlterAction, AlterTableStatement, ColumnExpr, CreateTableStatement, Database, DeleteStatement,
    DropTableStatement, ExecError, FoldKind, InsertStatement, JoinClause, JoinType, NumberFacts,
    NumberQuery, NumericOrder, OrderByClause, Reply, SQLStatement, SelectStatement, UpdateStatement,
    WhereClause,
};

fn s(text: &str) -> String {
    text.to_string()
}

fn compare_numbers(left: &str, right: &str) -> NumericOrder {
    match (left.parse::<f64>(), right.parse::<f64>()) {
        (Ok(a), Ok(b)) => {
            if a < b {
                NumericOrder::Less
            } else if a > b {
                NumericOrder::Greater
            } else if a == b {
                NumericOrder::Equal
            } else {
                NumericOrder::Unordered
            }
        }
        _ => NumericOrder::NotNumeric,
    }
}

fn fold_numbers(kind: FoldKind, values: &[String]) -> String {
    let numbers: Vec<f64> = values.iter().filter_map(|v| v.parse::<f64>().ok()).collect();
    let folded = match kind {
        FoldKind::Sum => numbers.iter().sum::<f64>(),
        FoldKind::Avg => {
            if numbers.is_empty() {
                0.0
            } else {
                numbers.iter().sum::<f64>() / numbers.len() as f64
            }
        }
        FoldKind::Min => numbers.iter().fold(f64::INFINITY, |a, &b| a.min(b)),
        FoldKind::Max => numbers.iter().fold(f64::NEG_INFINITY, |a, &b| a.max(b)),
    };
    folded.to_string()
}

fn run(db: &mut Database, stmt: SQLStatement) -> Result<String, ExecError> {
    let mut facts = NumberFacts::new();
    loop {
        match db.execute(stmt.clone(), &facts) {
            Reply::Done(outcome) => return outcome,
            Reply::Needs(queries) => {
                assert!(!queries.is_empty());
                for query in queries {
                    match query {
                        NumberQuery::Compare { left, right } => {
                            let order = compare_numbers(&left, &right);
                            facts.record_order(left, right, order);
                        }
                        NumberQuery::Fold { kind, values } => {
                            let text = fold_numbers(kind, &values);
                            facts.record_fold(kind, values, text);
                        }
                    }
                }
            }
        }
    }
}

fn create(table: &str) -> SQLStatement {
    SQLStatement::CreateTable(CreateTableStatement { table: s(table), columns: vec![(s("a"), s("TEXT"))] })
}

fn insert(table: &str, columns: &[&str], values: &[&[&str]]) -> SQLStatement {
    SQLStatement::Insert(InsertStatement {
        table: s(table),
        columns: columns.iter().map(|c| s(c)).collect(),
        values: values.iter().map(|tuple| tuple.iter().map(|v| s(v)).collect()).collect(),
    })
}

fn select(table: &str, columns: Vec<ColumnExpr>) -> SelectStatement {
    SelectStatement {
        columns,
        table: s(table),
        where_clause: None,
        order_by: None,
        group_by: None,
        having: None,
        join: None,
    }
}

fn col(name: &str) -> ColumnExpr {
    ColumnExpr::Column(s(name))
}

fn condition(column: &str, operator: &str, value: &str) -> Option<WhereClause> {
    Some(WhereClause { column: s(column), operator: s(operator), value: s(value) })
}

fn body(text: &str) -> Vec<String> {
    text.lines().skip(2).map(|line| line.to_string()).collect()
}

#[test]
fn memory_create_rejects_a_table_that_exists() {
    let mut db = Database::new();
    assert_eq!(run(&mut db, create("t")), Ok(s(" Created table 't'")));
    assert_eq!(run(&mut db, create("t")), Err(ExecError::AlreadyExists(s("Table 't' already exists"))));
}

#[test]
fn memory_insert_keeps_rows_in_the_order_of_insertion() {
    let mut db = Database::new();
    assert_eq!(run(&mut db, insert("t", &["a"], &[&["2"], &["1"]])), Ok(s(" Insert successful")));
    assert_eq!(run(&mut db, insert("t", &["a"], &[&["3"]])), Ok(s(" Insert successful")));
    let text = run(&mut db, SQLStatement::Select(select("t", vec![ColumnExpr::All]))).unwrap();
    assert_eq!(text, "a\n--\n2\n1\n3\n");
}

#[test]
fn memory_insert_of_a_tuple_of_the_wrong_length_is_a_schema_violation() {
    let mut db = Database::new();
    assert_eq!(
        run(&mut db, insert("t", &["a", "b"], &[&["1", "x"], &["2"], &["3", "z"]])),
        Err(ExecError::SchemaViolation(s("Column count does not match value count")))
    );
    let text = run(&mut db, SQLStatement::Select(select("t", vec![col("a")]))).unwrap();
    assert_eq!(body(&text), vec![s("1")]);
}

#[test]
fn memory_select_star_shows_the_sorted_columns_of_the_first_row() {
    let mut db = Database::new();
    run(&mut db, insert("t", &["name", "age"], &[&["Alice", "30"]])).unwrap();
    run(&mut db, insert("t", &["age", "zip"], &[&["4", "1"]])).unwrap();
    assert_eq!(
        run(&mut db, SQLStatement::Select(select("t", vec![ColumnExpr::All]))),
        Ok(s("age | name\n-----------\n30 | Alice\n4 | NULL\n"))
    );
}

#[test]
fn memory_select_names_the_missing_table() {
    let mut db = Database::new();
    assert_eq!(
        run(&mut db, SQLStatement::Select(select("t", vec![ColumnExpr::All]))),
        Err(ExecError::NotFound(s("Table 't' not found")))
    );
    let mut stmt = select("t", vec![ColumnExpr::All]);
    stmt.join = Some(JoinClause { join_type: JoinType::Cross, table: s("u"), on_left: s(""), on_right: s("") });
    assert_eq!(
        run(&mut db, SQLStatement::Select(stmt.clone())),
        Err(ExecError::NotFound(s("Left table 't' not found")))
    );
    run(&mut db, create("t")).unwrap();
    assert_eq!(
        run(&mut db, SQLStatement::Select(stmt.clone())),
        Err(ExecError::NotFound(s("Right table 'u' not found")))
    );
    run(&mut db, create("u")).unwrap();
    assert_eq!(run(&mut db, SQLStatement::Select(stmt)), Ok(s("No matching rows found")));
}

#[test]
fn memory_select_filters_groups_and_orders() {
    let mut db = Database::new();
    run(
        &mut db,
        insert("t", &["g", "n"], &[&["a", "1"], &["b", "2"], &["a", "3"], &["c", "40"], &["b", "5"]]),
    )
    .unwrap();
    let mut stmt = select("t", vec![col("g"), ColumnExpr::Sum(s("n")), ColumnExpr::CountAll]);
    stmt.where_clause = condition("n", "<", "10");
    stmt.group_by = Some(vec![s("g")]);
    stmt.order_by = Some(OrderByClause { column: s("g"), descending: true });
    let text = run(&mut db, SQLStatement::Select(stmt)).unwrap();
    assert_eq!(body(&text), vec![s("b | 7 | 2"), s("a | 4 | 2")]);
}

#[test]
fn memory_update_changes_matching_rows_in_place() {
    let mut db = Database::new();
    run(&mut db, insert("t", &["a", "b"], &[&["1", "x"], &["2", "y"], &["3", "z"]])).unwrap();
    let update = |where_clause| SQLStatement::Update(UpdateStatement {
        table: s("t"),
        assignments: vec![(s("b"), s("new")), (s("c"), s("added"))],
        where_clause,
    });
    assert_eq!(run(&mut db, update(condition("a", ">", "1"))), Ok(s(" Updated 2 row(s)")));
    let text = run(&mut db, SQLStatement::Select(select("t", vec![col("a"), col("b"), col("c")]))).unwrap();
    assert_eq!(body(&text), vec![s("1 | x | NULL"), s("2 | new | added"), s("3 | new | added")]);
    assert_eq!(run(&mut db, update(condition("a", "=", "9"))), Ok(s(" Updated 0 row(s)")));
    assert_eq!(run(&mut db, update(None)), Ok(s(" Updated 3 row(s)")));
    assert_eq!(
        run(&mut db, SQLStatement::Update(UpdateStatement { table: s("u"), assignments: vec![], where_clause: None })),
        Err(ExecError::NotFound(s("Table 'u' not found")))
    );
    assert_eq!(
        run(&mut db, update(condition("b", "<", "1"))),
        Err(ExecError::ParseError(s("Invalid number")))
    );
}

#[test]
fn memory_delete_removes_matching_rows() {
    let mut db = Database::new();
    run(&mut db, insert("t", &["a"], &[&["1"], &["2"], &["3"]])).unwrap();
    run(&mut db, insert("t", &["b"], &[&["1"]])).unwrap();
    let delete = |where_clause| SQLStatement::Delete(DeleteStatement { table: s("t"), where_clause });
    assert_eq!(run(&mut db, delete(condition("a", "!=", "2"))), Ok(s("🗑️ Deleted 2 row(s)")));
    let text = run(&mut db, SQLStatement::Select(select("t", vec![col("a"), col("b")]))).unwrap();
    assert_eq!(body(&text), vec![s("2 | NULL"), s("NULL | 1")]);
    assert_eq!(run(&mut db, delete(None)), Ok(s("🗑️ Deleted 2 row(s)")));
    assert_eq!(run(&mut db, delete(None)), Ok(s("🗑️ Deleted 0 row(s)")));
    assert_eq!(
        run(&mut db, SQLStatement::Delete(DeleteStatement { table: s("u"), where_clause: None })),
        Err(ExecError::NotFound(s("Table 'u' not found")))
    );
}

#[test]
fn memory_alter_table_adds_and_drops_columns() {
    let mut db = Database::new();
    run(&mut db, insert("t", &["a", "b"], &[&["1", "x"], &["2", "y"]])).unwrap();
    let alter = |table: &str, action| SQLStatement::AlterTable(AlterTableStatement { table: s(table), action });
    assert_eq!(run(&mut db, alter("t", AlterAction::AddColumn(s("c")))), Ok(s(" Added column 'c' to 't'")));
    assert_eq!(run(&mut db, alter("t", AlterAction::AddColumn(s("a")))), Ok(s(" Added column 'a' to 't'")));
    assert_eq!(
        run(&mut db, alter("t", AlterAction::DropColumn(s("b")))),
        Ok(s(" Dropped column 'b' from 't'"))
    );
    assert_eq!(
        run(&mut db, alter("t", AlterAction::ModifyColumn(s("c"), s("INT")))),
        Ok(s(" Modified column 'c' to 'INT' in 't'"))
    );
    assert_eq!(
        run(&mut db, SQLStatement::Select(select("t", vec![ColumnExpr::All]))),
        Ok(s("a | c\n------\n | \n | \n"))
    );
    assert_eq!(
        run(&mut db, alter("u", AlterAction::AddColumn(s("c")))),
        Err(ExecError::NotFound(s("Table 'u' not found")))
    );
}

#[test]
fn memory_drop_table_removes_the_table() {
    let mut db = Database::new();
    run(&mut db, create("t")).unwrap();
    let drop = SQLStatement::DropTable(DropTableStatement { table: s("t") });
    assert_eq!(run(&mut db, drop.clone()), Ok(s("🗑️ Dropped table 't'")));
    assert_eq!(run(&mut db, drop), Err(ExecError::NotFound(s("Table 't' does not exist"))));
    assert_eq!(run(&mut db, create("t")), Ok(s(" Created table 't'")));
}
