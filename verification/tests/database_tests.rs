use lsm_sql::{
    AlterAction, AlterTableStatement, ColumnExpr, CreateTableStatement, DeleteStatement, DirLog, DiskOp,
    DropTableStatement, ExecError, FoldKind, HavingClause, InsertStatement, JoinClause, JoinType,
    NumberFacts, NumberQuery, NumericOrder, OrderByClause, PersistentDatabase, Reply, SQLStatement,
    SelectStatement, StorageEntry, UpdateStatement, WhereClause,
};

fn s(text: &str) -> String {
    text.to_string()
}

fn compare_numbers(left: &str, right: &str) -> NumericOrder {
    match (left.parse::<f64>(), right.parse::<f64>()) {
        (Ok(a), Ok(b)) => {
            if a < b {
                NumericOrder::Less
            } else if a > b {
                NumericOrder::Greater
            } else if a == b {
                NumericOrder::Equal
            } else {
                NumericOrder::Unordered
            }
        }
        _ => NumericOrder::NotNumeric,
    }
}

fn fold_numbers(kind: FoldKind, values: &[String]) -> String {
    let numbers: Vec<f64> = values.iter().filter_map(|v| v.parse::<f64>().ok()).collect();
    let folded = match kind {
        FoldKind::Sum => numbers.iter().sum::<f64>(),
        FoldKind::Avg => {
            if numbers.is_empty() {
                0.0
            } else {
                numbers.iter().sum::<f64>() / numbers.len() as f64
            }
        }
        FoldKind::Min => numbers.iter().fold(f64::INFINITY, |a, &b| a.min(b)),
        FoldKind::Max => numbers.iter().fold(f64::NEG_INFINITY, |a, &b| a.max(b)),
    };
    folded.to_string()
}

fn answer(facts: &mut NumberFacts, queries: Vec<NumberQuery>) {
    for query in queries {
        match query {
            NumberQuery::Compare { left, right } => {
                let order = compare_numbers(&left, &right);
                facts.record_order(left, right, order);
            }
            NumberQuery::Fold { kind, values } => {
                let text = fold_numbers(kind, &values);
                facts.record_fold(kind, values, text);
            }
        }
    }
}

struct Session {
    db: PersistentDatabase,
    clock: u64,
    disk: Vec<DiskOp>,
    rounds: usize,
}

impl Session {
    fn start(found: Vec<DirLog>) -> Session {
        let (db, disk) = PersistentDatabase::new("data", found).unwrap();
        Session { db, clock: 1000, disk, rounds: 0 }
    }

    fn run(&mut self, stmt: SQLStatement) -> Result<String, ExecError> {
        let mut facts = NumberFacts::new();
        self.clock += 1;
        loop {
            self.rounds += 1;
            let done = self.db.execute_at(stmt.clone(), &facts, self.clock);
            match done.reply {
                Reply::Done(outcome) => {
                    self.disk.extend(done.disk);
                    return outcome;
                }
                Reply::Needs(queries) => {
                    assert!(done.disk.is_empty());
                    assert!(!queries.is_empty());
                    answer(&mut facts, queries);
                }
            }
        }
    }

    fn restart(&self) -> Session {
        let mut next = Session::start(self.db.logs());
        next.clock = self.clock;
        next
    }
}

fn create(table: &str, columns: &[&str]) -> SQLStatement {
    SQLStatement::CreateTable(CreateTableStatement {
        table: s(table),
        columns: columns.iter().map(|c| (s(c), s("TEXT"))).collect(),
    })
}

fn insert(table: &str, columns: &[&str], values: &[&[&str]]) -> SQLStatement {
    SQLStatement::Insert(InsertStatement {
        table: s(table),
        columns: columns.iter().map(|c| s(c)).collect(),
        values: values.iter().map(|tuple| tuple.iter().map(|v| s(v)).collect()).collect(),
    })
}

fn select(table: &str, columns: Vec<ColumnExpr>) -> SelectStatement {
    SelectStatement {
        columns,
        table: s(table),
        where_clause: None,
        order_by: None,
        group_by: None,
        having: None,
        join: None,
    }
}

fn col(name: &str) -> ColumnExpr {
    ColumnExpr::Column(s(name))
}

fn condition(column: &str, operator: &str, value: &str) -> Option<WhereClause> {
    Some(WhereClause { column: s(column), operator: s(operator), value: s(value) })
}

fn body(text: &str) -> Vec<String> {
    text.lines().skip(2).map(|line| line.to_string()).collect()
}

#[test]
fn scenario_create_insert_select_with_numeric_filter() {
    let mut session = Session::start(Vec::new());
    assert_eq!(session.run(create("users", &["name", "age"])), Ok(s("Created table 'users'")));
    assert_eq!(
        session.run(insert("users", &["name", "age"], &[&["Alice", "30"]])),
        Ok(s("1 row(s) inserted successfully"))
    );
    let mut stmt = select("users", vec![col("name")]);
    stmt.where_clause = condition("age", ">", "21");
    let text = session.run(SQLStatement::Select(stmt)).unwrap();
    assert_eq!(text, "name\n-----\nAlice\n");
    assert_eq!(body(&text), vec![s("Alice")]);
}

#[test]
fn scenario_sum_over_two_rows() {
    let mut session = Session::start(Vec::new());
    assert_eq!(
        session.run(insert("orders", &["id", "total"], &[&["1", "100"], &["2", "50"]])),
        Ok(s("2 row(s) inserted successfully"))
    );
    let text = session.run(SQLStatement::Select(select("orders", vec![ColumnExpr::Sum(s("total"))]))).unwrap();
    assert_eq!(text, "SUM(total)\n-----------\n150\n");
    assert_eq!(body(&text), vec![s("150")]);
}

#[test]
fn scenario_insert_update_delete_then_restart_is_empty() {
    let mut session = Session::start(Vec::new());
    session.run(create("users", &["name", "age"])).unwrap();
    session.run(insert("users", &["name", "age"], &[&["Alice", "30"]])).unwrap();
    let update = SQLStatement::Update(UpdateStatement {
        table: s("users"),
        assignments: vec![(s("age"), s("31"))],
        where_clause: condition("name", "=", "Alice"),
    });
    assert_eq!(session.run(update), Ok(s("Updated 1 rows")));
    let delete = SQLStatement::Delete(DeleteStatement { table: s("users"), where_clause: None });
    assert_eq!(session.run(delete), Ok(s("Deleted 1 rows")));
    let mut again = session.restart();
    assert_eq!(
        again.run(SQLStatement::Select(select("users", vec![ColumnExpr::All]))),
        Ok(s("No matching rows found"))
    );
    let users: Vec<DirLog> = again.db.logs().into_iter().filter(|log| log.name == "users").collect();
    assert_eq!(users.len(), 1);
    let engine = lsm_sql::LSMStorage::new("data", "users", users[0].entries.clone());
    assert!(engine.get_all().is_empty());
}

#[test]
fn restart_recovers_tables_with_their_schema_and_rows() {
    let mut session = Session::start(Vec::new());
    session.run(create("users", &["name", "age"])).unwrap();
    session.run(insert("users", &["age", "name"], &[&["30", "Alice"], &["4", "Bob"]])).unwrap();
    session.run(insert("loose", &["x"], &[&["1"]])).unwrap();
    let mut again = session.restart();
    let mut stmt = select("users", vec![ColumnExpr::All]);
    stmt.order_by = Some(OrderByClause { column: s("name"), descending: true });
    assert_eq!(
        again.run(SQLStatement::Select(stmt)),
        Ok(s("name | age\n-----------\nBob | 4\nAlice | 30\n"))
    );
    // a table without recorded columns is not opened at start-up
    match again.run(SQLStatement::Select(select("loose", vec![ColumnExpr::All]))) {
        Err(ExecError::NotFound(message)) => assert_eq!(message, "Table 'loose' not found"),
        other => panic!("unexpected {:?}", other),
    }
    // but an INSERT opens it from its log
    again.run(insert("loose", &["x"], &[&["2"]])).unwrap();
    let text = again.run(SQLStatement::Select(select("loose", vec![col("x")]))).unwrap();
    let mut values = body(&text);
    values.sort();
    assert_eq!(values, vec![s("1"), s("2")]);
}

#[test]
fn start_up_creates_the_directory_of_a_table_that_has_only_a_schema() {
    let schema = DirLog {
        name: s("t_schema"),
        entries: vec![StorageEntry::present(s("schema"), s("[\"a\",\"b\"]"), 1)],
    };
    let other = DirLog { name: s("notes"), entries: Vec::new() };
    let (db, disk) = PersistentDatabase::new("data", vec![schema, other]).unwrap();
    assert!(matches!(&disk[..], [DiskOp::CreateDir { path }] if path == "data/t"));
    let mut names: Vec<String> = db.logs().into_iter().map(|log| log.name).collect();
    names.sort();
    assert_eq!(names, vec![s("notes"), s("t"), s("t_schema")]);
}

#[test]
fn start_up_ignores_a_schema_that_was_deleted() {
    let schema = DirLog {
        name: s("t_schema"),
        entries: vec![
            StorageEntry::present(s("schema"), s("[\"a\"]"), 1),
            StorageEntry::deleted(s("schema"), 2),
        ],
    };
    let mut session = Session::start(vec![schema]);
    assert!(matches!(
        session.run(SQLStatement::Select(select("t", vec![ColumnExpr::All]))),
        Err(ExecError::NotFound(_))
    ));
}

#[test]
fn start_up_fails_on_a_schema_that_does_not_decode() {
    let schema = DirLog {
        name: s("t_schema"),
        entries: vec![StorageEntry::present(s("schema"), s("{\"a\":1}"), 1)],
    };
    match PersistentDatabase::new("data", vec![schema]) {
        Err(ExecError::SerializationError(message)) => {
            assert!(message.starts_with("Failed to deserialize schema: "), "{}", message);
            assert!(message.len() > "Failed to deserialize schema: ".len());
        }
        other => panic!("unexpected {:?}", other.map(|(_, disk)| disk)),
    }
}

#[test]
fn start_up_takes_the_later_of_two_logs_of_one_directory() {
    let first = DirLog { name: s("t_schema"), entries: vec![StorageEntry::present(s("schema"), s("[\"a\"]"), 1)] };
    let second = DirLog { name: s("t_schema"), entries: Vec::new() };
    let (db, _) = PersistentDatabase::new("data", vec![first, second]).unwrap();
    let logs = db.logs();
    assert_eq!(logs.len(), 1);
    assert!(logs[0].entries.is_empty());
}

#[test]
fn create_table_writes_the_schema_into_its_own_directory() {
    let mut session = Session::start(Vec::new());
    session.run(create("users", &["name", "age"])).unwrap();
    let described: Vec<String> = session
        .disk
        .iter()
        .map(|op| match op {
            DiskOp::CreateDir { path } => format!("mkdir {}", path),
            DiskOp::AppendLine { path, line } => format!("append {} {}", path, line),
            other => panic!("unexpected {:?}", other),
        })
        .collect();
    assert_eq!(
        described,
        vec![
            s("mkdir data/users"),
            s("mkdir data/users_schema"),
            s("append data/users_schema/wal.log {\"key\":\"schema\",\"value\":{\"Present\":\"[\\\"name\\\",\\\"age\\\"]\"},\"timestamp\":1001}"),
        ]
    );
}

#[test]
fn create_table_again_reopens_the_table_from_its_log() {
    let mut session = Session::start(Vec::new());
    session.run(create("t", &["a"])).unwrap();
    session.run(insert("t", &["a"], &[&["1"]])).unwrap();
    assert_eq!(session.run(create("t", &["b", "a"])), Ok(s("Created table 't'")));
    assert_eq!(
        session.run(SQLStatement::Select(select("t", vec![ColumnExpr::All]))),
        Ok(s("b | a\n------\nNULL | 1\n"))
    );
}

#[test]
fn insert_writes_rows_under_fresh_keys() {
    let mut session = Session::start(Vec::new());
    session.run(insert("t", &["a", "b"], &[&["1", "x"], &["2", "y"]])).unwrap();
    let lines: Vec<String> = session
        .disk
        .iter()
        .filter_map(|op| match op {
            DiskOp::AppendLine { path, line } => {
                assert_eq!(path, "data/t/wal.log");
                Some(line.clone())
            }
            _ => None,
        })
        .collect();
    assert_eq!(
        lines,
        vec![
            s("{\"key\":\"row_1001_0\",\"value\":{\"Present\":\"{\\\"a\\\":\\\"1\\\",\\\"b\\\":\\\"x\\\"}\"},\"timestamp\":1001}"),
            s("{\"key\":\"row_1001_1\",\"value\":{\"Present\":\"{\\\"a\\\":\\\"2\\\",\\\"b\\\":\\\"y\\\"}\"},\"timestamp\":1001}"),
        ]
    );
    assert!(matches!(&session.disk[0], DiskOp::CreateDir { path } if path == "data/t"));
}

#[test]
fn insert_of_a_tuple_of_the_wrong_length_is_a_schema_violation() {
    let mut session = Session::start(Vec::new());
    let outcome = session.run(insert("t", &["a", "b"], &[&["1", "x"], &["2"], &["3", "z"]]));
    match outcome {
        Err(ExecError::SchemaViolation(message)) => {
            assert_eq!(message, "Column count does not match value count")
        }
        other => panic!("unexpected {:?}", other),
    }
    // the tuple before the bad one stays written, the one after it is not
    let text = session.run(SQLStatement::Select(select("t", vec![col("a")]))).unwrap();
    assert_eq!(body(&text), vec![s("1")]);
}

#[test]
fn insert_with_a_column_named_twice_keeps_the_later_value() {
    let mut session = Session::start(Vec::new());
    session.run(insert("t", &["a", "a"], &[&["1", "2"]])).unwrap();
    let text = session.run(SQLStatement::Select(select("t", vec![col("a")]))).unwrap();
    assert_eq!(body(&text), vec![s("2")]);
}

#[test]
fn select_from_an_unknown_table_is_not_found() {
    let mut session = Session::start(Vec::new());
    match session.run(SQLStatement::Select(select("nowhere", vec![ColumnExpr::All]))) {
        Err(ExecError::NotFound(message)) => assert_eq!(message, "Table 'nowhere' not found"),
        other => panic!("unexpected {:?}", other),
    }
    session.run(create("t", &["a"])).unwrap();
    let mut stmt = select("t", vec![ColumnExpr::All]);
    stmt.join = Some(JoinClause { join_type: JoinType::Inner, table: s("u"), on_left: s("a"), on_right: s("a") });
    match session.run(SQLStatement::Select(stmt)) {
        Err(ExecError::NotFound(message)) => assert_eq!(message, "Right table 'u' not found"),
        other => panic!("unexpected {:?}", other),
    }
}

#[test]
fn select_of_a_stored_value_that_is_no_row_is_a_serialization_error() {
    let table = DirLog { name: s("t"), entries: vec![StorageEntry::present(s("k"), s("not json"), 1)] };
    let schema = DirLog { name: s("t_schema"), entries: vec![StorageEntry::present(s("schema"), s("[]"), 1)] };
    let mut session = Session::start(vec![table, schema]);
    match session.run(SQLStatement::Select(select("t", vec![ColumnExpr::All]))) {
        Err(ExecError::SerializationError(message)) => {
            assert!(message.starts_with("Failed to deserialize row data: "), "{}", message)
        }
        other => panic!("unexpected {:?}", other),
    }
}

#[test]
fn select_where_with_a_text_that_is_no_number_is_a_parse_error() {
    let mut session = Session::start(Vec::new());
    session.run(insert("t", &["age"], &[&["old"]])).unwrap();
    let mut stmt = select("t", vec![col("age")]);
    stmt.where_clause = condition("age", "<", "21");
    match session.run(SQLStatement::Select(stmt)) {
        Err(ExecError::ParseError(message)) => assert_eq!(message, "Invalid number"),
        other => panic!("unexpected {:?}", other),
    }
}

#[test]
fn select_runs_the_stages_in_their_order() {
    let mut session = Session::start(Vec::new());
    session.run(create("users", &["id", "name"])).unwrap();
    session.run(create("orders", &["user_id", "total"])).unwrap();
    session
        .run(insert("users", &["id", "name"], &[&["1", "Alice"], &["2", "Bob"], &["3", "Cara"]]))
        .unwrap();
    session
        .run(insert(
            "orders",
            &["user_id", "total"],
            &[&["1", "100"], &["1", "50"], &["3", "7"], &["3", "1"], &["3", "oops"], &["2", "5"]],
        ))
        .unwrap();
    let stmt = SelectStatement {
        columns: vec![
            col("name"),
            ColumnExpr::CountAll,
            ColumnExpr::Sum(s("orders.total")),
            ColumnExpr::Avg(s("orders.total")),
            ColumnExpr::Min(s("orders.total")),
            ColumnExpr::Max(s("orders.total")),
            ColumnExpr::Count(s("orders.total")),
        ],
        table: s("users"),
        join: Some(JoinClause {
            join_type: JoinType::Inner,
            table: s("orders"),
            on_left: s("users.id"),
            on_right: s("orders.user_id"),
        }),
        where_clause: condition("orders.total", "!=", "5"),
        group_by: Some(vec![s("name")]),
        having: Some(HavingClause { column_expr: ColumnExpr::CountAll, operator: s(">"), value: s("1") }),
        order_by: Some(OrderByClause { column: s("name"), descending: true }),
    };
    let before = session.rounds;
    let text = session.run(SQLStatement::Select(stmt)).unwrap();
    let lines: Vec<&str> = text.lines().collect();
    assert_eq!(
        lines[0],
        "name | COUNT(*) | SUM(orders.total) | AVG(orders.total) | MIN(orders.total) | MAX(orders.total) | COUNT(orders.total)"
    );
    assert_eq!(&lines[2..], &["Cara | 3 | 8 | 4 | 1 | 7 | 3", "Alice | 2 | 150 | 75 | 50 | 100 | 2"]);
    // one round to learn of the folds, one of the HAVING comparisons, one to finish
    assert_eq!(session.rounds - before, 3);
}

#[test]
fn select_aggregate_without_grouping_treats_all_rows_as_one_group() {
    let mut session = Session::start(Vec::new());
    session.run(insert("t", &["n"], &[&["1"], &["2"], &["x"]])).unwrap();
    let columns = vec![
        ColumnExpr::CountAll,
        ColumnExpr::Avg(s("n")),
        ColumnExpr::Min(s("missing")),
        ColumnExpr::Max(s("missing")),
        ColumnExpr::Sum(s("n")),
    ];
    let text = session.run(SQLStatement::Select(select("t", columns))).unwrap();
    assert_eq!(body(&text), vec![s("3 | 1.5 | inf | -inf | 3")]);
}

#[test]
fn select_group_by_gives_one_row_per_distinct_value() {
    let mut session = Session::start(Vec::new());
    session
        .run(insert("t", &["g", "n"], &[&["a", "1"], &["b", "2"], &["a", "3"], &["c", "4"], &["b", "5"]]))
        .unwrap();
    let mut stmt = select("t", vec![col("g"), ColumnExpr::Sum(s("n"))]);
    stmt.group_by = Some(vec![s("g")]);
    stmt.order_by = Some(OrderByClause { column: s("g"), descending: false });
    let text = session.run(SQLStatement::Select(stmt.clone())).unwrap();
    assert_eq!(body(&text), vec![s("a | 4"), s("b | 7"), s("c | 4")]);
    stmt.having = Some(HavingClause { column_expr: ColumnExpr::Sum(s("n")), operator: s("="), value: s("4.0") });
    let text = session.run(SQLStatement::Select(stmt)).unwrap();
    assert_eq!(body(&text), vec![s("a | 4"), s("c | 4")]);
}

#[test]
fn left_join_through_the_database_pads_with_null() {
    let mut session = Session::start(Vec::new());
    session.run(insert("users", &["id", "name"], &[&["1", "Alice"], &["2", "Bob"]])).unwrap();
    session.run(insert("orders", &["user_id", "total"], &[&["1", "100"]])).unwrap();
    let mut stmt = select("users", vec![col("name"), col("orders.total")]);
    stmt.join = Some(JoinClause {
        join_type: JoinType::Left,
        table: s("orders"),
        on_left: s("users.id"),
        on_right: s("orders.user_id"),
    });
    stmt.order_by = Some(OrderByClause { column: s("name"), descending: false });
    let text = session.run(SQLStatement::Select(stmt)).unwrap();
    assert_eq!(body(&text), vec![s("Alice | 100"), s("Bob | NULL")]);
}

#[test]
fn update_rewrites_matching_rows_under_their_keys() {
    let mut session = Session::start(Vec::new());
    session.run(insert("t", &["name", "age"], &[&["Alice", "30"], &["Bob", "4"]])).unwrap();
    session.disk.clear();
    let update = SQLStatement::Update(UpdateStatement {
        table: s("t"),
        assignments: vec![(s("age"), s("5")), (s("pet"), s("cat")), (s("age"), s("6"))],
        where_clause: condition("age", "<", "18"),
    });
    assert_eq!(session.run(update), Ok(s("Updated 1 rows")));
    let lines: Vec<String> = session
        .disk
        .iter()
        .map(|op| match op {
            DiskOp::AppendLine { line, .. } => line.clone(),
            other => panic!("unexpected {:?}", other),
        })
        .collect();
    assert_eq!(
        lines,
        vec![
            s("{\"key\":\"row_1001_1\",\"value\":\"Deleted\",\"timestamp\":1002}"),
            s("{\"key\":\"row_1001_1\",\"value\":{\"Present\":\"{\\\"age\\\":\\\"6\\\",\\\"name\\\":\\\"Bob\\\",\\\"pet\\\":\\\"cat\\\"}\"},\"timestamp\":1002}"),
        ]
    );
    let mut stmt = select("t", vec![col("name"), col("age"), col("pet")]);
    stmt.order_by = Some(OrderByClause { column: s("name"), descending: false });
    let text = session.run(SQLStatement::Select(stmt)).unwrap();
    assert_eq!(body(&text), vec![s("Alice | 30 | NULL"), s("Bob | 6 | cat")]);
}

#[test]
fn update_without_condition_changes_every_row_and_reports_the_count() {
    let mut session = Session::start(Vec::new());
    session.run(insert("t", &["a"], &[&["1"], &["2"]])).unwrap();
    let update =
        |value: &str, where_clause| SQLStatement::Update(UpdateStatement {
            table: s("t"),
            assignments: vec![(s("a"), s(value))],
            where_clause,
        });
    assert_eq!(session.run(update("9", None)), Ok(s("Updated 2 rows")));
    assert_eq!(session.run(update("8", condition("a", "=", "none"))), Ok(s("Updated 0 rows")));
    assert_eq!(session.run(update("8", condition("zzz", "=", "none"))), Ok(s("Updated 0 rows")));
    let text = session.run(SQLStatement::Select(select("t", vec![col("a")]))).unwrap();
    assert_eq!(body(&text), vec![s("9"), s("9")]);
    match session.run(SQLStatement::Update(UpdateStatement {
        table: s("gone"),
        assignments: Vec::new(),
        where_clause: None,
    })) {
        Err(ExecError::NotFound(message)) => assert_eq!(message, "Table 'gone' not found"),
        other => panic!("unexpected {:?}", other),
    }
}

#[test]
fn update_that_cannot_be_decided_changes_nothing() {
    let mut session = Session::start(Vec::new());
    session.run(insert("t", &["a"], &[&["1"], &["x"]])).unwrap();
    session.disk.clear();
    let update = SQLStatement::Update(UpdateStatement {
        table: s("t"),
        assignments: vec![(s("a"), s("0"))],
        where_clause: condition("a", ">", "0"),
    });
    assert!(matches!(session.run(update), Err(ExecError::ParseError(_))));
    assert!(session.disk.is_empty());
    let text = session.run(SQLStatement::Select(select("t", vec![col("a")]))).unwrap();
    assert_eq!(body(&text), vec![s("1"), s("x")]);
}

#[test]
fn delete_removes_matching_rows() {
    let mut session = Session::start(Vec::new());
    session.run(insert("t", &["a"], &[&["1"], &["2"], &["3"]])).unwrap();
    let delete = |where_clause| SQLStatement::Delete(DeleteStatement { table: s("t"), where_clause });
    assert_eq!(session.run(delete(condition("a", ">", "1.5"))), Ok(s("Deleted 2 rows")));
    let text = session.run(SQLStatement::Select(select("t", vec![col("a")]))).unwrap();
    assert_eq!(body(&text), vec![s("1")]);
    assert_eq!(session.run(delete(condition("a", "=", "7"))), Ok(s("Deleted 0 rows")));
    assert_eq!(session.run(delete(None)), Ok(s("Deleted 1 rows")));
    assert_eq!(
        session.run(SQLStatement::Select(select("t", vec![col("a")]))),
        Ok(s("No matching rows found"))
    );
    assert!(matches!(
        session.run(SQLStatement::Delete(DeleteStatement { table: s("gone"), where_clause: None })),
        Err(ExecError::NotFound(_))
    ));
    match session.run(delete(condition("a", "like", "7"))) {
        Ok(text) => assert_eq!(text, "Deleted 0 rows"),
        other => panic!("unexpected {:?}", other),
    }
}

#[test]
fn delete_with_an_unknown_operator_is_an_error() {
    let mut session = Session::start(Vec::new());
    session.run(insert("t", &["a"], &[&["1"]])).unwrap();
    let delete = SQLStatement::Delete(DeleteStatement { table: s("t"), where_clause: condition("a", "like", "1") });
    match session.run(delete) {
        Err(ExecError::Unsupported(message)) => assert_eq!(message, "Unsupported operator: like"),
        other => panic!("unexpected {:?}", other),
    }
}

#[test]
fn alter_table_is_acknowledged_and_changes_nothing() {
    let mut session = Session::start(Vec::new());
    session.run(create("t", &["a"])).unwrap();
    session.run(insert("t", &["a"], &[&["1"]])).unwrap();
    let alter = |action| SQLStatement::AlterTable(AlterTableStatement { table: s("t"), action });
    assert_eq!(session.run(alter(AlterAction::AddColumn(s("b")))), Ok(s("Added column 'b' to table 't'")));
    assert_eq!(session.run(alter(AlterAction::DropColumn(s("a")))), Ok(s("Dropped column 'a' from table 't'")));
    assert_eq!(
        session.run(alter(AlterAction::ModifyColumn(s("a"), s("INT")))),
        Ok(s("Modified column 'a' in table 't'"))
    );
    assert_eq!(
        session.run(SQLStatement::Select(select("t", vec![ColumnExpr::All]))),
        Ok(s("a\n--\n1\n"))
    );
}

#[test]
fn drop_table_removes_the_table_and_its_directory() {
    let mut session = Session::start(Vec::new());
    session.run(create("t", &["a"])).unwrap();
    session.run(insert("t", &["a"], &[&["1"]])).unwrap();
    session.disk.clear();
    let drop = SQLStatement::DropTable(DropTableStatement { table: s("t") });
    assert_eq!(session.run(drop.clone()), Ok(s("Dropped table 't'")));
    assert!(matches!(&session.disk[..], [DiskOp::RemoveDir { path }] if path == "data/t"));
    assert!(matches!(
        session.run(SQLStatement::Select(select("t", vec![ColumnExpr::All]))),
        Err(ExecError::NotFound(_))
    ));
    // the directory of the schema stays
    let names: Vec<String> = session.db.logs().into_iter().map(|log| log.name).collect();
    assert_eq!(names, vec![s("t_schema")]);
    // dropping what is not there is no error
    assert_eq!(session.run(drop), Ok(s("Dropped table 't'")));
    // the table comes back empty: its rows went with its directory
    session.run(insert("t", &["a"], &[&["2"]])).unwrap();
    let text = session.run(SQLStatement::Select(select("t", vec![col("a")]))).unwrap();
    assert_eq!(body(&text), vec![s("2")]);
}

#[test]
fn close_flushes_every_table() {
    let mut session = Session::start(Vec::new());
    session.run(insert("b", &["x"], &[&["1"]])).unwrap();
    session.run(insert("a", &["x"], &[&["1"]])).unwrap();
    let disk = session.db.close();
    let paths: Vec<String> = disk
        .iter()
        .map(|op| match op {
            DiskOp::WriteLines { path, lines } => {
                assert_eq!(lines.len(), 1);
                path.clone()
            }
            other => panic!("unexpected {:?}", other),
        })
        .collect();
    assert_eq!(paths, vec![s("data/a/sstable_0.log"), s("data/b/sstable_0.log")]);
    assert!(session.db.close().is_empty());
    let text = session.run(SQLStatement::Select(select("a", vec![col("x")]))).unwrap();
    assert_eq!(body(&text), vec![s("1")]);
}

#[test]
fn execute_reads_the_clock() {
    let (mut db, _) = PersistentDatabase::new("data", Vec::new()).unwrap();
    let facts = NumberFacts::new();
    let done = db.execute(insert("t", &["a"], &[&["1"]]), &facts);
    assert!(matches!(done.reply, Reply::Done(Ok(_))));
    let logs = db.logs();
    assert_eq!(logs.len(), 1);
    assert!(logs[0].entries[0].timestamp > 1_000_000_000_000);
    assert!(logs[0].entries[0].key.starts_with("row_1"));
}

#[test]
fn two_inserts_at_one_time_leave_two_rows() {
    let (mut db, _) = PersistentDatabase::new("data", Vec::new()).unwrap();
    let facts = NumberFacts::new();
    db.execute_at(insert("t", &["a"], &[&["1"]]), &facts, 5);
    db.execute_at(insert("t", &["a"], &[&["2"]]), &facts, 5);
    let done = db.execute_at(SQLStatement::Select(select("t", vec![col("a")])), &facts, 6);
    match done.reply {
        Reply::Done(Ok(text)) => assert_eq!(body(&text), vec![s("1"), s("2")]),
        other => panic!("{:?}", other),
    }
    let keys: Vec<String> = db.logs()[0].entries.iter().map(|entry| entry.key.clone()).collect();
    assert_eq!(keys, vec![s("row_5_0"), s("row_5_1")]);
}

#[test]
fn insert_takes_the_least_free_number_from_the_place_of_the_tuple() {
    let (mut db, _) = PersistentDatabase::new("data", Vec::new()).unwrap();
    let facts = NumberFacts::new();
    db.execute_at(insert("t", &["a"], &[&["1"], &["2"]]), &facts, 7);
    db.execute_at(insert("t", &["a"], &[&["3"], &["4"], &["5"]]), &facts, 7);
    db.execute_at(insert("t", &["a"], &[&["6"]]), &facts, 8);
    let keys: Vec<String> = db.logs()[0].entries.iter().map(|entry| entry.key.clone()).collect();
    assert_eq!(
        keys,
        vec![s("row_7_0"), s("row_7_1"), s("row_7_2"), s("row_7_3"), s("row_7_4"), s("row_8_0")]
    );
    let done = db.execute_at(SQLStatement::Select(select("t", vec![col("a")])), &facts, 9);
    match done.reply {
        Reply::Done(Ok(text)) => {
            assert_eq!(body(&text), vec![s("1"), s("2"), s("3"), s("4"), s("5"), s("6")])
        }
        other => panic!("{:?}", other),
    }
}

#[test]
fn insert_does_not_reuse_the_key_of_a_deleted_row() {
    let (mut db, _) = PersistentDatabase::new("data", Vec::new()).unwrap();
    let facts = NumberFacts::new();
    db.execute_at(insert("t", &["a"], &[&["1"]]), &facts, 5);
    db.execute_at(
        SQLStatement::Delete(DeleteStatement { table: s("t"), where_clause: None }),
        &facts,
        5,
    );
    db.execute_at(insert("t", &["a"], &[&["2"]]), &facts, 5);
    let keys: Vec<String> = db.logs()[0].entries.iter().map(|entry| entry.key.clone()).collect();
    assert_eq!(keys, vec![s("row_5_0"), s("row_5_0"), s("row_5_1")]);
    let done = db.execute_at(SQLStatement::Select(select("t", vec![col("a")])), &facts, 6);
    match done.reply {
        Reply::Done(Ok(text)) => assert_eq!(body(&text), vec![s("2")]),
        other => panic!("{:?}", other),
    }
}

#[test]
fn insert_steps_over_keys_that_a_recovered_log_holds() {
    let found = vec![DirLog {
        name: s("t"),
        entries: vec![
            StorageEntry::present(s("row_5_0"), s("{\"a\":\"1\"}"), 5),
            StorageEntry::deleted(s("row_5_1"), 5),
        ],
    }];
    let (mut db, _) = PersistentDatabase::new("data", found).unwrap();
    let facts = NumberFacts::new();
    db.execute_at(create("t", &["a"]), &facts, 4);
    db.execute_at(insert("t", &["a"], &[&["2"], &["3"]]), &facts, 5);
    let logs = db.logs();
    let table = logs.iter().find(|log| log.name == "t").unwrap();
    let keys: Vec<String> = table.entries.iter().map(|entry| entry.key.clone()).collect();
    assert_eq!(keys, vec![s("row_5_0"), s("row_5_1"), s("row_5_2"), s("row_5_3")]);
    let done = db.execute_at(SQLStatement::Select(select("t", vec![col("a")])), &facts, 6);
    match done.reply {
        Reply::Done(Ok(text)) => assert_eq!(body(&text), vec![s("1"), s("2"), s("3")]),
        other => panic!("{:?}", other),
    }
}

#[test]
fn update_and_delete_hold_though_the_clock_fell_back() {
    let (mut db, _) = PersistentDatabase::new("data", Vec::new()).unwrap();
    let facts = NumberFacts::new();
    db.execute_at(create("t", &["a"]), &facts, 1);
    db.execute_at(insert("t", &["a"], &[&["1"], &["2"]]), &facts, 100);
    let update = SQLStatement::Update(UpdateStatement {
        table: s("t"),
        assignments: vec![(s("a"), s("9"))],
        where_clause: None,
    });
    db.execute_at(update, &facts, 50);
    db.close();
    let done = db.execute_at(SQLStatement::Select(select("t", vec![col("a")])), &facts, 60);
    match done.reply {
        Reply::Done(Ok(text)) => assert_eq!(body(&text), vec![s("9"), s("9")]),
        other => panic!("{:?}", other),
    }
    db.execute_at(
        SQLStatement::Delete(DeleteStatement { table: s("t"), where_clause: None }),
        &facts,
        10,
    );
    db.close();
    let logs = db.logs();
    let table = logs.iter().find(|log| log.name == "t").unwrap();
    let stamps: Vec<u64> = table.entries.iter().map(|entry| entry.timestamp).collect();
    assert_eq!(stamps, vec![100; 8]);
    let mut again = PersistentDatabase::new("data", db.logs()).unwrap().0;
    let done = again.execute_at(SQLStatement::Select(select("t", vec![col("a")])), &facts, 5);
    match done.reply {
        Reply::Done(Ok(text)) => assert!(body(&text).is_empty(), "{}", text),
        other => panic!("{:?}", other),
    }
}

#[test]
fn recover_drops_the_records_that_did_not_reach_the_log() {
    let mut session = Session::start(Vec::new());
    session.run(create("t", &["a"])).unwrap();
    session.run(insert("t", &["a"], &[&["1"]])).unwrap();
    session.run(insert("t", &["a"], &[&["2"], &["3"], &["4"]])).unwrap();
    // of the last statement's three appends only the first reached the disk
    session.db.recover("t", 2).unwrap();
    let text = session.run(SQLStatement::Select(select("t", vec![col("a")]))).unwrap();
    assert_eq!(body(&text), vec![s("1"), s("2")]);
    let logs = session.db.logs();
    let table = logs.iter().find(|log| log.name == "t").unwrap();
    assert_eq!(table.entries.len(), 2);
}

#[test]
fn recover_of_nothing_lost_keeps_every_row() {
    let mut session = Session::start(Vec::new());
    session.run(create("t", &["a"])).unwrap();
    session.run(insert("t", &["a"], &[&["1"], &["2"]])).unwrap();
    session.db.recover("", 0).unwrap();
    session.db.recover("t", 0).unwrap();
    session.db.recover("elsewhere", 5).unwrap();
    let text = session.run(SQLStatement::Select(select("t", vec![col("a")]))).unwrap();
    assert_eq!(body(&text), vec![s("1"), s("2")]);
    session.db.recover("t", 9).unwrap();
    let text = session.run(SQLStatement::Select(select("t", vec![col("a")]))).unwrap();
    assert_eq!(text, "No matching rows found");
}
