use lsm_sql::{execute_query, process_query, Answer, Database, NumberFacts, NumberQuery, NumericOrder, SQLStatement};

fn s(text: &str) -> String {
    text.to_string()
}

fn run(db: &mut Database, query: &str) -> Result<String, String> {
    let mut facts = NumberFacts::new();
    loop {
        match process_query(db, query, &facts) {
            Answer::Done(outcome) => return outcome,
            Answer::Needs(queries) => {
                for query in queries {
                    match query {
                        NumberQuery::Compare { left, right } => {
                            let order = match (left.parse::<f64>(), right.parse::<f64>()) {
                                (Ok(a), Ok(b)) if a < b => NumericOrder::Less,
                                (Ok(a), Ok(b)) if a > b => NumericOrder::Greater,
                                (Ok(a), Ok(b)) if a == b => NumericOrder::Equal,
                                (Ok(_), Ok(_)) => NumericOrder::Unordered,
                                _ => NumericOrder::NotNumeric,
                            };
                            facts.record_order(left, right, order);
                        }
                        NumberQuery::Fold { kind, values } => {
                            let total: f64 = values.iter().filter_map(|v| v.parse::<f64>().ok()).sum();
                            facts.record_fold(kind, values, total.to_string());
                        }
                    }
                }
            }
        }
    }
}

#[test]
fn query_text_runs_end_to_end() {
    let mut db = Database::new();
    assert_eq!(run(&mut db, "CREATE TABLE users (name TEXT, age TEXT)"), Ok(s(" Created table 'users'")));
    assert_eq!(
        run(&mut db, "INSERT INTO users (name, age) VALUES ('Alice', '30'), ('Bob', '4')"),
        Ok(s(" Insert successful"))
    );
    assert_eq!(run(&mut db, "SELECT name FROM users WHERE age > '21'"), Ok(s("name\n-----\nAlice\n")));
    assert_eq!(run(&mut db, "SELECT name FROM users WHERE age < 21;"), Ok(s("name\n-----\nBob\n")));
    assert_eq!(run(&mut db, "SELECT SUM(age) FROM users"), Ok(s("SUM(age)\n---------\n34\n")));
    assert_eq!(run(&mut db, "UPDATE users SET age = '5' WHERE name = 'Bob'"), Ok(s(" Updated 1 row(s)")));
    assert_eq!(run(&mut db, "DELETE FROM users WHERE age = '5'"), Ok(s("🗑️ Deleted 1 row(s)")));
    assert_eq!(run(&mut db, "SELECT * FROM users"), Ok(s("age | name\n-----------\n30 | Alice\n")));
}

#[test]
fn query_errors_say_where_they_arose() {
    let mut db = Database::new();
    assert_eq!(run(&mut db, "SELECT 1.2.3"), Err(s("Tokenization error: Invalid number format: 1.2.3")));
    assert_eq!(run(&mut db, "SELECT a"), Err(s("Parsing error: Expected From, but reached end of input")));
    assert_eq!(run(&mut db, "SELECT a FROM t"), Err(s("Execution error: Table 't' not found")));
    assert_eq!(
        run(&mut db, "INSERT INTO t VALUES ('1')"),
        Err(s("Execution error: Column count does not match value count"))
    );
}

#[test]
fn execute_query_gives_the_statement() {
    assert!(matches!(execute_query("DROP TABLE t"), Ok(SQLStatement::DropTable(stmt)) if stmt.table == "t"));
    assert_eq!(execute_query("''"), Err(s("Unterminated string literal")));
    assert_eq!(execute_query("DROP t"), Err(s("Expected Table, but found Identifier(\"t\")")));
}
