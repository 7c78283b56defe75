use lsm_sql::parser::aggregate_of;
use lsm_sql::tokenizer::{keyword_of, TokenKind};
use lsm_sql::{
    parse_sql, tokenize, AlterAction, AlterTableStatement, ColumnExpr, CreateTableStatement,
    DeleteStatement, DropTableStatement, HavingClause, InsertStatement, JoinClause, JoinType,
    OrderByClause, Parser, SQLStatement, SelectStatement, Token, Tokenizer, UpdateStatement,
    WhereClause,
};

fn s(text: &str) -> String {
    text.to_string()
}

fn select(columns: &[&str], table: &str, where_clause: Option<WhereClause>) -> SelectStatement {
    SelectStatement {
        columns: columns.iter().map(|c| ColumnExpr::Column(s(c))).collect(),
        table: s(table),
        where_clause,
        order_by: None,
        group_by: None,
        having: None,
        join: None,
    }
}

fn parse(query: &str) -> Result<SQLStatement, String> {
    parse_sql(tokenize(query)?)
}

#[test]
fn test_select_parsing() {
    let query = "SELECT name, age FROM users WHERE age > 21";
    let tokens = tokenize(query).unwrap();
    let ast = parse_sql(tokens).unwrap();

    match ast {
        SQLStatement::Select(stmt) => {
            assert_eq!(stmt.columns, vec![ColumnExpr::Column(s("name")), ColumnExpr::Column(s("age"))]);
            assert_eq!(stmt.table, "users");
            assert!(stmt.where_clause.is_some());
        }
        other => panic!("unexpected {:?}", other),
    }
}

#[test]
fn test_parse_select() {
    let tokens = tokenize("SELECT name, age FROM users WHERE age > '30';").unwrap();
    let expected = SQLStatement::Select(select(
        &["name", "age"],
        "users",
        Some(WhereClause { column: "age".to_string(), operator: ">".to_string(), value: "30".to_string() }),
    ));
    let result = parse_sql(tokens).unwrap();
    assert_eq!(result, expected);
}

#[test]
fn test_parse_insert() {
    let tokens = tokenize("INSERT INTO users (name, age) VALUES ('Alice', '25');").unwrap();
    let expected = SQLStatement::Insert(InsertStatement {
        table: "users".to_string(),
        columns: vec!["name".to_string(), "age".to_string()],
        values: vec![vec!["Alice".to_string(), "25".to_string()]],
    });
    let result = parse_sql(tokens).unwrap();
    assert_eq!(result, expected);
}

#[test]
fn test_parse_update() {
    let tokens = tokenize("UPDATE users SET age = '26' WHERE name = 'Alice';").unwrap();
    let expected = SQLStatement::Update(UpdateStatement {
        table: "users".to_string(),
        assignments: vec![("age".to_string(), "26".to_string())],
        where_clause: Some(WhereClause {
            column: "name".to_string(),
            operator: "=".to_string(),
            value: "Alice".to_string(),
        }),
    });
    let result = parse_sql(tokens).unwrap();
    assert_eq!(result, expected);
}

#[test]
fn test_parse_delete() {
    let tokens = tokenize("DELETE FROM users WHERE name = 'Bob';").unwrap();
    let expected = SQLStatement::Delete(DeleteStatement {
        table: "users".to_string(),
        where_clause: Some(WhereClause {
            column: "name".to_string(),
            operator: "=".to_string(),
            value: "Bob".to_string(),
        }),
    });
    let result = parse_sql(tokens).unwrap();
    assert_eq!(result, expected);
}

#[test]
fn test_parse_select_without_where() {
    let tokens = tokenize("SELECT id FROM products;").unwrap();
    let expected = SQLStatement::Select(select(&["id"], "products", None));
    let result = parse_sql(tokens).unwrap();
    assert_eq!(result, expected);
}

#[test]
fn test_parse_update_multiple_assignments() {
    let tokens = tokenize("UPDATE users SET name = 'Charlie', age = '28' WHERE id = '3';").unwrap();
    let expected = SQLStatement::Update(UpdateStatement {
        table: "users".to_string(),
        assignments: vec![
            ("name".to_string(), "Charlie".to_string()),
            ("age".to_string(), "28".to_string()),
        ],
        where_clause: Some(WhereClause {
            column: "id".to_string(),
            operator: "=".to_string(),
            value: "3".to_string(),
        }),
    });
    let result = parse_sql(tokens).unwrap();
    assert_eq!(result, expected);
}

#[test]
fn test_parse_delete_without_where() {
    let tokens = tokenize("DELETE FROM logs;").unwrap();
    let expected = SQLStatement::Delete(DeleteStatement { table: "logs".to_string(), where_clause: None });
    let result = parse_sql(tokens).unwrap();
    assert_eq!(result, expected);
}

#[test]
fn test_parse_insert_without_columns() {
    let tokens = tokenize("INSERT INTO users VALUES ('John', 'Doe', '30');").unwrap();
    let expected = SQLStatement::Insert(InsertStatement {
        table: "users".to_string(),
        columns: vec![],
        values: vec![vec!["John".to_string(), "Doe".to_string(), "30".to_string()]],
    });
    let result = parse_sql(tokens).unwrap();
    assert_eq!(result, expected);
}

#[test]
fn test_parse_invalid_sql() {
    let tokens = tokenize("INVALID SQL QUERY;").unwrap();
    let result = parse_sql(tokens);
    assert!(result.is_err());
}

#[test]
fn tokenize_splits_words_literals_and_punctuation() {
    let tokens = tokenize("select a.b, COUNT(*) from t\twhere x >= '1 2'\n;").unwrap();
    assert_eq!(
        tokens,
        vec![
            Token::Select,
            Token::Identifier(s("a")),
            Token::Dot,
            Token::Identifier(s("b")),
            Token::Comma,
            Token::Identifier(s("COUNT")),
            Token::LeftParen,
            Token::Asterisk,
            Token::RightParen,
            Token::From,
            Token::Identifier(s("t")),
            Token::Where,
            Token::Identifier(s("x")),
            Token::GreaterThan,
            Token::Equals,
            Token::StringLiteral(s("1 2")),
            Token::Semicolon,
        ]
    );
}

#[test]
fn tokenize_knows_every_keyword_in_any_case() {
    let words = "SELECT insert Update DELETE from INTO values SET where CREATE table ALTER add DROP modify ORDER by GROUP desc ASC join LEFT right FULL cross ON";
    assert_eq!(
        tokenize(words).unwrap(),
        vec![
            Token::Select,
            Token::Insert,
            Token::Update,
            Token::Delete,
            Token::From,
            Token::Into,
            Token::Values,
            Token::SetWord,
            Token::Where,
            Token::Create,
            Token::Table,
            Token::Alter,
            Token::Add,
            Token::Drop,
            Token::Modify,
            Token::Order,
            Token::By,
            Token::Group,
            Token::Desc,
            Token::Asc,
            Token::Join,
            Token::Left,
            Token::Right,
            Token::Full,
            Token::Cross,
            Token::On,
        ]
    );
    // a letter whose upper case is a letter of a keyword makes the keyword
    assert_eq!(tokenize("in\u{17f}ert").unwrap(), vec![Token::Insert]);
    assert_eq!(tokenize("selects having").unwrap(), vec![Token::Identifier(s("selects")), Token::Identifier(s("having"))]);
}

#[test]
fn tokenize_words_go_on_with_letters_digits_and_underscores() {
    assert_eq!(
        tokenize("user_1 n\u{e9}e x-y _z").unwrap(),
        vec![
            Token::Identifier(s("user_1")),
            Token::Identifier(s("n\u{e9}e")),
            Token::Identifier(s("x")),
            Token::Unknown(s("-")),
            Token::Identifier(s("y")),
            Token::Unknown(s("_")),
            Token::Identifier(s("z")),
        ]
    );
}

#[test]
fn tokenize_numbers_keep_their_text() {
    assert_eq!(
        tokenize("21 1.50 7. 007").unwrap(),
        vec![
            Token::NumberLiteral(s("21")),
            Token::NumberLiteral(s("1.50")),
            Token::NumberLiteral(s("7.")),
            Token::NumberLiteral(s("007")),
        ]
    );
    assert_eq!(tokenize("1.2.3"), Err(s("Invalid number format: 1.2.3")));
    assert_eq!(tokenize("x = 1..2"), Err(s("Invalid number format: 1..2")));
    assert_eq!(tokenize("1\u{b2}"), Err(s("Invalid number format: 1\u{b2}")));
    // a number ends where a letter begins
    assert_eq!(
        tokenize("12abc").unwrap(),
        vec![Token::NumberLiteral(s("12")), Token::Identifier(s("abc"))]
    );
}

#[test]
fn tokenize_numbers_are_what_floats_read() {
    for text in ["0", "21", "1.50", "7.", "007", "123456789012345678901234567890", "1.2.3", "1..2", "3.."] {
        let ours = tokenize(text).is_ok();
        assert_eq!(ours, text.parse::<f64>().is_ok(), "{}", text);
    }
}

#[test]
fn tokenize_string_literals() {
    assert_eq!(tokenize("'a b' 'c'").unwrap(), vec![Token::StringLiteral(s("a b")), Token::StringLiteral(s("c"))]);
    // an open literal runs to the end of the input
    assert_eq!(tokenize("'abc").unwrap(), vec![Token::StringLiteral(s("abc"))]);
    assert_eq!(tokenize("''"), Err(s("Unterminated string literal")));
    assert_eq!(tokenize("x '"), Err(s("Unterminated string literal")));
}

#[test]
fn tokenize_unknown_characters_and_blanks() {
    assert_eq!(tokenize("").unwrap(), Vec::<Token>::new());
    assert_eq!(tokenize(" \t\n").unwrap(), Vec::<Token>::new());
    assert_eq!(
        tokenize("a\r!\u{65e5}").unwrap(),
        vec![Token::Identifier(s("a")), Token::Unknown(s("\r")), Token::Unknown(s("!")), Token::Unknown(s("\u{65e5}"))]
    );
}

#[test]
fn tokenizer_steps_by_token_spans() {
    let mut tokenizer = Tokenizer::new("select'ab'x;");
    assert_eq!(tokenizer.next_token(), Some(Token::Select));
    assert_eq!(tokenizer.next_token(), Some(Token::StringLiteral(s("ab"))));
    assert_eq!(tokenizer.next_token(), Some(Token::Identifier(s("x"))));
    assert_eq!(tokenizer.next_token(), Some(Token::Semicolon));
    assert_eq!(tokenizer.next_token(), None);
    assert_eq!(tokenizer.tokenize().unwrap().len(), 4);
}

#[test]
fn tokenizer_stops_inside_a_character_and_on_errors() {
    // the span of an unknown token is its bytes
    let mut tokenizer = Tokenizer::new("\u{e9}x");
    assert_eq!(tokenizer.next_token(), Some(Token::Unknown(s("\u{e9}"))));
    assert_eq!(tokenizer.next_token(), Some(Token::Identifier(s("x"))));
    assert_eq!(tokenizer.next_token(), None);
    // a keyword written in more bytes than its word: the step may end inside a character
    let mut tokenizer = Tokenizer::new("in\u{17f}ert x");
    assert_eq!(tokenizer.next_token(), Some(Token::Insert));
    assert_eq!(tokenizer.next_token(), Some(Token::Identifier(s("t"))));
    let mut tokenizer = Tokenizer::new("value\u{17f} x");
    assert_eq!(tokenizer.next_token(), Some(Token::Values));
    assert_eq!(tokenizer.next_token(), None);
    let mut tokenizer = Tokenizer::new("''");
    assert_eq!(tokenizer.next_token(), None);
}

#[test]
fn parse_select_with_every_clause() {
    let stmt = parse(
        "SELECT u.name, COUNT(*), sum(total), * FROM users LEFT JOIN orders ON users.id = orders.user_id \
         WHERE age < '65' GROUP BY name, city ORDER BY name DESC HAVING count(*) > 2",
    )
    .unwrap();
    assert_eq!(
        stmt,
        SQLStatement::Select(SelectStatement {
            columns: vec![
                ColumnExpr::Column(s("u.name")),
                ColumnExpr::CountAll,
                ColumnExpr::Sum(s("total")),
                ColumnExpr::All,
            ],
            table: s("users"),
            join: Some(JoinClause {
                join_type: JoinType::Left,
                table: s("orders"),
                on_left: s("users.id"),
                on_right: s("orders.user_id"),
            }),
            where_clause: Some(WhereClause { column: s("age"), operator: s("<"), value: s("65") }),
            group_by: Some(vec![s("name"), s("city")]),
            order_by: Some(OrderByClause { column: s("name"), descending: true }),
            having: Some(HavingClause { column_expr: ColumnExpr::CountAll, operator: s(">"), value: s("2") }),
        })
    );
}

#[test]
fn parse_joins() {
    let join_of = |query: &str| match parse(query).unwrap() {
        SQLStatement::Select(stmt) => stmt.join.unwrap(),
        other => panic!("unexpected {:?}", other),
    };
    assert_eq!(join_of("SELECT * FROM a JOIN b ON x = y").join_type, JoinType::Inner);
    assert_eq!(join_of("SELECT * FROM a RIGHT JOIN b ON a.x = y").on_left, "a.x");
    assert_eq!(join_of("SELECT * FROM a FULL JOIN b ON x = b.y").on_right, "b.y");
    assert_eq!(
        join_of("SELECT * FROM a CROSS JOIN b"),
        JoinClause { join_type: JoinType::Cross, table: s("b"), on_left: s(""), on_right: s("") }
    );
    assert_eq!(parse("SELECT * FROM a LEFT b"), Err(s("Expected Join, but found Identifier(\"b\")")));
    assert_eq!(parse("SELECT * FROM a JOIN b x"), Err(s("Expected On, but found Identifier(\"x\")")));
    assert_eq!(parse("SELECT * FROM a JOIN b ON x. = y"), Err(s("Expected identifier after '.'")));
    assert_eq!(parse("SELECT * FROM a CROSS JOIN"), Err(s("Expected table name after CROSS JOIN but reached end of input")));
}

#[test]
fn parse_aggregates_in_the_projection() {
    let columns_of = |query: &str| match parse(query).unwrap() {
        SQLStatement::Select(stmt) => stmt.columns,
        other => panic!("unexpected {:?}", other),
    };
    assert_eq!(
        columns_of("SELECT count(a), Sum(b), AVG(c), min(d), MAX(e), count(*) a FROM t"),
        vec![
            ColumnExpr::Count(s("a")),
            ColumnExpr::Sum(s("b")),
            ColumnExpr::Avg(s("c")),
            ColumnExpr::Min(s("d")),
            ColumnExpr::Max(s("e")),
            ColumnExpr::CountAll,
            ColumnExpr::Column(s("a")),
        ]
    );
    assert_eq!(parse("SELECT median(a) FROM t"), Err(s("Unknown function 'median'")));
    assert_eq!(parse("SELECT sum(*) FROM t"), Err(s("Expected column name inside function call")));
    assert_eq!(parse("SELECT sum(a FROM t"), Err(s("Expected RightParen, but found From")));
    assert_eq!(parse("SELECT a. FROM t"), Err(s("Expected identifier after '.'")));
    assert_eq!(parse("SELECT 'a' FROM t"), Err(s("Unexpected token in column list: StringLiteral(\"a\")")));
    assert_eq!(parse("SELECT 1 FROM t"), Err(s("Unexpected token in column list: NumberLiteral(1)")));
    assert_eq!(parse("SELECT a"), Err(s("Expected From, but reached end of input")));
    assert_eq!(parse("SELECT a FROM"), Err(s("Expected table name after FROM but reached end of input")));
}

#[test]
fn parse_where_group_order_and_having_errors() {
    assert_eq!(
        parse("SELECT a FROM t WHERE 'x' = 'y'"),
        Err(s("Expected column name in WHERE clause but found StringLiteral(\"x\")"))
    );
    assert_eq!(parse("SELECT a FROM t WHERE a , 'y'"), Err(s("Expected comparison operator in WHERE clause")));
    assert_eq!(parse("SELECT a FROM t WHERE a ="), Err(s("Expected value in WHERE clause but reached end of input")));
    assert_eq!(parse("SELECT a FROM t WHERE a = b"), Err(s("Expected value in WHERE clause but found Identifier(\"b\")")));
    assert_eq!(parse("SELECT a FROM t GROUP a"), Err(s("Expected By, but found Identifier(\"a\")")));
    assert_eq!(parse("SELECT a FROM t GROUP BY"), Err(s("Expected column name after GROUP BY but reached end of input")));
    assert_eq!(parse("SELECT a FROM t ORDER BY ,"), Err(s("Expected column name after ORDER BY but found Comma")));
    assert_eq!(parse("SELECT a FROM t HAVING"), Err(s("Unexpected end of input in HAVING clause")));
    assert_eq!(parse("SELECT a FROM t HAVING 1"), Err(s("Unexpected token in HAVING: NumberLiteral(1)")));
    assert_eq!(parse("SELECT a FROM t HAVING f(x) > 1"), Err(s("Unsupported aggregate in HAVING: f")));
    assert_eq!(parse("SELECT a FROM t HAVING sum(*) > 1"), Err(s("Expected column or '*' inside function call")));
    assert_eq!(parse("SELECT a FROM t HAVING sum(x) 1"), Err(s("Expected comparison operator in HAVING")));
    assert_eq!(parse("SELECT a FROM t HAVING sum(x) >"), Err(s("Expected value in HAVING but found end of input")));
    assert_eq!(parse("SELECT a FROM t HAVING sum(x) > y"), Err(s("Expected value in HAVING but found Identifier(\"y\")")));
    let having_of = |query: &str| match parse(query).unwrap() {
        SQLStatement::Select(stmt) => stmt.having.unwrap(),
        other => panic!("unexpected {:?}", other),
    };
    assert_eq!(
        having_of("SELECT a FROM t hAvInG avg(x) = '1.5'"),
        HavingClause { column_expr: ColumnExpr::Avg(s("x")), operator: s("="), value: s("1.5") }
    );
    assert_eq!(having_of("SELECT a FROM t HAVING min(x) < 10").value, "10");
    let order_of = |query: &str| match parse(query).unwrap() {
        SQLStatement::Select(stmt) => stmt.order_by.unwrap(),
        other => panic!("unexpected {:?}", other),
    };
    assert!(!order_of("SELECT a FROM t ORDER BY a").descending);
    assert!(!order_of("SELECT a FROM t ORDER BY a ASC").descending);
    assert!(order_of("SELECT a FROM t ORDER BY a DESC").descending);
}

#[test]
fn parse_insert_with_several_tuples() {
    assert_eq!(
        parse("INSERT INTO t (a, b) VALUES ('1', 'x'), ('2', 'y')").unwrap(),
        SQLStatement::Insert(InsertStatement {
            table: s("t"),
            columns: vec![s("a"), s("b")],
            values: vec![vec![s("1"), s("x")], vec![s("2"), s("y")]],
        })
    );
    assert_eq!(parse("INSERT t"), Err(s("Expected Into, but found Identifier(\"t\")")));
    assert_eq!(parse("INSERT INTO t (a"), Err(s("Unexpected end of input in column list")));
    assert_eq!(parse("INSERT INTO t (a, 'b')"), Err(s("Unexpected token in column list: StringLiteral(\"b\")")));
    assert_eq!(parse("INSERT INTO t (a) ('1')"), Err(s("Expected Values, but found LeftParen")));
    assert_eq!(parse("INSERT INTO t (a) VALUES ('1'"), Err(s("Unexpected end of input in VALUES tuple")));
    assert_eq!(parse("INSERT INTO t (a) VALUES (1)"), Err(s("Unexpected token in VALUES tuple: NumberLiteral(1)")));
    assert_eq!(
        parse("INSERT INTO t (a) VALUES").unwrap(),
        SQLStatement::Insert(InsertStatement { table: s("t"), columns: vec![s("a")], values: vec![] })
    );
}

#[test]
fn parse_update_and_delete_errors() {
    assert_eq!(parse("UPDATE t a = '1'"), Err(s("Expected Set, but found Identifier(\"a\")")));
    assert_eq!(parse("UPDATE t SET a '1'"), Err(s("Expected Equals, but found StringLiteral(\"1\")")));
    assert_eq!(parse("UPDATE t SET a = 1"), Err(s("Expected value in SET clause but found NumberLiteral(1)")));
    assert_eq!(parse("UPDATE t SET"), Err(s("Expected column name in SET clause but reached end of input")));
    assert_eq!(parse("UPDATE"), Err(s("Expected table name after UPDATE but reached end of input")));
    assert_eq!(parse("DELETE t"), Err(s("Expected From, but found Identifier(\"t\")")));
    assert_eq!(parse("DELETE FROM"), Err(s("Expected table name after DELETE FROM but reached end of input")));
}

#[test]
fn parse_create_alter_and_drop() {
    assert_eq!(
        parse("CREATE TABLE users (name TEXT, age TEXT)").unwrap(),
        SQLStatement::CreateTable(CreateTableStatement {
            table: s("users"),
            columns: vec![(s("name"), s("TEXT")), (s("age"), s("TEXT"))],
        })
    );
    assert_eq!(parse("CREATE users"), Err(s("Expected Table, but found Identifier(\"users\")")));
    assert_eq!(parse("CREATE TABLE t (a)"), Err(s("Expected data type but found RightParen")));
    assert_eq!(parse("CREATE TABLE t (a TEXT b TEXT)"), Err(s("Expected ',' or ')' after column definition")));
    assert_eq!(parse("CREATE TABLE t ()"), Err(s("Expected column name but found RightParen")));
    let alter = |action| SQLStatement::AlterTable(AlterTableStatement { table: s("t"), action });
    assert_eq!(parse("ALTER TABLE t ADD c TEXT").unwrap(), alter(AlterAction::AddColumn(s("c"))));
    assert_eq!(parse("ALTER TABLE t ADD c").unwrap(), alter(AlterAction::AddColumn(s("c"))));
    assert_eq!(parse("ALTER TABLE t DROP c").unwrap(), alter(AlterAction::DropColumn(s("c"))));
    assert_eq!(parse("ALTER TABLE t MODIFY c INT").unwrap(), alter(AlterAction::ModifyColumn(s("c"), s("INT"))));
    assert_eq!(parse("ALTER TABLE t MODIFY c"), Err(s("Expected new data type after column but reached end of input")));
    assert_eq!(parse("ALTER TABLE t"), Err(s("Unexpected end of input in ALTER TABLE")));
    assert_eq!(parse("ALTER TABLE t SET"), Err(s("Unexpected token in ALTER TABLE: Set")));
    assert_eq!(
        parse("DROP TABLE t").unwrap(),
        SQLStatement::DropTable(DropTableStatement { table: s("t") })
    );
    assert_eq!(parse("DROP t"), Err(s("Expected Table, but found Identifier(\"t\")")));
    assert_eq!(parse(""), Err(s("Unexpected token at start of statement")));
    assert_eq!(parse("FROM t"), Err(s("Unexpected token at start of statement")));
}

#[test]
fn parser_stands_behind_what_it_has_read() {
    let mut parser = Parser::new(tokenize("DROP TABLE a DROP TABLE b").unwrap());
    assert_eq!(parser.parse().unwrap(), SQLStatement::DropTable(DropTableStatement { table: s("a") }));
    assert_eq!(parser.parse().unwrap(), SQLStatement::DropTable(DropTableStatement { table: s("b") }));
    assert!(parser.parse().is_err());
}

#[test]
fn parse_error_shows_an_escaped_text() {
    assert_eq!(
        parse("SELECT a FROM t WHERE a = \"q"),
        Err(s("Expected value in WHERE clause but found Unknown(\"\\\"\")"))
    );
}

#[test]
fn keyword_of_knows_the_keywords_in_upper_case_only() {
    assert_eq!(keyword_of("SELECT"), Some(TokenKind::Select));
    assert_eq!(keyword_of("SET"), Some(TokenKind::SetWord));
    assert_eq!(keyword_of("CROSS"), Some(TokenKind::Cross));
    assert_eq!(keyword_of("select"), None);
    assert_eq!(keyword_of("HAVING"), None);
    assert_eq!(keyword_of(""), None);
}

#[test]
fn aggregate_of_knows_the_five_functions() {
    assert_eq!(aggregate_of("COUNT", s("a")), Some(ColumnExpr::Count(s("a"))));
    assert_eq!(aggregate_of("SUM", s("a")), Some(ColumnExpr::Sum(s("a"))));
    assert_eq!(aggregate_of("AVG", s("a")), Some(ColumnExpr::Avg(s("a"))));
    assert_eq!(aggregate_of("MIN", s("a")), Some(ColumnExpr::Min(s("a"))));
    assert_eq!(aggregate_of("MAX", s("a")), Some(ColumnExpr::Max(s("a"))));
    assert_eq!(aggregate_of("count", s("a")), None);
    assert_eq!(aggregate_of("MEDIAN", s("a")), None);
}
