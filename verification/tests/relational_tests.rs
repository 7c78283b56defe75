use lsm_sql::filter::{
    apply_having, apply_where_clause, evaluate_having_condition, evaluate_where_condition, Judgement, Stop,
};
use lsm_sql::format::format_select_result;
use lsm_sql::group::apply_group_by;
use lsm_sql::join::perform_join;
use lsm_sql::order::apply_order_by;
use lsm_sql::text::{decimal_text, last_segment_text, str_less};
use lsm_sql::{
    ColumnExpr, ExecError, FoldKind, HavingClause, JoinClause, JoinType, NumberFacts, NumberQuery,
    NumericOrder, OrderByClause, Row, WhereClause,
};

fn s(text: &str) -> String {
    text.to_string()
}

fn row(fields: &[(&str, &str)]) -> Row {
    let mut row = Row::new();
    for (name, value) in fields {
        row.insert(s(name), s(value));
    }
    row
}

fn fields(row: &Row) -> Vec<(String, String)> {
    row.names().into_iter().map(|name| (name.clone(), row.get(&name).unwrap().clone())).collect()
}

fn all_fields(rows: &[Row]) -> Vec<Vec<(String, String)>> {
    rows.iter().map(fields).collect()
}

fn expect(fields: &[(&str, &str)]) -> Vec<(String, String)> {
    let mut pairs: Vec<(String, String)> = fields.iter().map(|(k, v)| (s(k), s(v))).collect();
    pairs.sort();
    pairs
}

fn join(kind: JoinType, table: &str, left: &str, right: &str) -> JoinClause {
    JoinClause { join_type: kind, table: s(table), on_left: s(left), on_right: s(right) }
}

fn users() -> Vec<Row> {
    vec![
        row(&[("id", "1"), ("name", "Alice")]),
        row(&[("id", "2"), ("name", "Bob")]),
        row(&[("id", "3"), ("name", "Cara")]),
    ]
}

fn orders() -> Vec<Row> {
    vec![
        row(&[("user_id", "1"), ("total", "100")]),
        row(&[("user_id", "1"), ("total", "50")]),
        row(&[("user_id", "3"), ("total", "7")]),
        row(&[("user_id", "9"), ("total", "1")]),
    ]
}

fn where_clause(column: &str, operator: &str, value: &str) -> WhereClause {
    WhereClause { column: s(column), operator: s(operator), value: s(value) }
}

#[test]
fn text_order_is_by_code_point() {
    assert!(str_less("a", "b"));
    assert!(str_less("", "a"));
    assert!(!str_less("a", ""));
    assert!(!str_less("a", "a"));
    assert!(str_less("Z", "a"));
    assert!(str_less("ab", "abc"));
    assert!(str_less("abc", "abd"));
    assert!(str_less("z", "é"));
    assert!(str_less("é", "日"));
    for (a, b) in [("10", "9"), ("row_2", "row_10"), ("é", "e\u{301}")] {
        assert_eq!(str_less(a, b), a < b);
    }
}

#[test]
fn decimal_text_writes_numbers() {
    assert_eq!(decimal_text(0), "0");
    assert_eq!(decimal_text(7), "7");
    assert_eq!(decimal_text(10), "10");
    assert_eq!(decimal_text(1234567890), "1234567890");
    assert_eq!(decimal_text(u64::MAX), "18446744073709551615");
}

#[test]
fn last_segment_takes_what_follows_the_last_dot() {
    assert_eq!(last_segment_text("a.id"), "id");
    assert_eq!(last_segment_text("id"), "id");
    assert_eq!(last_segment_text("db.users.id"), "id");
    assert_eq!(last_segment_text("users."), "");
    assert_eq!(last_segment_text(""), "");
}

#[test]
fn row_holds_one_value_per_column() {
    let mut r = Row::new();
    assert_eq!(r.len(), 0);
    r.insert(s("b"), s("2"));
    r.insert(s("a"), s("1"));
    r.insert(s("b"), s("3"));
    assert_eq!(r.len(), 2);
    assert_eq!(r.names(), vec![s("a"), s("b")]);
    assert_eq!(r.get("b"), Some(&s("3")));
    assert_eq!(r.get("c"), None);
    assert!(r.contains_key("a"));
    assert!(!r.contains_key("c"));
    let copy = r.clone();
    assert_eq!(fields(&copy), fields(&r));
}

#[test]
fn row_null_text_is_not_an_absent_column() {
    let r = row(&[("a", "NULL")]);
    assert!(r.contains_key("a"));
    assert!(!r.contains_key("b"));
}

#[test]
fn row_json_round_trip() {
    let r = row(&[("name", "Al\"ice"), ("age", "30"), ("note", "line\nbreak")]);
    let text = r.to_json();
    assert_eq!(text, "{\"age\":\"30\",\"name\":\"Al\\\"ice\",\"note\":\"line\\nbreak\"}");
    let back = Row::from_json(&text).unwrap();
    assert_eq!(fields(&back), fields(&r));
    assert_eq!(Row::new().to_json(), "{}");
}

#[test]
fn row_from_json_reads_members_in_any_order() {
    let r = Row::from_json(" { \"b\" : \"2\", \"a\" : \"1\", \"b\" : \"3\" } ").unwrap();
    assert_eq!(fields(&r), expect(&[("a", "1"), ("b", "3")]));
}

#[test]
fn row_from_json_rejects_what_is_no_object_of_strings() {
    for text in ["", "[]", "{\"a\":1}", "{\"a\":\"1\"", "\"a\"", "{\"a\":null}"] {
        match Row::from_json(text) {
            Err(ExecError::SerializationError(message)) => {
                assert!(message.starts_with("Failed to deserialize row data: "), "{}", message);
                assert!(message.len() > "Failed to deserialize row data: ".len());
            }
            other => panic!("{:?} for {:?}", other, text),
        }
    }
}

#[test]
fn inner_join_pairs_rows_with_equal_keys() {
    let rows = perform_join(&users(), &orders(), &join(JoinType::Inner, "orders", "users.id", "orders.user_id"));
    assert_eq!(
        all_fields(&rows),
        vec![
            expect(&[("id", "1"), ("name", "Alice"), ("orders.user_id", "1"), ("orders.total", "100")]),
            expect(&[("id", "1"), ("name", "Alice"), ("orders.user_id", "1"), ("orders.total", "50")]),
            expect(&[("id", "3"), ("name", "Cara"), ("orders.user_id", "3"), ("orders.total", "7")]),
        ]
    );
}

#[test]
fn inner_join_count_is_the_number_of_matching_pairs() {
    let left = users();
    let right = orders();
    let mut pairs = 0;
    for l in &left {
        for r in &right {
            if l.get("id") == r.get("user_id") {
                pairs += 1;
            }
        }
    }
    let rows = perform_join(&left, &right, &join(JoinType::Inner, "orders", "id", "user_id"));
    assert_eq!(rows.len(), pairs);
    assert_eq!(pairs, 3);
}

#[test]
fn join_treats_two_missing_keys_as_equal() {
    let left = vec![row(&[("name", "x")])];
    let right = vec![row(&[("total", "1")]), row(&[("user_id", "1")])];
    let rows = perform_join(&left, &right, &join(JoinType::Inner, "o", "id", "user_id"));
    assert_eq!(all_fields(&rows), vec![expect(&[("name", "x"), ("o.total", "1")])]);
}

#[test]
fn cross_join_gives_every_pair() {
    let left = users();
    let right = orders();
    let rows = perform_join(&left, &right, &join(JoinType::Cross, "orders", "", ""));
    assert_eq!(rows.len(), left.len() * right.len());
    assert_eq!(
        fields(&rows[0]),
        expect(&[("id", "1"), ("name", "Alice"), ("orders.user_id", "1"), ("orders.total", "100")])
    );
    assert_eq!(
        fields(&rows[11]),
        expect(&[("id", "3"), ("name", "Cara"), ("orders.user_id", "9"), ("orders.total", "1")])
    );
    assert!(perform_join(&left, &Vec::new(), &join(JoinType::Cross, "o", "", "")).is_empty());
}

#[test]
fn left_join_pads_unmatched_left_rows_with_null() {
    let rows = perform_join(&users(), &orders(), &join(JoinType::Left, "orders", "id", "user_id"));
    assert_eq!(
        all_fields(&rows),
        vec![
            expect(&[("id", "1"), ("name", "Alice"), ("orders.user_id", "1"), ("orders.total", "100")]),
            expect(&[("id", "1"), ("name", "Alice"), ("orders.user_id", "1"), ("orders.total", "50")]),
            expect(&[("id", "2"), ("name", "Bob"), ("orders.user_id", "NULL"), ("orders.total", "NULL")]),
            expect(&[("id", "3"), ("name", "Cara"), ("orders.user_id", "3"), ("orders.total", "7")]),
        ]
    );
}

#[test]
fn left_join_with_at_most_one_match_each_has_one_row_per_left_row() {
    let right = vec![row(&[("user_id", "1"), ("total", "100")]), row(&[("user_id", "3"), ("total", "7")])];
    let left = users();
    let rows = perform_join(&left, &right, &join(JoinType::Left, "o", "id", "user_id"));
    assert_eq!(rows.len(), left.len());
    let padded: Vec<&Row> = rows.iter().filter(|r| r.get("o.total") == Some(&s("NULL"))).collect();
    assert_eq!(padded.len(), 1);
    assert_eq!(padded[0].get("name"), Some(&s("Bob")));
}

#[test]
fn left_join_with_no_right_rows_adds_no_columns() {
    let rows = perform_join(&users(), &Vec::new(), &join(JoinType::Left, "o", "id", "user_id"));
    assert_eq!(all_fields(&rows), all_fields(&users()));
}

#[test]
fn right_join_pads_unmatched_right_rows_with_null() {
    let rows = perform_join(&users(), &orders(), &join(JoinType::Right, "orders", "id", "user_id"));
    assert_eq!(
        all_fields(&rows),
        vec![
            expect(&[("id", "1"), ("name", "Alice"), ("orders.user_id", "1"), ("orders.total", "100")]),
            expect(&[("id", "1"), ("name", "Alice"), ("orders.user_id", "1"), ("orders.total", "50")]),
            expect(&[("id", "3"), ("name", "Cara"), ("orders.user_id", "3"), ("orders.total", "7")]),
            expect(&[("id", "NULL"), ("name", "NULL"), ("orders.user_id", "9"), ("orders.total", "1")]),
        ]
    );
}

#[test]
fn full_join_keeps_unmatched_rows_of_both_sides() {
    let rows = perform_join(&users(), &orders(), &join(JoinType::Full, "orders", "id", "user_id"));
    assert_eq!(
        all_fields(&rows),
        vec![
            expect(&[("id", "1"), ("name", "Alice"), ("orders.user_id", "1"), ("orders.total", "100")]),
            expect(&[("id", "1"), ("name", "Alice"), ("orders.user_id", "1"), ("orders.total", "50")]),
            expect(&[("id", "2"), ("name", "Bob"), ("orders.user_id", "NULL"), ("orders.total", "NULL")]),
            expect(&[("id", "3"), ("name", "Cara"), ("orders.user_id", "3"), ("orders.total", "7")]),
            expect(&[("id", "NULL"), ("name", "NULL"), ("orders.user_id", "9"), ("orders.total", "1")]),
        ]
    );
}

#[test]
fn joined_column_replaces_a_left_column_of_the_same_name() {
    let left = vec![row(&[("id", "1"), ("o.id", "left")])];
    let right = vec![row(&[("id", "1")])];
    let rows = perform_join(&left, &right, &join(JoinType::Inner, "o", "id", "id"));
    assert_eq!(all_fields(&rows), vec![expect(&[("id", "1"), ("o.id", "1")])]);
}

#[test]
fn where_equality_compares_texts() {
    let facts = NumberFacts::new();
    let kept = apply_where_clause(users(), &where_clause("name", "=", "Bob"), &facts).unwrap();
    assert_eq!(all_fields(&kept), vec![expect(&[("id", "2"), ("name", "Bob")])]);
    let kept = apply_where_clause(users(), &where_clause("name", "!=", "Bob"), &facts).unwrap();
    assert_eq!(kept.len(), 2);
    // texts, not numbers
    let rows = vec![row(&[("n", "1.0")])];
    assert!(apply_where_clause(rows, &where_clause("n", "=", "1"), &facts).unwrap().is_empty());
}

#[test]
fn where_drops_rows_that_lack_the_column() {
    let facts = NumberFacts::new();
    let rows = vec![row(&[("a", "1")]), row(&[("b", "1")])];
    let kept = apply_where_clause(rows, &where_clause("a", "!=", "2"), &facts).unwrap();
    assert_eq!(all_fields(&kept), vec![expect(&[("a", "1")])]);
    // not even an unknown operator matters for such a row
    let rows = vec![row(&[("b", "1")])];
    assert!(apply_where_clause(rows, &where_clause("a", "~", "2"), &facts).unwrap().is_empty());
}

#[test]
fn where_numeric_comparison_asks_for_what_it_does_not_know() {
    let facts = NumberFacts::new();
    let rows = vec![row(&[("age", "30")]), row(&[("name", "x")]), row(&[("age", "7")])];
    match apply_where_clause(rows, &where_clause("age", ">", "21"), &facts) {
        Err(Stop::Needs(queries)) => {
            let asked: Vec<(String, String)> = queries
                .into_iter()
                .map(|q| match q {
                    NumberQuery::Compare { left, right } => (left, right),
                    other => panic!("unexpected {:?}", other),
                })
                .collect();
            assert_eq!(asked, vec![(s("30"), s("21")), (s("7"), s("21"))]);
        }
        other => panic!("unexpected {:?}", other),
    }
}

#[test]
fn where_numeric_comparison_uses_the_answers() {
    let mut facts = NumberFacts::new();
    facts.record_order(s("30"), s("21"), NumericOrder::Greater);
    facts.record_order(s("7"), s("21"), NumericOrder::Less);
    facts.record_order(s("21.0"), s("21"), NumericOrder::Equal);
    let rows = || vec![row(&[("age", "30")]), row(&[("age", "7")]), row(&[("age", "21.0")])];
    let kept = apply_where_clause(rows(), &where_clause("age", ">", "21"), &facts).unwrap();
    assert_eq!(all_fields(&kept), vec![expect(&[("age", "30")])]);
    let kept = apply_where_clause(rows(), &where_clause("age", "<", "21"), &facts).unwrap();
    assert_eq!(all_fields(&kept), vec![expect(&[("age", "7")])]);
}

#[test]
fn where_later_answer_replaces_an_earlier_one() {
    let mut facts = NumberFacts::new();
    facts.record_order(s("1"), s("2"), NumericOrder::Greater);
    facts.record_order(s("1"), s("2"), NumericOrder::Less);
    assert_eq!(facts.order_of("1", "2"), Some(NumericOrder::Less));
    assert_eq!(facts.order_of("2", "1"), None);
}

#[test]
fn where_non_numeric_operand_is_a_parse_error() {
    let mut facts = NumberFacts::new();
    facts.record_order(s("abc"), s("21"), NumericOrder::NotNumeric);
    facts.record_order(s("30"), s("21"), NumericOrder::Greater);
    let rows = vec![row(&[("age", "30")]), row(&[("age", "abc")])];
    match apply_where_clause(rows, &where_clause("age", ">", "21"), &facts) {
        Err(Stop::Failed(ExecError::ParseError(message))) => assert_eq!(message, "Invalid number"),
        other => panic!("unexpected {:?}", other),
    }
}

#[test]
fn where_unknown_operator_is_an_error() {
    let facts = NumberFacts::new();
    match apply_where_clause(users(), &where_clause("name", ">=", "1"), &facts) {
        Err(Stop::Failed(ExecError::Unsupported(message))) => {
            assert_eq!(message, "Unsupported operator: >=")
        }
        other => panic!("unexpected {:?}", other),
    }
    // no row, no error
    assert!(apply_where_clause(Vec::new(), &where_clause("name", ">=", "1"), &facts).unwrap().is_empty());
}

#[test]
fn where_condition_judges_one_row() {
    let facts = NumberFacts::new();
    let r = row(&[("a", "1")]);
    assert!(matches!(evaluate_where_condition(&r, &where_clause("a", "=", "1"), &facts), Judgement::Keep));
    assert!(matches!(evaluate_where_condition(&r, &where_clause("a", "=", "2"), &facts), Judgement::Drop));
    assert!(matches!(evaluate_where_condition(&r, &where_clause("b", "=", "1"), &facts), Judgement::Drop));
    assert!(matches!(
        evaluate_where_condition(&r, &where_clause("a", "<", "2"), &facts),
        Judgement::Ask(NumberQuery::Compare { .. })
    ));
}

fn sales() -> Vec<Row> {
    vec![
        row(&[("region", "north"), ("amount", "10")]),
        row(&[("region", "south"), ("amount", "5")]),
        row(&[("region", "north"), ("amount", "x")]),
        row(&[("region", "north")]),
        row(&[("amount", "1")]),
        row(&[("region", ""), ("amount", "2")]),
    ]
}

#[test]
fn group_by_gives_one_row_per_distinct_value() {
    let facts = NumberFacts::new();
    let groups = apply_group_by(sales(), &vec![s("region")], &vec![ColumnExpr::CountAll], &facts).unwrap();
    // a missing value groups with the empty text
    assert_eq!(groups.len(), 3);
    let counts: Vec<(Option<String>, String)> =
        groups.iter().map(|g| (g.get("region").cloned(), g.get("COUNT(*)").unwrap().clone())).collect();
    assert_eq!(
        counts,
        vec![(Some(s("north")), s("3")), (Some(s("south")), s("1")), (None, s("2"))]
    );
}

#[test]
fn group_by_several_columns_buckets_by_the_tuple() {
    let facts = NumberFacts::new();
    let rows = vec![
        row(&[("a", "1"), ("b", "x")]),
        row(&[("a", "1"), ("b", "y")]),
        row(&[("a", "1"), ("b", "x")]),
        row(&[("a", "1|x"), ("b", "")]),
    ];
    let groups = apply_group_by(rows, &vec![s("a"), s("b")], &vec![ColumnExpr::CountAll], &facts).unwrap();
    let counts: Vec<String> = groups.iter().map(|g| g.get("COUNT(*)").unwrap().clone()).collect();
    assert_eq!(counts, vec![s("2"), s("1"), s("1")]);
}

#[test]
fn count_of_a_column_counts_rows_that_have_it() {
    let facts = NumberFacts::new();
    let groups = apply_group_by(
        sales(),
        &Vec::new(),
        &vec![ColumnExpr::Count(s("amount")), ColumnExpr::CountAll, ColumnExpr::Column(s("region"))],
        &facts,
    )
    .unwrap();
    assert_eq!(groups.len(), 1);
    assert_eq!(groups[0].get("COUNT(amount)"), Some(&s("5")));
    assert_eq!(groups[0].get("COUNT(*)"), Some(&s("6")));
    // the row that stands for the group is its first row
    assert_eq!(groups[0].get("region"), Some(&s("north")));
    assert_eq!(groups[0].get("amount"), Some(&s("10")));
}

#[test]
fn folds_are_asked_for_with_the_values_present() {
    let facts = NumberFacts::new();
    let columns = vec![ColumnExpr::Sum(s("amount")), ColumnExpr::Max(s("amount"))];
    match apply_group_by(sales(), &vec![s("region")], &columns, &facts) {
        Err(Stop::Needs(queries)) => {
            let asked: Vec<(FoldKind, Vec<String>)> = queries
                .into_iter()
                .map(|q| match q {
                    NumberQuery::Fold { kind, values } => (kind, values),
                    other => panic!("unexpected {:?}", other),
                })
                .collect();
            assert_eq!(
                asked,
                vec![
                    (FoldKind::Sum, vec![s("10"), s("x")]),
                    (FoldKind::Max, vec![s("10"), s("x")]),
                    (FoldKind::Sum, vec![s("5")]),
                    (FoldKind::Max, vec![s("5")]),
                    (FoldKind::Sum, vec![s("1"), s("2")]),
                    (FoldKind::Max, vec![s("1"), s("2")]),
                ]
            );
        }
        other => panic!("unexpected {:?}", other),
    }
}

#[test]
fn folds_are_written_under_their_names() {
    let mut facts = NumberFacts::new();
    facts.record_fold(FoldKind::Sum, vec![s("10"), s("x")], s("10"));
    facts.record_fold(FoldKind::Sum, vec![s("5")], s("5"));
    facts.record_fold(FoldKind::Sum, vec![s("1"), s("2")], s("3"));
    facts.record_fold(FoldKind::Avg, vec![s("1"), s("2")], s("1.5"));
    let groups =
        apply_group_by(sales(), &vec![s("region")], &vec![ColumnExpr::Sum(s("amount"))], &facts).unwrap();
    let sums: Vec<String> = groups.iter().map(|g| g.get("SUM(amount)").unwrap().clone()).collect();
    assert_eq!(sums, vec![s("10"), s("5"), s("3")]);
    assert_eq!(facts.fold_of(FoldKind::Avg, &vec![s("1"), s("2")]), Some(s("1.5")));
    assert_eq!(facts.fold_of(FoldKind::Min, &vec![s("1"), s("2")]), None);
    assert_eq!(facts.fold_of(FoldKind::Avg, &vec![s("2"), s("1")]), None);
}

#[test]
fn grouping_no_rows_gives_no_rows() {
    let facts = NumberFacts::new();
    assert!(apply_group_by(Vec::new(), &Vec::new(), &vec![ColumnExpr::CountAll], &facts).unwrap().is_empty());
}

fn having(expr: ColumnExpr, operator: &str, value: &str) -> HavingClause {
    HavingClause { column_expr: expr, operator: s(operator), value: s(value) }
}

#[test]
fn having_keeps_groups_by_a_numeric_comparison() {
    let rows = || vec![row(&[("g", "a"), ("COUNT(*)", "3")]), row(&[("g", "b"), ("COUNT(*)", "1")])];
    let mut facts = NumberFacts::new();
    facts.record_order(s("3"), s("1"), NumericOrder::Greater);
    facts.record_order(s("1"), s("1"), NumericOrder::Equal);
    let groups = |operator: &str| -> Vec<String> {
        apply_having(rows(), &having(ColumnExpr::CountAll, operator, "1"), &facts)
            .unwrap()
            .iter()
            .map(|r| r.get("g").unwrap().clone())
            .collect()
    };
    assert_eq!(groups(">"), vec![s("a")]);
    assert_eq!(groups("="), vec![s("b")]);
    assert_eq!(groups("!="), vec![s("a")]);
    assert!(groups("<").is_empty());
}

#[test]
fn having_never_adds_rows() {
    let rows = vec![row(&[("COUNT(*)", "3")]), row(&[("COUNT(*)", "1")]), row(&[("COUNT(*)", "2")])];
    let before = rows.len();
    let mut facts = NumberFacts::new();
    facts.record_order(s("3"), s("0"), NumericOrder::Greater);
    facts.record_order(s("1"), s("0"), NumericOrder::Greater);
    facts.record_order(s("2"), s("0"), NumericOrder::Greater);
    let kept = apply_having(rows, &having(ColumnExpr::CountAll, ">", "0"), &facts).unwrap();
    assert!(kept.len() <= before);
    assert_eq!(kept.len(), 3);
}

#[test]
fn having_not_a_number_compares_unequal() {
    let rows = vec![row(&[("SUM(x)", "NaN")])];
    let mut facts = NumberFacts::new();
    facts.record_order(s("NaN"), s("1"), NumericOrder::Unordered);
    assert_eq!(apply_having(rows.clone(), &having(ColumnExpr::Sum(s("x")), "!=", "1"), &facts).unwrap().len(), 1);
    assert!(apply_having(rows.clone(), &having(ColumnExpr::Sum(s("x")), "=", "1"), &facts).unwrap().is_empty());
    assert!(apply_having(rows.clone(), &having(ColumnExpr::Sum(s("x")), ">", "1"), &facts).unwrap().is_empty());
    assert!(apply_having(rows, &having(ColumnExpr::Sum(s("x")), "<", "1"), &facts).unwrap().is_empty());
}

#[test]
fn having_missing_column_is_not_found() {
    let facts = NumberFacts::new();
    let rows = vec![row(&[("g", "a")])];
    match apply_having(rows, &having(ColumnExpr::Avg(s("x")), ">", "1"), &facts) {
        Err(Stop::Failed(ExecError::NotFound(message))) => assert_eq!(message, "Column 'AVG(x)' not found"),
        other => panic!("unexpected {:?}", other),
    }
}

#[test]
fn having_asks_before_it_fails() {
    let facts = NumberFacts::new();
    let rows = vec![row(&[("g", "a")]), row(&[("COUNT(*)", "2")])];
    match apply_having(rows, &having(ColumnExpr::CountAll, ">", "1"), &facts) {
        Err(Stop::Needs(queries)) => assert_eq!(queries.len(), 1),
        other => panic!("unexpected {:?}", other),
    }
}

#[test]
fn having_bad_operands_and_operators_are_errors() {
    let r = row(&[("COUNT(*)", "2")]);
    let mut facts = NumberFacts::new();
    facts.record_order(s("2"), s("many"), NumericOrder::NotNumeric);
    facts.record_order(s("2"), s("1"), NumericOrder::Greater);
    match evaluate_having_condition(&r, &having(ColumnExpr::CountAll, ">", "many"), &facts) {
        Judgement::Fail(ExecError::ParseError(message)) => assert_eq!(message, "Invalid number"),
        other => panic!("unexpected {:?}", other),
    }
    match evaluate_having_condition(&r, &having(ColumnExpr::CountAll, "<>", "1"), &facts) {
        Judgement::Fail(ExecError::Unsupported(message)) => assert_eq!(message, "Unsupported operator: <>"),
        other => panic!("unexpected {:?}", other),
    }
}

fn order(column: &str, descending: bool) -> OrderByClause {
    OrderByClause { column: s(column), descending }
}

#[test]
fn order_by_sorts_by_text_and_is_stable() {
    let rows = vec![
        row(&[("k", "b"), ("n", "1")]),
        row(&[("k", "a"), ("n", "2")]),
        row(&[("n", "3")]),
        row(&[("k", "b"), ("n", "4")]),
        row(&[("k", "10"), ("n", "5")]),
        row(&[("k", "9"), ("n", "6")]),
        row(&[("k", ""), ("n", "7")]),
    ];
    let numbers = |rows: &[Row]| -> Vec<String> { rows.iter().map(|r| r.get("n").unwrap().clone()).collect() };
    let ascending = apply_order_by(rows.clone(), &order("k", false));
    assert_eq!(numbers(&ascending), vec!["3", "7", "5", "6", "2", "1", "4"]);
    let descending = apply_order_by(rows.clone(), &order("k", true));
    assert_eq!(numbers(&descending), vec!["1", "4", "2", "6", "5", "3", "7"]);
    // a column that no row has leaves the order as it is
    assert_eq!(numbers(&apply_order_by(rows, &order("zzz", true))), vec!["1", "2", "3", "4", "5", "6", "7"]);
    assert!(apply_order_by(Vec::new(), &order("k", false)).is_empty());
}

#[test]
fn format_reports_no_rows() {
    assert_eq!(format_select_result(&Vec::new(), &vec![ColumnExpr::All], None), "No matching rows found");
}

#[test]
fn format_projects_the_requested_columns_in_order() {
    let rows = vec![row(&[("name", "Alice"), ("age", "30")]), row(&[("name", "Bob")])];
    let columns = vec![ColumnExpr::Column(s("age")), ColumnExpr::Column(s("name")), ColumnExpr::CountAll];
    assert_eq!(
        format_select_result(&rows, &columns, None),
        "age | name | COUNT(*)\n----------------------\n30 | Alice | NULL\nNULL | Bob | NULL\n"
    );
}

#[test]
fn format_star_follows_the_schema() {
    let rows = vec![row(&[("name", "Alice"), ("age", "30"), ("extra", "x")]), row(&[("age", "4")])];
    let schema = vec![s("name"), s("age")];
    assert_eq!(
        format_select_result(&rows, &vec![ColumnExpr::All], Some(&schema)),
        "name | age\n-----------\nAlice | 30\nNULL | 4\n"
    );
}

#[test]
fn format_star_without_schema_uses_sorted_names_of_the_first_row() {
    let rows = vec![row(&[("name", "Alice"), ("age", "30")]), row(&[("age", "4"), ("zip", "1")])];
    assert_eq!(
        format_select_result(&rows, &vec![ColumnExpr::All], None),
        "age | name\n-----------\n30 | Alice\n4 | NULL\n"
    );
}

#[test]
fn format_rule_counts_bytes() {
    let rows = vec![row(&[("né", "1")])];
    assert_eq!(
        format_select_result(&rows, &vec![ColumnExpr::Column(s("né"))], None),
        "né\n----\n1\n"
    );
}

#[test]
fn format_names_aggregates() {
    let rows = vec![row(&[
        ("COUNT(a)", "1"),
        ("SUM(a)", "2"),
        ("AVG(a)", "3"),
        ("MIN(a)", "4"),
        ("MAX(a)", "5"),
        ("COUNT(*)", "6"),
    ])];
    let columns = vec![
        ColumnExpr::Count(s("a")),
        ColumnExpr::Sum(s("a")),
        ColumnExpr::Avg(s("a")),
        ColumnExpr::Min(s("a")),
        ColumnExpr::Max(s("a")),
        ColumnExpr::CountAll,
        ColumnExpr::All,
    ];
    let text = format_select_result(&rows, &columns, None);
    let lines: Vec<&str> = text.lines().collect();
    assert_eq!(lines[0], "COUNT(a) | SUM(a) | AVG(a) | MIN(a) | MAX(a) | COUNT(*) | *");
    assert_eq!(lines[1], "-".repeat(lines[0].len() + 1));
    assert_eq!(lines[2], "1 | 2 | 3 | 4 | 5 | 6 | *");
}
