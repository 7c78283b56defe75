use vstd::prelude::*;
use vstd::string::StrSliceExecFns;
use vstd::string::StringExecFns;
use crate::ast::{
    column_views, AlterAction, AlterActionModel, AlterTableModel, AlterTableStatement,
    ColumnExpr, ColumnModel, CreateTableModel, CreateTableStatement, DeleteModel,
    DeleteStatement, DropTableModel, DropTableStatement, HavingClause, HavingModel, InsertModel,
    InsertStatement, JoinClause, JoinModel, JoinType, OrderByClause, OrderByModel, SQLStatement,
    SelectModel, SelectStatement, StatementModel, UpdateModel, UpdateStatement, WhereClause,
    WhereModel,
};
use crate::text::{pair_views, str_same, text_views, tuple_views};
use crate::tokenizer::{token_views, upper, uppercase, Token, TokenKind, TokenModel};

verus! {

/// Where a step of parsing stands after it, and what it gave: a value, or
/// the message of the error that ended it.
pub struct Step<T> {
    pub result: Result<T, Seq<char>>,
    pub pos: nat,
}

/// A step that gave `value` and stands at `pos`.
pub open spec fn ok<T>(value: T, pos: nat) -> Step<T> {
    Step { result: Ok(value), pos }
}

/// A step that failed with `message` and stands at `pos`.
pub open spec fn fail<T>(message: Seq<char>, pos: nat) -> Step<T> {
    Step { result: Err(message), pos }
}

/// The token at place `p`, if there is one.
pub open spec fn at(ts: Seq<TokenModel>, p: nat) -> Option<TokenModel> {
    if p < ts.len() {
        Some(ts[p as int])
    } else {
        None
    }
}

/// Whether the token at place `p` is of the kind `kind`.
pub open spec fn is_at(ts: Seq<TokenModel>, p: nat, kind: TokenKind) -> bool {
    p < ts.len() && ts[p as int].kind == kind
}

/// The text of `text` as the debugging format of std writes a string:
/// quoted and escaped.
pub uninterp spec fn debug_string(text: Seq<char>) -> Seq<char>;

/// The debugging format of std on a string slice. The result is claimed to
/// depend on the text alone.
#[verifier::external_body]
fn debug_text(text: &str) -> (shown: String)
    ensures
        shown@ == debug_string(text@),
{
    format!("{:?}", text)
}

/// The name of a kind of token.
pub open spec fn kind_name(kind: TokenKind) -> Seq<char> {
    match kind {
        TokenKind::Select => "Select"@,
        TokenKind::Insert => "Insert"@,
        TokenKind::Update => "Update"@,
        TokenKind::Delete => "Delete"@,
        TokenKind::From => "From"@,
        TokenKind::Into => "Into"@,
        TokenKind::Values => "Values"@,
        TokenKind::SetWord => "Set"@,
        TokenKind::Where => "Where"@,
        TokenKind::Identifier => "Identifier"@,
        TokenKind::StringLiteral => "StringLiteral"@,
        TokenKind::NumberLiteral => "NumberLiteral"@,
        TokenKind::Equals => "Equals"@,
        TokenKind::Comma => "Comma"@,
        TokenKind::Asterisk => "Asterisk"@,
        TokenKind::Semicolon => "Semicolon"@,
        TokenKind::LeftParen => "LeftParen"@,
        TokenKind::RightParen => "RightParen"@,
        TokenKind::LessThan => "LessThan"@,
        TokenKind::GreaterThan => "GreaterThan"@,
        TokenKind::Unknown => "Unknown"@,
        TokenKind::Create => "Create"@,
        TokenKind::Table => "Table"@,
        TokenKind::Alter => "Alter"@,
        TokenKind::Add => "Add"@,
        TokenKind::Drop => "Drop"@,
        TokenKind::Modify => "Modify"@,
        TokenKind::Order => "Order"@,
        TokenKind::By => "By"@,
        TokenKind::Desc => "Desc"@,
        TokenKind::Asc => "Asc"@,
        TokenKind::Group => "Group"@,
        TokenKind::Join => "Join"@,
        TokenKind::Left => "Left"@,
        TokenKind::Right => "Right"@,
        TokenKind::Full => "Full"@,
        TokenKind::On => "On"@,
        TokenKind::Dot => "Dot"@,
        TokenKind::Cross => "Cross"@,
    }
}

/// How an error message shows a token: the name of its kind, and in
/// brackets the text that it carries, a number as it was written, any other
/// text quoted.
pub open spec fn token_debug(token: TokenModel) -> Seq<char> {
    match token.kind {
        TokenKind::Identifier => kind_name(token.kind) + "("@ + debug_string(token.text) + ")"@,
        TokenKind::StringLiteral => kind_name(token.kind) + "("@ + debug_string(token.text) + ")"@,
        TokenKind::Unknown => kind_name(token.kind) + "("@ + debug_string(token.text) + ")"@,
        TokenKind::NumberLiteral => kind_name(token.kind) + "("@ + token.text + ")"@,
        kind => kind_name(kind),
    }
}

/// The message that something was expected where a token or the end of the
/// input was found.
pub open spec fn but_found(what: Seq<char>, found: Option<TokenModel>) -> Seq<char> {
    match found {
        Some(token) => what + " but found "@ + token_debug(token),
        None => what + " but reached end of input"@,
    }
}

/// The place behind the token at `p`; `p` itself at the end of the input.
pub open spec fn behind(ts: Seq<TokenModel>, p: nat) -> nat {
    if p < ts.len() {
        p + 1
    } else {
        p
    }
}

/// A token of the kind `kind` is expected.
pub open spec fn expect_step(ts: Seq<TokenModel>, p: nat, kind: TokenKind) -> Step<()> {
    match at(ts, p) {
        Some(token) => if token.kind == kind {
            ok((), p + 1)
        } else {
            fail("Expected "@ + kind_name(kind) + ", but found "@ + token_debug(token), p + 1)
        },
        None => fail("Expected "@ + kind_name(kind) + ", but reached end of input"@, p),
    }
}

/// A token of the kind `kind` that carries a text is expected; `what` says
/// in the error message what was expected.
pub open spec fn text_step(ts: Seq<TokenModel>, p: nat, kind: TokenKind, what: Seq<char>) -> Step<
    Seq<char>,
> {
    match at(ts, p) {
        Some(token) => if token.kind == kind {
            ok(token.text, p + 1)
        } else {
            fail(but_found(what, Some(token)), p + 1)
        },
        None => fail(but_found(what, None), p),
    }
}

/// An identifier is expected.
pub open spec fn identifier_step(ts: Seq<TokenModel>, p: nat, what: Seq<char>) -> Step<Seq<char>> {
    text_step(ts, p, TokenKind::Identifier, what)
}

/// A value is expected: a string literal, or a number literal, which gives
/// its text.
pub open spec fn value_step(ts: Seq<TokenModel>, p: nat, what: Seq<char>) -> Step<Seq<char>> {
    match at(ts, p) {
        Some(token) => if token.kind == TokenKind::StringLiteral || token.kind
            == TokenKind::NumberLiteral {
            ok(token.text, p + 1)
        } else {
            fail(but_found(what, Some(token)), p + 1)
        },
        None => fail(but_found(what, None), p),
    }
}

/// Behind the identifier `first`, which ends before place `q`: a dot and a
/// second identifier may follow, which make a name of two parts.
pub open spec fn dotted_step(ts: Seq<TokenModel>, first: Seq<char>, q: nat) -> Step<Seq<char>> {
    if is_at(ts, q, TokenKind::Dot) {
        match at(ts, q + 1) {
            Some(token) => if token.kind == TokenKind::Identifier {
                ok(first + "."@ + token.text, q + 2)
            } else {
                fail("Expected identifier after '.'"@, q + 2)
            },
            None => fail("Expected identifier after '.'"@, q + 1),
        }
    } else {
        ok(first, q)
    }
}

/// An identifier, which a dot and a second identifier may follow.
pub open spec fn qualified_step(ts: Seq<TokenModel>, p: nat) -> Step<Seq<char>> {
    let first = identifier_step(ts, p, "Expected identifier"@);
    match first.result {
        Err(message) => fail(message, first.pos),
        Ok(name) => dotted_step(ts, name, first.pos),
    }
}

/// The operator of a comparison that a token writes, if it writes one.
pub open spec fn operator_text(kind: TokenKind) -> Option<Seq<char>> {
    match kind {
        TokenKind::Equals => Some("="@),
        TokenKind::LessThan => Some("<"@),
        TokenKind::GreaterThan => Some(">"@),
        _ => None,
    }
}

/// A comparison operator is expected.
pub open spec fn operator_step(ts: Seq<TokenModel>, p: nat, message: Seq<char>) -> Step<Seq<char>> {
    match at(ts, p) {
        Some(token) => match operator_text(token.kind) {
            Some(text) => ok(text, p + 1),
            None => fail(message, p + 1),
        },
        None => fail(message, p),
    }
}

/// A WHERE clause behind its keyword: a column, an operator, a value.
pub open spec fn where_step(ts: Seq<TokenModel>, p: nat) -> Step<WhereModel> {
    let column = identifier_step(ts, p, "Expected column name in WHERE clause"@);
    match column.result {
        Err(message) => fail(message, column.pos),
        Ok(name) => {
            let operator = operator_step(
                ts,
                column.pos,
                "Expected comparison operator in WHERE clause"@,
            );
            match operator.result {
                Err(message) => fail(message, operator.pos),
                Ok(sign) => {
                    let value = value_step(ts, operator.pos, "Expected value in WHERE clause"@);
                    match value.result {
                        Err(message) => fail(message, value.pos),
                        Ok(text) => ok(
                            WhereModel { column: name, operator: sign, value: text },
                            value.pos,
                        ),
                    }
                },
            }
        },
    }
}

/// A WHERE clause, if the keyword stands here.
pub open spec fn optional_where_step(ts: Seq<TokenModel>, p: nat) -> Step<Option<WhereModel>> {
    if is_at(ts, p, TokenKind::Where) {
        let clause = where_step(ts, p + 1);
        match clause.result {
            Err(message) => fail(message, clause.pos),
            Ok(condition) => ok(Some(condition), clause.pos),
        }
    } else {
        ok(None, p)
    }
}

/// An ORDER BY clause, if the keyword stands here: a column, and `DESC` or
/// `ASC` behind it where it is given.
pub open spec fn order_by_step(ts: Seq<TokenModel>, p: nat) -> Step<Option<OrderByModel>> {
    if is_at(ts, p, TokenKind::Order) {
        let by = expect_step(ts, p + 1, TokenKind::By);
        match by.result {
            Err(message) => fail(message, by.pos),
            Ok(_) => {
                let column = identifier_step(ts, by.pos, "Expected column name after ORDER BY"@);
                match column.result {
                    Err(message) => fail(message, column.pos),
                    Ok(name) => if is_at(ts, column.pos, TokenKind::Desc) {
                        ok(Some(OrderByModel { column: name, descending: true }), column.pos + 1)
                    } else if is_at(ts, column.pos, TokenKind::Asc) {
                        ok(Some(OrderByModel { column: name, descending: false }), column.pos + 1)
                    } else {
                        ok(Some(OrderByModel { column: name, descending: false }), column.pos)
                    },
                }
            },
        }
    } else {
        ok(None, p)
    }
}

/// The columns of a GROUP BY clause from place `p` on, behind the columns
/// `found`: identifiers with commas between them.
pub open spec fn group_columns_step(ts: Seq<TokenModel>, p: nat, found: Seq<Seq<char>>) -> Step<
    Seq<Seq<char>>,
>
    decreases ts.len() - p,
{
    let column = identifier_step(ts, p, "Expected column name after GROUP BY"@);
    match column.result {
        Err(message) => fail(message, column.pos),
        Ok(name) => if is_at(ts, column.pos, TokenKind::Comma) {
            group_columns_step(ts, column.pos + 1, found.push(name))
        } else {
            ok(found.push(name), column.pos)
        },
    }
}

/// A GROUP BY clause, if the keyword stands here.
pub open spec fn group_by_step(ts: Seq<TokenModel>, p: nat) -> Step<Option<Seq<Seq<char>>>> {
    if is_at(ts, p, TokenKind::Group) {
        let by = expect_step(ts, p + 1, TokenKind::By);
        match by.result {
            Err(message) => fail(message, by.pos),
            Ok(_) => {
                let columns = group_columns_step(ts, by.pos, Seq::empty());
                match columns.result {
                    Err(message) => fail(message, columns.pos),
                    Ok(names) => ok(Some(names), columns.pos),
                }
            },
        }
    } else {
        ok(None, p)
    }
}

/// The aggregate that the function named `raised`, in upper case, makes of
/// the column `column`, if it is the name of one.
pub open spec fn aggregate(raised: Seq<char>, column: Seq<char>) -> Option<ColumnModel> {
    if raised == "COUNT"@ {
        Some(ColumnModel::Count(column))
    } else if raised == "SUM"@ {
        Some(ColumnModel::Sum(column))
    } else if raised == "AVG"@ {
        Some(ColumnModel::Avg(column))
    } else if raised == "MIN"@ {
        Some(ColumnModel::Min(column))
    } else if raised == "MAX"@ {
        Some(ColumnModel::Max(column))
    } else {
        None
    }
}

/// The letter `c` in lower case where it is a letter of ASCII in upper case.
pub open spec fn ascii_lower(c: char) -> char {
    if 'A' <= c <= 'Z' {
        ((c as u8) + 32) as char
    } else {
        c
    }
}

/// Whether `word` is the word `having`, whatever the case of its letters.
pub open spec fn is_having(word: Seq<char>) -> bool {
    word.len() == 6 && ascii_lower(word[0]) == 'h' && ascii_lower(word[1]) == 'a' && ascii_lower(
        word[2],
    ) == 'v' && ascii_lower(word[3]) == 'i' && ascii_lower(word[4]) == 'n' && ascii_lower(word[5])
        == 'g'
}

/// The aggregate of a HAVING clause: a function name, and in brackets a
/// column, or `*` behind `COUNT`.
pub open spec fn having_aggregate_step(ts: Seq<TokenModel>, p: nat) -> Step<ColumnModel> {
    match at(ts, p) {
        None => fail("Unexpected end of input in HAVING clause"@, p),
        Some(function) => if function.kind != TokenKind::Identifier {
            fail("Unexpected token in HAVING: "@ + token_debug(function), p + 1)
        } else {
            let open = expect_step(ts, p + 1, TokenKind::LeftParen);
            match open.result {
                Err(message) => fail(message, open.pos),
                Ok(_) => match at(ts, open.pos) {
                    None => fail("Expected column or '*' inside function call"@, open.pos),
                    Some(inner) => if inner.kind == TokenKind::Asterisk && uppercase(function.text)
                        == "COUNT"@ {
                        let close = expect_step(ts, open.pos + 1, TokenKind::RightParen);
                        match close.result {
                            Err(message) => fail(message, close.pos),
                            Ok(_) => ok(ColumnModel::CountAll, close.pos),
                        }
                    } else if inner.kind == TokenKind::Identifier {
                        let close = expect_step(ts, open.pos + 1, TokenKind::RightParen);
                        match close.result {
                            Err(message) => fail(message, close.pos),
                            Ok(_) => match aggregate(uppercase(function.text), inner.text) {
                                Some(expr) => ok(expr, close.pos),
                                None => fail(
                                    "Unsupported aggregate in HAVING: "@ + function.text,
                                    close.pos,
                                ),
                            },
                        }
                    } else {
                        fail("Expected column or '*' inside function call"@, open.pos + 1)
                    },
                },
            }
        },
    }
}

/// The value of a HAVING clause: a string literal, or a number literal,
/// which gives its text.
pub open spec fn having_value_step(ts: Seq<TokenModel>, p: nat) -> Step<Seq<char>> {
    match at(ts, p) {
        Some(token) => if token.kind == TokenKind::StringLiteral || token.kind
            == TokenKind::NumberLiteral {
            ok(token.text, p + 1)
        } else {
            fail("Expected value in HAVING but found "@ + token_debug(token), p + 1)
        },
        None => fail("Expected value in HAVING but found end of input"@, p),
    }
}

/// A HAVING clause, if the word `having` stands here: an aggregate, an
/// operator, a value.
pub open spec fn having_step(ts: Seq<TokenModel>, p: nat) -> Step<Option<HavingModel>> {
    if is_at(ts, p, TokenKind::Identifier) && is_having(ts[p as int].text) {
        let expr = having_aggregate_step(ts, p + 1);
        match expr.result {
            Err(message) => fail(message, expr.pos),
            Ok(column_expr) => {
                let operator = operator_step(
                    ts,
                    expr.pos,
                    "Expected comparison operator in HAVING"@,
                );
                match operator.result {
                    Err(message) => fail(message, operator.pos),
                    Ok(sign) => {
                        let value = having_value_step(ts, operator.pos);
                        match value.result {
                            Err(message) => fail(message, value.pos),
                            Ok(text) => ok(
                                Some(HavingModel { column_expr, operator: sign, value: text }),
                                value.pos,
                            ),
                        }
                    },
                }
            },
        }
    } else {
        ok(None, p)
    }
}

/// One item of a projection list that begins with the identifier at place
/// `p`: a column, whose name may have two parts, or an aggregate of a
/// column, or `COUNT(*)`, behind which one comma is passed over.
pub open spec fn column_item_step(ts: Seq<TokenModel>, p: nat) -> Step<ColumnModel>
    recommends
        is_at(ts, p, TokenKind::Identifier),
{
    let name = dotted_step(ts, ts[p as int].text, p + 1);
    match name.result {
        Err(message) => fail(message, name.pos),
        Ok(ident) => if is_at(ts, name.pos, TokenKind::LeftParen) {
            match at(ts, name.pos + 1) {
                None => fail("Expected column name inside function call"@, name.pos + 1),
                Some(inner) => if inner.kind == TokenKind::Identifier {
                    let close = expect_step(ts, name.pos + 2, TokenKind::RightParen);
                    match close.result {
                        Err(message) => fail(message, close.pos),
                        Ok(_) => match aggregate(uppercase(ident), inner.text) {
                            Some(expr) => ok(expr, close.pos),
                            None => fail("Unknown function '"@ + ident + "'"@, close.pos),
                        },
                    }
                } else if inner.kind == TokenKind::Asterisk && uppercase(ident) == "COUNT"@ {
                    let close = expect_step(ts, name.pos + 2, TokenKind::RightParen);
                    match close.result {
                        Err(message) => fail(message, close.pos),
                        Ok(_) => if is_at(ts, close.pos, TokenKind::Comma) {
                            ok(ColumnModel::CountAll, close.pos + 1)
                        } else {
                            ok(ColumnModel::CountAll, close.pos)
                        },
                    }
                } else {
                    fail("Expected column name inside function call"@, name.pos + 2)
                },
            }
        } else {
            ok(ColumnModel::Column(ident), name.pos)
        },
    }
}

/// The steps of parsing never go back, and never go beyond the end of the input.
pub proof fn lemma_column_item_moves(ts: Seq<TokenModel>, p: nat)
    requires
        is_at(ts, p, TokenKind::Identifier),
    ensures
        p < column_item_step(ts, p).pos <= ts.len(),
{
}

/// The projection list from place `p` on, behind the items `found`: it ends
/// before a token of the kind `until` and at the end of the input; commas
/// are passed over.
pub open spec fn column_list_step(
    ts: Seq<TokenModel>,
    p: nat,
    until: TokenKind,
    found: Seq<ColumnModel>,
) -> Step<Seq<ColumnModel>>
    decreases ts.len() - p,
    via column_list_moves
{
    match at(ts, p) {
        None => ok(found, p),
        Some(token) => if token.kind == until {
            ok(found, p)
        } else if token.kind == TokenKind::Asterisk {
            column_list_step(ts, p + 1, until, found.push(ColumnModel::All))
        } else if token.kind == TokenKind::Identifier {
            let item = column_item_step(ts, p);
            match item.result {
                Err(message) => fail(message, item.pos),
                Ok(expr) => column_list_step(ts, item.pos, until, found.push(expr)),
            }
        } else if token.kind == TokenKind::Comma {
            column_list_step(ts, p + 1, until, found)
        } else {
            fail("Unexpected token in column list: "@ + token_debug(token), p)
        },
    }
}

#[via_fn]
proof fn column_list_moves(ts: Seq<TokenModel>, p: nat, until: TokenKind, found: Seq<ColumnModel>) {
    if is_at(ts, p, TokenKind::Identifier) {
        lemma_column_item_moves(ts, p);
    }
}

/// The column names of an INSERT from place `p` on, behind the names
/// `found`: identifiers up to a token of the kind `until`; commas are passed
/// over.
pub open spec fn name_list_step(ts: Seq<TokenModel>, p: nat, until: TokenKind, found: Seq<Seq<char>>) -> Step<
    Seq<Seq<char>>,
>
    decreases ts.len() - p,
{
    match at(ts, p) {
        None => fail("Unexpected end of input in column list"@, p),
        Some(token) => if token.kind == until {
            ok(found, p)
        } else if token.kind == TokenKind::Identifier {
            name_list_step(ts, p + 1, until, found.push(token.text))
        } else if token.kind == TokenKind::Comma {
            name_list_step(ts, p + 1, until, found)
        } else {
            fail("Unexpected token in column list: "@ + token_debug(token), p)
        },
    }
}

/// The values of one tuple from place `p` on, behind the values `found`:
/// string literals up to the closing bracket; commas are passed over.
pub open spec fn tuple_values_step(ts: Seq<TokenModel>, p: nat, found: Seq<Seq<char>>) -> Step<
    Seq<Seq<char>>,
>
    decreases ts.len() - p,
{
    match at(ts, p) {
        None => fail("Unexpected end of input in VALUES tuple"@, p),
        Some(token) => if token.kind == TokenKind::StringLiteral {
            tuple_values_step(ts, p + 1, found.push(token.text))
        } else if token.kind == TokenKind::Comma {
            tuple_values_step(ts, p + 1, found)
        } else if token.kind == TokenKind::RightParen {
            ok(found, p + 1)
        } else {
            fail("Unexpected token in VALUES tuple: "@ + token_debug(token), p)
        },
    }
}

/// One tuple of values in its brackets.
pub open spec fn tuple_step(ts: Seq<TokenModel>, p: nat) -> Step<Seq<Seq<char>>> {
    let open = expect_step(ts, p, TokenKind::LeftParen);
    match open.result {
        Err(message) => fail(message, open.pos),
        Ok(_) => tuple_values_step(ts, open.pos, Seq::empty()),
    }
}

/// A tuple never ends before the place where it began.
pub proof fn lemma_tuple_values_moves(ts: Seq<TokenModel>, p: nat, found: Seq<Seq<char>>)
    ensures
        p <= tuple_values_step(ts, p, found).pos <= if p <= ts.len() {
            ts.len()
        } else {
            p
        },
    decreases ts.len() - p,
{
    if p < ts.len() {
        let token = ts[p as int];
        if token.kind == TokenKind::StringLiteral {
            lemma_tuple_values_moves(ts, p + 1, found.push(token.text));
        } else if token.kind == TokenKind::Comma {
            lemma_tuple_values_moves(ts, p + 1, found);
        }
    }
}

/// The tuples of an INSERT from place `p` on, behind the tuples `found`:
/// tuples with commas between them, as long as a bracket opens one.
pub open spec fn values_list_step(ts: Seq<TokenModel>, p: nat, found: Seq<Seq<Seq<char>>>) -> Step<
    Seq<Seq<Seq<char>>>,
>
    decreases ts.len() - p,
    via values_list_moves
{
    if !is_at(ts, p, TokenKind::LeftParen) {
        ok(found, p)
    } else {
        let tuple = tuple_step(ts, p);
        match tuple.result {
            Err(message) => fail(message, tuple.pos),
            Ok(values) => if is_at(ts, tuple.pos, TokenKind::Comma) {
                values_list_step(ts, tuple.pos + 1, found.push(values))
            } else {
                ok(found.push(values), tuple.pos)
            },
        }
    }
}

#[via_fn]
proof fn values_list_moves(ts: Seq<TokenModel>, p: nat, found: Seq<Seq<Seq<char>>>) {
    if is_at(ts, p, TokenKind::LeftParen) {
        lemma_tuple_values_moves(ts, p + 1, Seq::empty());
    }
}

/// The assignments of an UPDATE from place `p` on, behind the assignments
/// `found`: a column, `=` and a string literal each, with commas between.
pub open spec fn assignments_step(
    ts: Seq<TokenModel>,
    p: nat,
    found: Seq<(Seq<char>, Seq<char>)>,
) -> Step<Seq<(Seq<char>, Seq<char>)>>
    decreases ts.len() - p,
{
    let column = identifier_step(ts, p, "Expected column name in SET clause"@);
    match column.result {
        Err(message) => fail(message, column.pos),
        Ok(name) => {
            let equals = expect_step(ts, column.pos, TokenKind::Equals);
            match equals.result {
                Err(message) => fail(message, equals.pos),
                Ok(_) => {
                    let value = text_step(
                        ts,
                        equals.pos,
                        TokenKind::StringLiteral,
                        "Expected value in SET clause"@,
                    );
                    match value.result {
                        Err(message) => fail(message, value.pos),
                        Ok(text) => if is_at(ts, value.pos, TokenKind::Comma) {
                            assignments_step(ts, value.pos + 1, found.push((name, text)))
                        } else {
                            ok(found.push((name, text)), value.pos)
                        },
                    }
                },
            }
        },
    }
}

/// The column definitions of a CREATE TABLE from place `p` on, behind the
/// definitions `found`: a name and a type each, with commas between, up to
/// the closing bracket.
pub open spec fn definitions_step(
    ts: Seq<TokenModel>,
    p: nat,
    found: Seq<(Seq<char>, Seq<char>)>,
) -> Step<Seq<(Seq<char>, Seq<char>)>>
    decreases ts.len() - p,
{
    let name = identifier_step(ts, p, "Expected column name"@);
    match name.result {
        Err(message) => fail(message, name.pos),
        Ok(column) => {
            let kind = identifier_step(ts, name.pos, "Expected data type"@);
            match kind.result {
                Err(message) => fail(message, kind.pos),
                Ok(datatype) => if is_at(ts, kind.pos, TokenKind::Comma) {
                    definitions_step(ts, kind.pos + 1, found.push((column, datatype)))
                } else if is_at(ts, kind.pos, TokenKind::RightParen) {
                    ok(found.push((column, datatype)), kind.pos + 1)
                } else {
                    fail("Expected ',' or ')' after column definition"@, kind.pos)
                },
            }
        },
    }
}

/// The join of a SELECT behind its keywords: the joined table, `ON`, and the
/// two column references with `=` between them.
pub open spec fn join_on_step(ts: Seq<TokenModel>, p: nat, join_type: JoinType) -> Step<Option<JoinModel>> {
    let table = identifier_step(ts, p, "Expected table name after JOIN"@);
    match table.result {
        Err(message) => fail(message, table.pos),
        Ok(name) => {
            let on = expect_step(ts, table.pos, TokenKind::On);
            match on.result {
                Err(message) => fail(message, on.pos),
                Ok(_) => {
                    let left = qualified_step(ts, on.pos);
                    match left.result {
                        Err(message) => fail(message, left.pos),
                        Ok(on_left) => {
                            let equals = expect_step(ts, left.pos, TokenKind::Equals);
                            match equals.result {
                                Err(message) => fail(message, equals.pos),
                                Ok(_) => {
                                    let right = qualified_step(ts, equals.pos);
                                    match right.result {
                                        Err(message) => fail(message, right.pos),
                                        Ok(on_right) => ok(
                                            Some(JoinModel { join_type, table: name, on_left, on_right }),
                                            right.pos,
                                        ),
                                    }
                                },
                            }
                        },
                    }
                },
            }
        },
    }
}

/// The kind of join that a keyword before `JOIN` asks for, if it is one.
pub open spec fn join_word(kind: TokenKind) -> Option<JoinType> {
    match kind {
        TokenKind::Left => Some(JoinType::Left),
        TokenKind::Right => Some(JoinType::Right),
        TokenKind::Full => Some(JoinType::Full),
        TokenKind::Cross => Some(JoinType::Cross),
        _ => None,
    }
}

/// The join of a SELECT, if one stands here: `JOIN` alone joins inner;
/// `LEFT`, `RIGHT` and `FULL` before it say otherwise; `CROSS JOIN` takes a
/// table and no condition.
pub open spec fn join_step(ts: Seq<TokenModel>, p: nat) -> Step<Option<JoinModel>> {
    match at(ts, p) {
        None => ok(None, p),
        Some(token) => if token.kind == TokenKind::Join {
            join_on_step(ts, p + 1, JoinType::Inner)
        } else {
            match join_word(token.kind) {
                None => ok(None, p),
                Some(join_type) => {
                    let join = expect_step(ts, p + 1, TokenKind::Join);
                    match join.result {
                        Err(message) => fail(message, join.pos),
                        Ok(_) => if join_type is Cross {
                            let table = identifier_step(
                                ts,
                                join.pos,
                                "Expected table name after CROSS JOIN"@,
                            );
                            match table.result {
                                Err(message) => fail(message, table.pos),
                                Ok(name) => ok(
                                    Some(
                                        JoinModel {
                                            join_type,
                                            table: name,
                                            on_left: Seq::empty(),
                                            on_right: Seq::empty(),
                                        },
                                    ),
                                    table.pos,
                                ),
                            }
                        } else {
                            join_on_step(ts, join.pos, join_type)
                        },
                    }
                },
            }
        },
    }
}

/// The clauses of a SELECT behind its table and join: WHERE, GROUP BY,
/// ORDER BY and HAVING, each where it is given, in this order.
pub open spec fn select_tail_step(
    ts: Seq<TokenModel>,
    p: nat,
    columns: Seq<ColumnModel>,
    table: Seq<char>,
    join: Option<JoinModel>,
) -> Step<SelectModel> {
    let filter = optional_where_step(ts, p);
    match filter.result {
        Err(message) => fail(message, filter.pos),
        Ok(where_clause) => {
            let group = group_by_step(ts, filter.pos);
            match group.result {
                Err(message) => fail(message, group.pos),
                Ok(group_by) => {
                    let order = order_by_step(ts, group.pos);
                    match order.result {
                        Err(message) => fail(message, order.pos),
                        Ok(order_by) => {
                            let last = having_step(ts, order.pos);
                            match last.result {
                                Err(message) => fail(message, last.pos),
                                Ok(having) => ok(
                                    SelectModel {
                                        columns,
                                        table,
                                        where_clause,
                                        order_by,
                                        group_by,
                                        having,
                                        join,
                                    },
                                    last.pos,
                                ),
                            }
                        },
                    }
                },
            }
        },
    }
}

/// A SELECT behind its keyword: the projection list, `FROM`, the table, a
/// join where one is given, and the clauses.
pub open spec fn select_step(ts: Seq<TokenModel>, p: nat) -> Step<SelectModel> {
    let columns = column_list_step(ts, p, TokenKind::From, Seq::empty());
    match columns.result {
        Err(message) => fail(message, columns.pos),
        Ok(list) => {
            let from = expect_step(ts, columns.pos, TokenKind::From);
            match from.result {
                Err(message) => fail(message, from.pos),
                Ok(_) => {
                    let table = identifier_step(ts, from.pos, "Expected table name after FROM"@);
                    match table.result {
                        Err(message) => fail(message, table.pos),
                        Ok(name) => {
                            let join = join_step(ts, table.pos);
                            match join.result {
                                Err(message) => fail(message, join.pos),
                                Ok(joined) => select_tail_step(ts, join.pos, list, name, joined),
                            }
                        },
                    }
                },
            }
        },
    }
}

/// The column names of an INSERT, in brackets where they are given; none
/// where the statement goes on with `VALUES` at once.
pub open spec fn insert_columns_step(ts: Seq<TokenModel>, p: nat) -> Step<Seq<Seq<char>>> {
    if is_at(ts, p, TokenKind::Values) {
        ok(Seq::empty(), p)
    } else {
        let open = expect_step(ts, p, TokenKind::LeftParen);
        match open.result {
            Err(message) => fail(message, open.pos),
            Ok(_) => {
                let names = name_list_step(ts, open.pos, TokenKind::RightParen, Seq::empty());
                match names.result {
                    Err(message) => fail(message, names.pos),
                    Ok(columns) => {
                        let close = expect_step(ts, names.pos, TokenKind::RightParen);
                        match close.result {
                            Err(message) => fail(message, close.pos),
                            Ok(_) => ok(columns, close.pos),
                        }
                    },
                }
            },
        }
    }
}

/// An INSERT behind its keyword: `INTO`, the table, the column names,
/// `VALUES` and the tuples.
pub open spec fn insert_step(ts: Seq<TokenModel>, p: nat) -> Step<InsertModel> {
    let into = expect_step(ts, p, TokenKind::Into);
    match into.result {
        Err(message) => fail(message, into.pos),
        Ok(_) => {
            let table = identifier_step(ts, into.pos, "Expected table name after INSERT INTO"@);
            match table.result {
                Err(message) => fail(message, table.pos),
                Ok(name) => {
                    let names = insert_columns_step(ts, table.pos);
                    match names.result {
                        Err(message) => fail(message, names.pos),
                        Ok(columns) => {
                            let word = expect_step(ts, names.pos, TokenKind::Values);
                            match word.result {
                                Err(message) => fail(message, word.pos),
                                Ok(_) => {
                                    let tuples = values_list_step(ts, word.pos, Seq::empty());
                                    match tuples.result {
                                        Err(message) => fail(message, tuples.pos),
                                        Ok(values) => ok(
                                            InsertModel { table: name, columns, values },
                                            tuples.pos,
                                        ),
                                    }
                                },
                            }
                        },
                    }
                },
            }
        },
    }
}

/// An UPDATE behind its keyword: the table, `SET`, the assignments, and a
/// WHERE clause where one is given.
pub open spec fn update_step(ts: Seq<TokenModel>, p: nat) -> Step<UpdateModel> {
    let table = identifier_step(ts, p, "Expected table name after UPDATE"@);
    match table.result {
        Err(message) => fail(message, table.pos),
        Ok(name) => {
            let word = expect_step(ts, table.pos, TokenKind::SetWord);
            match word.result {
                Err(message) => fail(message, word.pos),
                Ok(_) => {
                    let list = assignments_step(ts, word.pos, Seq::empty());
                    match list.result {
                        Err(message) => fail(message, list.pos),
                        Ok(assignments) => {
                            let filter = optional_where_step(ts, list.pos);
                            match filter.result {
                                Err(message) => fail(message, filter.pos),
                                Ok(where_clause) => ok(
                                    UpdateModel { table: name, assignments, where_clause },
                                    filter.pos,
                                ),
                            }
                        },
                    }
                },
            }
        },
    }
}

/// A DELETE behind its keyword: `FROM`, the table, and a WHERE clause where
/// one is given.
pub open spec fn delete_step(ts: Seq<TokenModel>, p: nat) -> Step<DeleteModel> {
    let from = expect_step(ts, p, TokenKind::From);
    match from.result {
        Err(message) => fail(message, from.pos),
        Ok(_) => {
            let table = identifier_step(ts, from.pos, "Expected table name after DELETE FROM"@);
            match table.result {
                Err(message) => fail(message, table.pos),
                Ok(name) => {
                    let filter = optional_where_step(ts, table.pos);
                    match filter.result {
                        Err(message) => fail(message, filter.pos),
                        Ok(where_clause) => ok(DeleteModel { table: name, where_clause }, filter.pos),
                    }
                },
            }
        },
    }
}

/// A CREATE TABLE behind `CREATE`: `TABLE`, the table, and the column
/// definitions in brackets.
pub open spec fn create_table_step(ts: Seq<TokenModel>, p: nat) -> Step<CreateTableModel> {
    let word = expect_step(ts, p, TokenKind::Table);
    match word.result {
        Err(message) => fail(message, word.pos),
        Ok(_) => {
            let table = identifier_step(ts, word.pos, "Expected table name after CREATE TABLE"@);
            match table.result {
                Err(message) => fail(message, table.pos),
                Ok(name) => {
                    let open = expect_step(ts, table.pos, TokenKind::LeftParen);
                    match open.result {
                        Err(message) => fail(message, open.pos),
                        Ok(_) => {
                            let list = definitions_step(ts, open.pos, Seq::empty());
                            match list.result {
                                Err(message) => fail(message, list.pos),
                                Ok(columns) => ok(CreateTableModel { table: name, columns }, list.pos),
                            }
                        },
                    }
                },
            }
        },
    }
}

/// The action of an ALTER TABLE: `ADD` with a column, behind which a type
/// is passed over, `DROP` with a column, or `MODIFY` with a column and its
/// new type.
pub open spec fn alter_action_step(ts: Seq<TokenModel>, p: nat) -> Step<AlterActionModel> {
    match at(ts, p) {
        None => fail("Unexpected end of input in ALTER TABLE"@, p),
        Some(token) => if token.kind == TokenKind::Add {
            let column = identifier_step(ts, p + 1, "Expected column name after ADD"@);
            match column.result {
                Err(message) => fail(message, column.pos),
                Ok(name) => if is_at(ts, column.pos, TokenKind::Identifier) {
                    ok(AlterActionModel::AddColumn(name), column.pos + 1)
                } else {
                    ok(AlterActionModel::AddColumn(name), column.pos)
                },
            }
        } else if token.kind == TokenKind::Drop {
            let column = identifier_step(ts, p + 1, "Expected column name after DROP"@);
            match column.result {
                Err(message) => fail(message, column.pos),
                Ok(name) => ok(AlterActionModel::DropColumn(name), column.pos),
            }
        } else if token.kind == TokenKind::Modify {
            let column = identifier_step(ts, p + 1, "Expected column name after MODIFY"@);
            match column.result {
                Err(message) => fail(message, column.pos),
                Ok(name) => {
                    let kind = identifier_step(
                        ts,
                        column.pos,
                        "Expected new data type after column"@,
                    );
                    match kind.result {
                        Err(message) => fail(message, kind.pos),
                        Ok(new_type) => ok(AlterActionModel::ModifyColumn(name, new_type), kind.pos),
                    }
                },
            }
        } else {
            fail("Unexpected token in ALTER TABLE: "@ + token_debug(token), p + 1)
        },
    }
}

/// An ALTER TABLE behind `ALTER`: `TABLE`, the table, and the action.
pub open spec fn alter_table_step(ts: Seq<TokenModel>, p: nat) -> Step<AlterTableModel> {
    let word = expect_step(ts, p, TokenKind::Table);
    match word.result {
        Err(message) => fail(message, word.pos),
        Ok(_) => {
            let table = identifier_step(ts, word.pos, "Expected table name after ALTER TABLE"@);
            match table.result {
                Err(message) => fail(message, table.pos),
                Ok(name) => {
                    let change = alter_action_step(ts, table.pos);
                    match change.result {
                        Err(message) => fail(message, change.pos),
                        Ok(action) => ok(AlterTableModel { table: name, action }, change.pos),
                    }
                },
            }
        },
    }
}

/// A DROP TABLE behind `DROP`: `TABLE` and the table.
pub open spec fn drop_table_step(ts: Seq<TokenModel>, p: nat) -> Step<DropTableModel> {
    let word = expect_step(ts, p, TokenKind::Table);
    match word.result {
        Err(message) => fail(message, word.pos),
        Ok(_) => {
            let table = identifier_step(ts, word.pos, "Expected table name after DROP TABLE"@);
            match table.result {
                Err(message) => fail(message, table.pos),
                Ok(name) => ok(DropTableModel { table: name }, table.pos),
            }
        },
    }
}

/// A step with its value turned by `turn`.
pub open spec fn turned<A, B>(step: Step<A>, turn: spec_fn(A) -> B) -> Step<B> {
    match step.result {
        Ok(value) => ok(turn(value), step.pos),
        Err(message) => fail(message, step.pos),
    }
}

/// One statement from place `p` on: its first keyword says which.
pub open spec fn statement_step(ts: Seq<TokenModel>, p: nat) -> Step<StatementModel> {
    match at(ts, p) {
        None => fail("Unexpected token at start of statement"@, p),
        Some(token) => match token.kind {
            TokenKind::Select => turned(
                select_step(ts, p + 1),
                |s: SelectModel| StatementModel::Select(s),
            ),
            TokenKind::Insert => turned(
                insert_step(ts, p + 1),
                |s: InsertModel| StatementModel::Insert(s),
            ),
            TokenKind::Update => turned(
                update_step(ts, p + 1),
                |s: UpdateModel| StatementModel::Update(s),
            ),
            TokenKind::Delete => turned(
                delete_step(ts, p + 1),
                |s: DeleteModel| StatementModel::Delete(s),
            ),
            TokenKind::Create => turned(
                create_table_step(ts, p + 1),
                |s: CreateTableModel| StatementModel::CreateTable(s),
            ),
            TokenKind::Alter => turned(
                alter_table_step(ts, p + 1),
                |s: AlterTableModel| StatementModel::AlterTable(s),
            ),
            TokenKind::Drop => turned(
                drop_table_step(ts, p + 1),
                |s: DropTableModel| StatementModel::DropTable(s),
            ),
            _ => fail("Unexpected token at start of statement"@, p),
        },
    }
}

/// The name of a kind of token.
fn kind_name_text(kind: TokenKind) -> (name: &'static str)
    ensures
        name@ == kind_name(kind),
{
    match kind {
        TokenKind::Select => "Select",
        TokenKind::Insert => "Insert",
        TokenKind::Update => "Update",
        TokenKind::Delete => "Delete",
        TokenKind::From => "From",
        TokenKind::Into => "Into",
        TokenKind::Values => "Values",
        TokenKind::SetWord => "Set",
        TokenKind::Where => "Where",
        TokenKind::Identifier => "Identifier",
        TokenKind::StringLiteral => "StringLiteral",
        TokenKind::NumberLiteral => "NumberLiteral",
        TokenKind::Equals => "Equals",
        TokenKind::Comma => "Comma",
        TokenKind::Asterisk => "Asterisk",
        TokenKind::Semicolon => "Semicolon",
        TokenKind::LeftParen => "LeftParen",
        TokenKind::RightParen => "RightParen",
        TokenKind::LessThan => "LessThan",
        TokenKind::GreaterThan => "GreaterThan",
        TokenKind::Unknown => "Unknown",
        TokenKind::Create => "Create",
        TokenKind::Table => "Table",
        TokenKind::Alter => "Alter",
        TokenKind::Add => "Add",
        TokenKind::Drop => "Drop",
        TokenKind::Modify => "Modify",
        TokenKind::Order => "Order",
        TokenKind::By => "By",
        TokenKind::Desc => "Desc",
        TokenKind::Asc => "Asc",
        TokenKind::Group => "Group",
        TokenKind::Join => "Join",
        TokenKind::Left => "Left",
        TokenKind::Right => "Right",
        TokenKind::Full => "Full",
        TokenKind::On => "On",
        TokenKind::Dot => "Dot",
        TokenKind::Cross => "Cross",
    }
}

/// How an error message shows `token`.
pub fn describe(token: &Token) -> (shown: String)
    ensures
        shown@ == token_debug(token@),
{
    let kind = token.kind();
    let mut shown = kind_name_text(kind).to_owned();
    match kind {
        TokenKind::Identifier | TokenKind::StringLiteral | TokenKind::Unknown => {
            shown.append("(");
            shown.append(debug_text(token.text().as_str()).as_str());
            shown.append(")");
        },
        TokenKind::NumberLiteral => {
            shown.append("(");
            shown.append(token.text().as_str());
            shown.append(")");
        },
        _ => {},
    }
    shown
}

/// `before`, then `after`.
fn joined_text(before: &str, after: &str) -> (text: String)
    ensures
        text@ == before@ + after@,
{
    let mut text = before.to_owned();
    text.append(after);
    text
}

/// Whether `word` is the word `having`, whatever the case of its letters.
fn word_is_having(word: &str) -> (having: bool)
    ensures
        having == is_having(word@),
{
    if word.unicode_len() != 6 {
        return false;
    }
    lower(word.get_char(0)) == 'h' && lower(word.get_char(1)) == 'a' && lower(word.get_char(2)) == 'v'
        && lower(word.get_char(3)) == 'i' && lower(word.get_char(4)) == 'n' && lower(word.get_char(5))
        == 'g'
}

fn lower(c: char) -> (lowered: char)
    ensures
        lowered == ascii_lower(c),
{
    if 'A' <= c && c <= 'Z' {
        ((c as u8) + 32) as char
    } else {
        c
    }
}

/// The aggregate that the function named `raised`, in upper case, makes of
/// `column`, if `raised` is the name of one.
pub fn aggregate_of(raised: &str, column: String) -> (expr: Option<ColumnExpr>)
    ensures
        match expr {
            Some(made) => aggregate(raised@, column@) == Some(made@),
            None => aggregate(raised@, column@) is None,
        },
{
    if str_same(raised, "COUNT") {
        Some(ColumnExpr::Count(column))
    } else if str_same(raised, "SUM") {
        Some(ColumnExpr::Sum(column))
    } else if str_same(raised, "AVG") {
        Some(ColumnExpr::Avg(column))
    } else if str_same(raised, "MIN") {
        Some(ColumnExpr::Min(column))
    } else if str_same(raised, "MAX") {
        Some(ColumnExpr::Max(column))
    } else {
        None
    }
}

/// A parser over the tokens of one statement, with the place at which it stands.
pub struct Parser {
    tokens: Vec<Token>,
    current: usize,
}

impl Parser {
    /// The tokens.
    pub closed spec fn tokens_view(&self) -> Seq<TokenModel> {
        token_views(self.tokens@)
    }

    /// The place at which the parser stands.
    pub closed spec fn position(&self) -> nat {
        self.current as nat
    }

    /// A parser at the first of `tokens`.
    pub fn new(tokens: Vec<Token>) -> (parser: Self)
        ensures
            parser.tokens_view() == token_views(tokens@),
            parser.position() == 0,
    {
        Parser { tokens, current: 0 }
    }

    /// The kind of the token at which the parser stands, if there is one.
    fn peek(&self) -> (kind: Option<TokenKind>)
        ensures
            match kind {
                Some(found) => self.position() < self.tokens_view().len() && self.tokens_view()[self.position() as int].kind
                    == found,
                None => self.position() >= self.tokens_view().len(),
            },
    {
        if self.current < self.tokens.len() {
            Some(self.tokens[self.current].kind())
        } else {
            None
        }
    }

    /// Whether the parser stands at a token of the kind `kind`.
    fn stands_at(&self, kind: TokenKind) -> (stands: bool)
        ensures
            stands == is_at(self.tokens_view(), self.position(), kind),
    {
        self.current < self.tokens.len() && self.tokens[self.current].kind() == kind
    }

    /// The text of the token at which the parser stands.
    fn text_here(&self) -> (text: String)
        requires
            self.position() < self.tokens_view().len(),
        ensures
            text@ == self.tokens_view()[self.position() as int].text,
    {
        self.tokens[self.current].text()
    }

    /// How an error message shows the token at which the parser stands.
    fn describe_here(&self) -> (shown: String)
        requires
            self.position() < self.tokens_view().len(),
        ensures
            shown@ == token_debug(self.tokens_view()[self.position() as int]),
    {
        describe(&self.tokens[self.current])
    }

    /// Moves behind the token at which the parser stands; stays at the end.
    fn advance(&mut self)
        ensures
            final(self).tokens_view() == old(self).tokens_view(),
            final(self).position() == behind(old(self).tokens_view(), old(self).position()),
    {
        if self.current < self.tokens.len() {
            self.current = self.current + 1;
        }
    }

    /// The message that `what` was expected where the parser stands.
    fn found_instead(&self, what: &str) -> (message: String)
        ensures
            message@ == but_found(what@, at(self.tokens_view(), self.position())),
    {
        if self.current < self.tokens.len() {
            let mut message = joined_text(what, " but found ");
            message.append(self.describe_here().as_str());
            message
        } else {
            joined_text(what, " but reached end of input")
        }
    }

    fn expect(&mut self, kind: TokenKind) -> (outcome: Result<(), String>)
        ensures
            final(self).tokens_view() == old(self).tokens_view(),
            match outcome {
                Ok(_) => expect_step(old(self).tokens_view(), old(self).position(), kind) == ok::<()>(
                    (),
                    final(self).position(),
                ),
                Err(message) => expect_step(old(self).tokens_view(), old(self).position(), kind)
                    == fail::<()>(message@, final(self).position()),
            },
    {
        let mut message = joined_text("Expected ", kind_name_text(kind));
        match self.peek() {
            Some(found) => {
                if found == kind {
                    self.advance();
                    Ok(())
                } else {
                    message.append(", but found ");
                    message.append(self.describe_here().as_str());
                    self.advance();
                    Err(message)
                }
            },
            None => {
                message.append(", but reached end of input");
                Err(message)
            },
        }
    }

    fn expect_text(&mut self, kind: TokenKind, what: &str) -> (outcome: Result<String, String>)
        ensures
            final(self).tokens_view() == old(self).tokens_view(),
            match outcome {
                Ok(text) => text_step(old(self).tokens_view(), old(self).position(), kind, what@)
                    == ok::<Seq<char>>(text@, final(self).position()),
                Err(message) => text_step(old(self).tokens_view(), old(self).position(), kind, what@)
                    == fail::<Seq<char>>(message@, final(self).position()),
            },
    {
        match self.peek() {
            Some(found) => {
                if found == kind {
                    let text = self.text_here();
                    self.advance();
                    Ok(text)
                } else {
                    let message = self.found_instead(what);
                    self.advance();
                    Err(message)
                }
            },
            None => Err(self.found_instead(what)),
        }
    }

    fn expect_identifier(&mut self, what: &str) -> (outcome: Result<String, String>)
        ensures
            final(self).tokens_view() == old(self).tokens_view(),
            match outcome {
                Ok(text) => identifier_step(old(self).tokens_view(), old(self).position(), what@)
                    == ok::<Seq<char>>(text@, final(self).position()),
                Err(message) => identifier_step(old(self).tokens_view(), old(self).position(), what@)
                    == fail::<Seq<char>>(message@, final(self).position()),
            },
    {
        self.expect_text(TokenKind::Identifier, what)
    }

    fn expect_string_literal(&mut self, what: &str) -> (outcome: Result<String, String>)
        ensures
            final(self).tokens_view() == old(self).tokens_view(),
            match outcome {
                Ok(text) => text_step(
                    old(self).tokens_view(),
                    old(self).position(),
                    TokenKind::StringLiteral,
                    what@,
                ) == ok::<Seq<char>>(text@, final(self).position()),
                Err(message) => text_step(
                    old(self).tokens_view(),
                    old(self).position(),
                    TokenKind::StringLiteral,
                    what@,
                ) == fail::<Seq<char>>(message@, final(self).position()),
            },
    {
        self.expect_text(TokenKind::StringLiteral, what)
    }

    fn expect_value(&mut self, what: &str) -> (outcome: Result<String, String>)
        ensures
            final(self).tokens_view() == old(self).tokens_view(),
            match outcome {
                Ok(text) => value_step(old(self).tokens_view(), old(self).position(), what@) == ok::<
                    Seq<char>,
                >(text@, final(self).position()),
                Err(message) => value_step(old(self).tokens_view(), old(self).position(), what@)
                    == fail::<Seq<char>>(message@, final(self).position()),
            },
    {
        match self.peek() {
            Some(found) => {
                if found == TokenKind::StringLiteral || found == TokenKind::NumberLiteral {
                    let text = self.text_here();
                    self.advance();
                    Ok(text)
                } else {
                    let message = self.found_instead(what);
                    self.advance();
                    Err(message)
                }
            },
            None => Err(self.found_instead(what)),
        }
    }

    fn parse_dotted(&mut self, first: String) -> (outcome: Result<String, String>)
        ensures
            final(self).tokens_view() == old(self).tokens_view(),
            match outcome {
                Ok(text) => dotted_step(old(self).tokens_view(), first@, old(self).position()) == ok::<
                    Seq<char>,
                >(text@, final(self).position()),
                Err(message) => dotted_step(old(self).tokens_view(), first@, old(self).position())
                    == fail::<Seq<char>>(message@, final(self).position()),
            },
    {
        if self.stands_at(TokenKind::Dot) {
            self.advance();
            match self.peek() {
                Some(found) => {
                    if found == TokenKind::Identifier {
                        let mut name = first;
                        name.append(".");
                        name.append(self.text_here().as_str());
                        self.advance();
                        Ok(name)
                    } else {
                        self.advance();
                        Err("Expected identifier after '.'".to_owned())
                    }
                },
                None => Err("Expected identifier after '.'".to_owned()),
            }
        } else {
            Ok(first)
        }
    }

    fn parse_qualified_identifier(&mut self) -> (outcome: Result<String, String>)
        ensures
            final(self).tokens_view() == old(self).tokens_view(),
            match outcome {
                Ok(text) => qualified_step(old(self).tokens_view(), old(self).position()) == ok::<
                    Seq<char>,
                >(text@, final(self).position()),
                Err(message) => qualified_step(old(self).tokens_view(), old(self).position())
                    == fail::<Seq<char>>(message@, final(self).position()),
            },
    {
        match self.expect_identifier("Expected identifier") {
            Err(message) => Err(message),
            Ok(first) => self.parse_dotted(first),
        }
    }

    fn parse_operator(&mut self, message: &str) -> (outcome: Result<String, String>)
        ensures
            final(self).tokens_view() == old(self).tokens_view(),
            match outcome {
                Ok(text) => operator_step(old(self).tokens_view(), old(self).position(), message@)
                    == ok::<Seq<char>>(text@, final(self).position()),
                Err(error) => operator_step(old(self).tokens_view(), old(self).position(), message@)
                    == fail::<Seq<char>>(error@, final(self).position()),
            },
    {
        let found = self.peek();
        self.advance();
        match found {
            Some(TokenKind::Equals) => Ok("=".to_owned()),
            Some(TokenKind::LessThan) => Ok("<".to_owned()),
            Some(TokenKind::GreaterThan) => Ok(">".to_owned()),
            _ => Err(message.to_owned()),
        }
    }

    fn parse_where_clause(&mut self) -> (outcome: Result<WhereClause, String>)
        ensures
            final(self).tokens_view() == old(self).tokens_view(),
            match outcome {
                Ok(clause) => where_step(old(self).tokens_view(), old(self).position()) == ok::<
                    WhereModel,
                >(clause@, final(self).position()),
                Err(message) => where_step(old(self).tokens_view(), old(self).position()) == fail::<
                    WhereModel,
                >(message@, final(self).position()),
            },
    {
        let column = match self.expect_identifier("Expected column name in WHERE clause") {
            Ok(name) => name,
            Err(message) => {
                return Err(message);
            },
        };
        let operator = match self.parse_operator("Expected comparison operator in WHERE clause") {
            Ok(sign) => sign,
            Err(message) => {
                return Err(message);
            },
        };
        let value = match self.expect_value("Expected value in WHERE clause") {
            Ok(text) => text,
            Err(message) => {
                return Err(message);
            },
        };
        Ok(WhereClause { column, operator, value })
    }

    fn parse_optional_where_clause(&mut self) -> (outcome: Result<Option<WhereClause>, String>)
        ensures
            final(self).tokens_view() == old(self).tokens_view(),
            match outcome {
                Ok(clause) => optional_where_step(old(self).tokens_view(), old(self).position())
                    == ok::<Option<WhereModel>>(crate::ast::where_view(clause), final(self).position()),
                Err(message) => optional_where_step(old(self).tokens_view(), old(self).position())
                    == fail::<Option<WhereModel>>(message@, final(self).position()),
            },
    {
        if self.stands_at(TokenKind::Where) {
            self.advance();
            match self.parse_where_clause() {
                Ok(clause) => Ok(Some(clause)),
                Err(message) => Err(message),
            }
        } else {
            Ok(None)
        }
    }

    fn parse_optional_order_by(&mut self) -> (outcome: Result<Option<OrderByClause>, String>)
        ensures
            final(self).tokens_view() == old(self).tokens_view(),
            match outcome {
                Ok(clause) => order_by_step(old(self).tokens_view(), old(self).position()) == ok::<
                    Option<OrderByModel>,
                >(
                    match clause {
                        Some(order) => Some(order@),
                        None => None,
                    },
                    final(self).position(),
                ),
                Err(message) => order_by_step(old(self).tokens_view(), old(self).position()) == fail::<
                    Option<OrderByModel>,
                >(message@, final(self).position()),
            },
    {
        if self.stands_at(TokenKind::Order) {
            self.advance();
            match self.expect(TokenKind::By) {
                Ok(_) => {},
                Err(message) => {
                    return Err(message);
                },
            }
            let column = match self.expect_identifier("Expected column name after ORDER BY") {
                Ok(name) => name,
                Err(message) => {
                    return Err(message);
                },
            };
            let descending = if self.stands_at(TokenKind::Desc) {
                self.advance();
                true
            } else if self.stands_at(TokenKind::Asc) {
                self.advance();
                false
            } else {
                false
            };
            Ok(Some(OrderByClause { column, descending }))
        } else {
            Ok(None)
        }
    }

    fn parse_optional_group_by(&mut self) -> (outcome: Result<Option<Vec<String>>, String>)
        ensures
            final(self).tokens_view() == old(self).tokens_view(),
            match outcome {
                Ok(clause) => group_by_step(old(self).tokens_view(), old(self).position()) == ok::<
                    Option<Seq<Seq<char>>>,
                >(
                    match clause {
                        Some(names) => Some(text_views(names@)),
                        None => None,
                    },
                    final(self).position(),
                ),
                Err(message) => group_by_step(old(self).tokens_view(), old(self).position()) == fail::<
                    Option<Seq<Seq<char>>>,
                >(message@, final(self).position()),
            },
    {
        if !self.stands_at(TokenKind::Group) {
            return Ok(None);
        }
        self.advance();
        match self.expect(TokenKind::By) {
            Ok(_) => {},
            Err(message) => {
                return Err(message);
            },
        }
        let ghost ts = self.tokens_view();
        let ghost start = self.position();
        let mut cols: Vec<String> = Vec::new();
        assert(text_views(cols@) =~= Seq::<Seq<char>>::empty());
        loop
            invariant
                self.tokens_view() == ts,
                ts == old(self).tokens_view(),
                self.current <= self.tokens.len(),
                group_by_step(ts, old(self).position()) == turned(
                    group_columns_step(ts, self.position(), text_views(cols@)),
                    |names: Seq<Seq<char>>| Some(names),
                ),
            decreases self.tokens.len() - self.current,
        {
            let ghost before = text_views(cols@);
            match self.expect_identifier("Expected column name after GROUP BY") {
                Err(message) => {
                    return Err(message);
                },
                Ok(name) => {
                    cols.push(name);
                    assert(text_views(cols@) =~= before.push(name@));
                    if self.stands_at(TokenKind::Comma) {
                        self.advance();
                    } else {
                        return Ok(Some(cols));
                    }
                },
            }
        }
    }

    fn parse_having_aggregate(&mut self) -> (outcome: Result<ColumnExpr, String>)
        ensures
            final(self).tokens_view() == old(self).tokens_view(),
            match outcome {
                Ok(expr) => having_aggregate_step(old(self).tokens_view(), old(self).position())
                    == ok::<ColumnModel>(expr@, final(self).position()),
                Err(message) => having_aggregate_step(old(self).tokens_view(), old(self).position())
                    == fail::<ColumnModel>(message@, final(self).position()),
            },
    {
        let function = match self.peek() {
            None => {
                return Err("Unexpected end of input in HAVING clause".to_owned());
            },
            Some(found) => {
                if found != TokenKind::Identifier {
                    let message = joined_text("Unexpected token in HAVING: ", self.describe_here().as_str());
                    self.advance();
                    return Err(message);
                }
                let text = self.text_here();
                self.advance();
                text
            },
        };
        let raised = upper(function.as_str());
        match self.expect(TokenKind::LeftParen) {
            Ok(_) => {},
            Err(message) => {
                return Err(message);
            },
        }
        match self.peek() {
            None => Err("Expected column or '*' inside function call".to_owned()),
            Some(inner) => {
                if inner == TokenKind::Asterisk && str_same(raised.as_str(), "COUNT") {
                    self.advance();
                    match self.expect(TokenKind::RightParen) {
                        Ok(_) => Ok(ColumnExpr::CountAll),
                        Err(message) => Err(message),
                    }
                } else if inner == TokenKind::Identifier {
                    let column = self.text_here();
                    self.advance();
                    match self.expect(TokenKind::RightParen) {
                        Err(message) => Err(message),
                        Ok(_) => match aggregate_of(raised.as_str(), column) {
                            Some(expr) => Ok(expr),
                            None => Err(
                                joined_text("Unsupported aggregate in HAVING: ", function.as_str()),
                            ),
                        },
                    }
                } else {
                    self.advance();
                    Err("Expected column or '*' inside function call".to_owned())
                }
            },
        }
    }

    fn parse_having_value(&mut self) -> (outcome: Result<String, String>)
        ensures
            final(self).tokens_view() == old(self).tokens_view(),
            match outcome {
                Ok(text) => having_value_step(old(self).tokens_view(), old(self).position()) == ok::<
                    Seq<char>,
                >(text@, final(self).position()),
                Err(message) => having_value_step(old(self).tokens_view(), old(self).position())
                    == fail::<Seq<char>>(message@, final(self).position()),
            },
    {
        match self.peek() {
            Some(found) => {
                if found == TokenKind::StringLiteral || found == TokenKind::NumberLiteral {
                    let text = self.text_here();
                    self.advance();
                    Ok(text)
                } else {
                    let message = joined_text(
                        "Expected value in HAVING but found ",
                        self.describe_here().as_str(),
                    );
                    self.advance();
                    Err(message)
                }
            },
            None => Err("Expected value in HAVING but found end of input".to_owned()),
        }
    }

    fn parse_optional_having(&mut self) -> (outcome: Result<Option<HavingClause>, String>)
        ensures
            final(self).tokens_view() == old(self).tokens_view(),
            match outcome {
                Ok(clause) => having_step(old(self).tokens_view(), old(self).position()) == ok::<
                    Option<HavingModel>,
                >(
                    match clause {
                        Some(condition) => Some(condition@),
                        None => None,
                    },
                    final(self).position(),
                ),
                Err(message) => having_step(old(self).tokens_view(), old(self).position()) == fail::<
                    Option<HavingModel>,
                >(message@, final(self).position()),
            },
    {
        if !self.stands_at(TokenKind::Identifier) {
            return Ok(None);
        }
        if !word_is_having(self.text_here().as_str()) {
            return Ok(None);
        }
        self.advance();
        let column_expr = match self.parse_having_aggregate() {
            Ok(expr) => expr,
            Err(message) => {
                return Err(message);
            },
        };
        let operator = match self.parse_operator("Expected comparison operator in HAVING") {
            Ok(sign) => sign,
            Err(message) => {
                return Err(message);
            },
        };
        let value = match self.parse_having_value() {
            Ok(text) => text,
            Err(message) => {
                return Err(message);
            },
        };
        Ok(Some(HavingClause { column_expr, operator, value }))
    }

    fn parse_column_item(&mut self) -> (outcome: Result<ColumnExpr, String>)
        requires
            is_at(old(self).tokens_view(), old(self).position(), TokenKind::Identifier),
        ensures
            final(self).tokens_view() == old(self).tokens_view(),
            match outcome {
                Ok(expr) => column_item_step(old(self).tokens_view(), old(self).position()) == ok::<
                    ColumnModel,
                >(expr@, final(self).position()),
                Err(message) => column_item_step(old(self).tokens_view(), old(self).position())
                    == fail::<ColumnModel>(message@, final(self).position()),
            },
    {
        let first = self.text_here();
        self.advance();
        let ident = match self.parse_dotted(first) {
            Ok(name) => name,
            Err(message) => {
                return Err(message);
            },
        };
        if !self.stands_at(TokenKind::LeftParen) {
            return Ok(ColumnExpr::Column(ident));
        }
        self.advance();
        let raised = upper(ident.as_str());
        match self.peek() {
            None => Err("Expected column name inside function call".to_owned()),
            Some(inner) => {
                if inner == TokenKind::Identifier {
                    let column = self.text_here();
                    self.advance();
                    match self.expect(TokenKind::RightParen) {
                        Err(message) => Err(message),
                        Ok(_) => match aggregate_of(raised.as_str(), column) {
                            Some(expr) => Ok(expr),
                            None => Err(crate::error::frame("Unknown function '", ident.as_str(), "'")),
                        },
                    }
                } else if inner == TokenKind::Asterisk && str_same(raised.as_str(), "COUNT") {
                    self.advance();
                    match self.expect(TokenKind::RightParen) {
                        Err(message) => Err(message),
                        Ok(_) => {
                            if self.stands_at(TokenKind::Comma) {
                                self.advance();
                            }
                            Ok(ColumnExpr::CountAll)
                        },
                    }
                } else {
                    self.advance();
                    Err("Expected column name inside function call".to_owned())
                }
            },
        }
    }

    fn parse_column_expr_list(&mut self, until: TokenKind) -> (outcome: Result<Vec<ColumnExpr>, String>)
        ensures
            final(self).tokens_view() == old(self).tokens_view(),
            match outcome {
                Ok(columns) => column_list_step(
                    old(self).tokens_view(),
                    old(self).position(),
                    until,
                    Seq::empty(),
                ) == ok::<Seq<ColumnModel>>(column_views(columns@), final(self).position()),
                Err(message) => column_list_step(
                    old(self).tokens_view(),
                    old(self).position(),
                    until,
                    Seq::empty(),
                ) == fail::<Seq<ColumnModel>>(message@, final(self).position()),
            },
    {
        let ghost ts = self.tokens_view();
        let ghost start = self.position();
        let mut columns: Vec<ColumnExpr> = Vec::new();
        assert(column_views(columns@) =~= Seq::<ColumnModel>::empty());
        loop
            invariant
                self.tokens_view() == ts,
                ts == old(self).tokens_view(),
                column_list_step(ts, old(self).position(), until, Seq::empty()) == column_list_step(
                    ts,
                    self.position(),
                    until,
                    column_views(columns@),
                ),
            decreases self.tokens.len() - self.current,
        {
            let ghost before = column_views(columns@);
            match self.peek() {
                None => {
                    return Ok(columns);
                },
                Some(found) => {
                    if found == until {
                        return Ok(columns);
                    } else if found == TokenKind::Asterisk {
                        self.advance();
                        columns.push(ColumnExpr::All);
                        assert(column_views(columns@) =~= before.push(ColumnModel::All));
                    } else if found == TokenKind::Identifier {
                        proof {
                            lemma_column_item_moves(ts, self.position());
                        }
                        match self.parse_column_item() {
                            Err(message) => {
                                return Err(message);
                            },
                            Ok(expr) => {
                                columns.push(expr);
                                assert(column_views(columns@) =~= before.push(expr@));
                            },
                        }
                    } else if found == TokenKind::Comma {
                        self.advance();
                    } else {
                        return Err(
                            joined_text("Unexpected token in column list: ", self.describe_here().as_str()),
                        );
                    }
                },
            }
        }
    }

    fn parse_column_list_until(&mut self, terminator: TokenKind) -> (outcome: Result<Vec<String>, String>)
        ensures
            final(self).tokens_view() == old(self).tokens_view(),
            match outcome {
                Ok(names) => name_list_step(
                    old(self).tokens_view(),
                    old(self).position(),
                    terminator,
                    Seq::empty(),
                ) == ok::<Seq<Seq<char>>>(text_views(names@), final(self).position()),
                Err(message) => name_list_step(
                    old(self).tokens_view(),
                    old(self).position(),
                    terminator,
                    Seq::empty(),
                ) == fail::<Seq<Seq<char>>>(message@, final(self).position()),
            },
    {
        let ghost ts = self.tokens_view();
        let ghost start = self.position();
        let mut names: Vec<String> = Vec::new();
        assert(text_views(names@) =~= Seq::<Seq<char>>::empty());
        loop
            invariant
                self.tokens_view() == ts,
                ts == old(self).tokens_view(),
                name_list_step(ts, old(self).position(), terminator, Seq::empty()) == name_list_step(
                    ts,
                    self.position(),
                    terminator,
                    text_views(names@),
                ),
            decreases self.tokens.len() - self.current,
        {
            let ghost before = text_views(names@);
            match self.peek() {
                None => {
                    return Err("Unexpected end of input in column list".to_owned());
                },
                Some(found) => {
                    if found == terminator {
                        return Ok(names);
                    } else if found == TokenKind::Identifier {
                        let name = self.text_here();
                        names.push(name);
                        assert(text_views(names@) =~= before.push(name@));
                        self.advance();
                    } else if found == TokenKind::Comma {
                        self.advance();
                    } else {
                        return Err(
                            joined_text("Unexpected token in column list: ", self.describe_here().as_str()),
                        );
                    }
                },
            }
        }
    }

    fn parse_value_tuple(&mut self) -> (outcome: Result<Vec<String>, String>)
        ensures
            final(self).tokens_view() == old(self).tokens_view(),
            match outcome {
                Ok(values) => tuple_step(old(self).tokens_view(), old(self).position()) == ok::<
                    Seq<Seq<char>>,
                >(text_views(values@), final(self).position()),
                Err(message) => tuple_step(old(self).tokens_view(), old(self).position()) == fail::<
                    Seq<Seq<char>>,
                >(message@, final(self).position()),
            },
    {
        match self.expect(TokenKind::LeftParen) {
            Ok(_) => {},
            Err(message) => {
                return Err(message);
            },
        }
        let ghost ts = self.tokens_view();
        let ghost start = self.position();
        let mut values: Vec<String> = Vec::new();
        assert(text_views(values@) =~= Seq::<Seq<char>>::empty());
        loop
            invariant
                self.tokens_view() == ts,
                ts == old(self).tokens_view(),
                tuple_step(ts, old(self).position()) == tuple_values_step(
                    ts,
                    self.position(),
                    text_views(values@),
                ),
            decreases self.tokens.len() - self.current,
        {
            let ghost before = text_views(values@);
            match self.peek() {
                None => {
                    return Err("Unexpected end of input in VALUES tuple".to_owned());
                },
                Some(found) => {
                    if found == TokenKind::StringLiteral {
                        let value = self.text_here();
                        values.push(value);
                        assert(text_views(values@) =~= before.push(value@));
                        self.advance();
                    } else if found == TokenKind::Comma {
                        self.advance();
                    } else if found == TokenKind::RightParen {
                        self.advance();
                        return Ok(values);
                    } else {
                        return Err(
                            joined_text("Unexpected token in VALUES tuple: ", self.describe_here().as_str()),
                        );
                    }
                },
            }
        }
    }

    fn parse_values_list(&mut self) -> (outcome: Result<Vec<Vec<String>>, String>)
        ensures
            final(self).tokens_view() == old(self).tokens_view(),
            match outcome {
                Ok(tuples) => values_list_step(old(self).tokens_view(), old(self).position(), Seq::empty())
                    == ok::<Seq<Seq<Seq<char>>>>(tuple_views(tuples@), final(self).position()),
                Err(message) => values_list_step(
                    old(self).tokens_view(),
                    old(self).position(),
                    Seq::empty(),
                ) == fail::<Seq<Seq<Seq<char>>>>(message@, final(self).position()),
            },
    {
        let ghost ts = self.tokens_view();
        let ghost start = self.position();
        let mut tuples: Vec<Vec<String>> = Vec::new();
        assert(tuple_views(tuples@) =~= Seq::<Seq<Seq<char>>>::empty());
        loop
            invariant
                self.tokens_view() == ts,
                ts == old(self).tokens_view(),
                values_list_step(ts, old(self).position(), Seq::empty()) == values_list_step(
                    ts,
                    self.position(),
                    tuple_views(tuples@),
                ),
            decreases self.tokens.len() - self.current,
        {
            let ghost before = tuple_views(tuples@);
            if !self.stands_at(TokenKind::LeftParen) {
                return Ok(tuples);
            }
            proof {
                lemma_tuple_values_moves(ts, self.position() + 1, Seq::empty());
            }
            match self.parse_value_tuple() {
                Err(message) => {
                    return Err(message);
                },
                Ok(values) => {
                    tuples.push(values);
                    assert(tuple_views(tuples@) =~= before.push(text_views(values@)));
                    if self.stands_at(TokenKind::Comma) {
                        self.advance();
                    } else {
                        return Ok(tuples);
                    }
                },
            }
        }
    }

    fn parse_assignments(&mut self) -> (outcome: Result<Vec<(String, String)>, String>)
        ensures
            final(self).tokens_view() == old(self).tokens_view(),
            match outcome {
                Ok(pairs) => assignments_step(old(self).tokens_view(), old(self).position(), Seq::empty())
                    == ok::<Seq<(Seq<char>, Seq<char>)>>(pair_views(pairs@), final(self).position()),
                Err(message) => assignments_step(
                    old(self).tokens_view(),
                    old(self).position(),
                    Seq::empty(),
                ) == fail::<Seq<(Seq<char>, Seq<char>)>>(message@, final(self).position()),
            },
    {
        let ghost ts = self.tokens_view();
        let ghost start = self.position();
        let mut pairs: Vec<(String, String)> = Vec::new();
        assert(pair_views(pairs@) =~= Seq::<(Seq<char>, Seq<char>)>::empty());
        loop
            invariant
                self.tokens_view() == ts,
                ts == old(self).tokens_view(),
                assignments_step(ts, old(self).position(), Seq::empty()) == assignments_step(
                    ts,
                    self.position(),
                    pair_views(pairs@),
                ),
            decreases self.tokens.len() - self.current,
        {
            let ghost before = pair_views(pairs@);
            let column = match self.expect_identifier("Expected column name in SET clause") {
                Ok(name) => name,
                Err(message) => {
                    return Err(message);
                },
            };
            match self.expect(TokenKind::Equals) {
                Ok(_) => {},
                Err(message) => {
                    return Err(message);
                },
            }
            let value = match self.expect_string_literal("Expected value in SET clause") {
                Ok(text) => text,
                Err(message) => {
                    return Err(message);
                },
            };
            let ghost pair = (column@, value@);
            pairs.push((column, value));
            assert(pair_views(pairs@) =~= before.push(pair));
            if self.stands_at(TokenKind::Comma) {
                self.advance();
            } else {
                return Ok(pairs);
            }
        }
    }

    fn parse_definitions(&mut self) -> (outcome: Result<Vec<(String, String)>, String>)
        ensures
            final(self).tokens_view() == old(self).tokens_view(),
            match outcome {
                Ok(pairs) => definitions_step(old(self).tokens_view(), old(self).position(), Seq::empty())
                    == ok::<Seq<(Seq<char>, Seq<char>)>>(pair_views(pairs@), final(self).position()),
                Err(message) => definitions_step(
                    old(self).tokens_view(),
                    old(self).position(),
                    Seq::empty(),
                ) == fail::<Seq<(Seq<char>, Seq<char>)>>(message@, final(self).position()),
            },
    {
        let ghost ts = self.tokens_view();
        let ghost start = self.position();
        let mut pairs: Vec<(String, String)> = Vec::new();
        assert(pair_views(pairs@) =~= Seq::<(Seq<char>, Seq<char>)>::empty());
        loop
            invariant
                self.tokens_view() == ts,
                ts == old(self).tokens_view(),
                definitions_step(ts, old(self).position(), Seq::empty()) == definitions_step(
                    ts,
                    self.position(),
                    pair_views(pairs@),
                ),
            decreases self.tokens.len() - self.current,
        {
            let ghost before = pair_views(pairs@);
            let name = match self.expect_identifier("Expected column name") {
                Ok(name) => name,
                Err(message) => {
                    return Err(message);
                },
            };
            let datatype = match self.expect_identifier("Expected data type") {
                Ok(kind) => kind,
                Err(message) => {
                    return Err(message);
                },
            };
            let ghost pair = (name@, datatype@);
            pairs.push((name, datatype));
            assert(pair_views(pairs@) =~= before.push(pair));
            if self.stands_at(TokenKind::Comma) {
                self.advance();
            } else if self.stands_at(TokenKind::RightParen) {
                self.advance();
                return Ok(pairs);
            } else {
                return Err("Expected ',' or ')' after column definition".to_owned());
            }
        }
    }
}

impl Parser {
    fn parse_join_on(&mut self, join_type: JoinType) -> (outcome: Result<Option<JoinClause>, String>)
        ensures
            final(self).tokens_view() == old(self).tokens_view(),
            match outcome {
                Ok(join) => join_on_step(old(self).tokens_view(), old(self).position(), join_type)
                    == ok::<Option<JoinModel>>(join_view(join), final(self).position()),
                Err(message) => join_on_step(old(self).tokens_view(), old(self).position(), join_type)
                    == fail::<Option<JoinModel>>(message@, final(self).position()),
            },
    {
        let table = match self.expect_identifier("Expected table name after JOIN") {
            Ok(name) => name,
            Err(message) => {
                return Err(message);
            },
        };
        match self.expect(TokenKind::On) {
            Ok(_) => {},
            Err(message) => {
                return Err(message);
            },
        }
        let on_left = match self.parse_qualified_identifier() {
            Ok(name) => name,
            Err(message) => {
                return Err(message);
            },
        };
        match self.expect(TokenKind::Equals) {
            Ok(_) => {},
            Err(message) => {
                return Err(message);
            },
        }
        let on_right = match self.parse_qualified_identifier() {
            Ok(name) => name,
            Err(message) => {
                return Err(message);
            },
        };
        Ok(Some(JoinClause { join_type, table, on_left, on_right }))
    }

    fn parse_join(&mut self) -> (outcome: Result<Option<JoinClause>, String>)
        ensures
            final(self).tokens_view() == old(self).tokens_view(),
            match outcome {
                Ok(join) => join_step(old(self).tokens_view(), old(self).position()) == ok::<
                    Option<JoinModel>,
                >(join_view(join), final(self).position()),
                Err(message) => join_step(old(self).tokens_view(), old(self).position()) == fail::<
                    Option<JoinModel>,
                >(message@, final(self).position()),
            },
    {
        let join_type = match self.peek() {
            None => {
                return Ok(None);
            },
            Some(TokenKind::Join) => {
                self.advance();
                return self.parse_join_on(JoinType::Inner);
            },
            Some(TokenKind::Left) => JoinType::Left,
            Some(TokenKind::Right) => JoinType::Right,
            Some(TokenKind::Full) => JoinType::Full,
            Some(TokenKind::Cross) => JoinType::Cross,
            Some(_) => {
                return Ok(None);
            },
        };
        self.advance();
        match self.expect(TokenKind::Join) {
            Ok(_) => {},
            Err(message) => {
                return Err(message);
            },
        }
        match join_type {
            JoinType::Cross => {
                match self.expect_identifier("Expected table name after CROSS JOIN") {
                    Err(message) => Err(message),
                    Ok(table) => Ok(
                        Some(
                            JoinClause {
                                join_type: JoinType::Cross,
                                table,
                                on_left: String::new(),
                                on_right: String::new(),
                            },
                        ),
                    ),
                }
            },
            other => self.parse_join_on(other),
        }
    }

    fn parse_select(&mut self) -> (outcome: Result<SelectStatement, String>)
        ensures
            final(self).tokens_view() == old(self).tokens_view(),
            match outcome {
                Ok(stmt) => select_step(old(self).tokens_view(), old(self).position()) == ok::<
                    SelectModel,
                >(stmt@, final(self).position()),
                Err(message) => select_step(old(self).tokens_view(), old(self).position()) == fail::<
                    SelectModel,
                >(message@, final(self).position()),
            },
    {
        let columns = match self.parse_column_expr_list(TokenKind::From) {
            Ok(list) => list,
            Err(message) => {
                return Err(message);
            },
        };
        match self.expect(TokenKind::From) {
            Ok(_) => {},
            Err(message) => {
                return Err(message);
            },
        }
        let table = match self.expect_identifier("Expected table name after FROM") {
            Ok(name) => name,
            Err(message) => {
                return Err(message);
            },
        };
        let join = match self.parse_join() {
            Ok(joined) => joined,
            Err(message) => {
                return Err(message);
            },
        };
        let where_clause = match self.parse_optional_where_clause() {
            Ok(clause) => clause,
            Err(message) => {
                return Err(message);
            },
        };
        let group_by = match self.parse_optional_group_by() {
            Ok(clause) => clause,
            Err(message) => {
                return Err(message);
            },
        };
        let order_by = match self.parse_optional_order_by() {
            Ok(clause) => clause,
            Err(message) => {
                return Err(message);
            },
        };
        let having = match self.parse_optional_having() {
            Ok(clause) => clause,
            Err(message) => {
                return Err(message);
            },
        };
        Ok(SelectStatement { columns, table, join, where_clause, group_by, order_by, having })
    }

    fn parse_insert_columns(&mut self) -> (outcome: Result<Vec<String>, String>)
        ensures
            final(self).tokens_view() == old(self).tokens_view(),
            match outcome {
                Ok(names) => insert_columns_step(old(self).tokens_view(), old(self).position()) == ok::<
                    Seq<Seq<char>>,
                >(text_views(names@), final(self).position()),
                Err(message) => insert_columns_step(old(self).tokens_view(), old(self).position())
                    == fail::<Seq<Seq<char>>>(message@, final(self).position()),
            },
    {
        if self.stands_at(TokenKind::Values) {
            let names: Vec<String> = Vec::new();
            assert(text_views(names@) =~= Seq::<Seq<char>>::empty());
            return Ok(names);
        }
        match self.expect(TokenKind::LeftParen) {
            Ok(_) => {},
            Err(message) => {
                return Err(message);
            },
        }
        let names = match self.parse_column_list_until(TokenKind::RightParen) {
            Ok(list) => list,
            Err(message) => {
                return Err(message);
            },
        };
        match self.expect(TokenKind::RightParen) {
            Ok(_) => Ok(names),
            Err(message) => Err(message),
        }
    }

    fn parse_insert(&mut self) -> (outcome: Result<InsertStatement, String>)
        ensures
            final(self).tokens_view() == old(self).tokens_view(),
            match outcome {
                Ok(stmt) => insert_step(old(self).tokens_view(), old(self).position()) == ok::<
                    InsertModel,
                >(stmt@, final(self).position()),
                Err(message) => insert_step(old(self).tokens_view(), old(self).position()) == fail::<
                    InsertModel,
                >(message@, final(self).position()),
            },
    {
        match self.expect(TokenKind::Into) {
            Ok(_) => {},
            Err(message) => {
                return Err(message);
            },
        }
        let table = match self.expect_identifier("Expected table name after INSERT INTO") {
            Ok(name) => name,
            Err(message) => {
                return Err(message);
            },
        };
        let columns = match self.parse_insert_columns() {
            Ok(names) => names,
            Err(message) => {
                return Err(message);
            },
        };
        match self.expect(TokenKind::Values) {
            Ok(_) => {},
            Err(message) => {
                return Err(message);
            },
        }
        let values = match self.parse_values_list() {
            Ok(tuples) => tuples,
            Err(message) => {
                return Err(message);
            },
        };
        Ok(InsertStatement { table, columns, values })
    }

    fn parse_update(&mut self) -> (outcome: Result<UpdateStatement, String>)
        ensures
            final(self).tokens_view() == old(self).tokens_view(),
            match outcome {
                Ok(stmt) => update_step(old(self).tokens_view(), old(self).position()) == ok::<
                    UpdateModel,
                >(stmt@, final(self).position()),
                Err(message) => update_step(old(self).tokens_view(), old(self).position()) == fail::<
                    UpdateModel,
                >(message@, final(self).position()),
            },
    {
        let table = match self.expect_identifier("Expected table name after UPDATE") {
            Ok(name) => name,
            Err(message) => {
                return Err(message);
            },
        };
        match self.expect(TokenKind::SetWord) {
            Ok(_) => {},
            Err(message) => {
                return Err(message);
            },
        }
        let assignments = match self.parse_assignments() {
            Ok(pairs) => pairs,
            Err(message) => {
                return Err(message);
            },
        };
        let where_clause = match self.parse_optional_where_clause() {
            Ok(clause) => clause,
            Err(message) => {
                return Err(message);
            },
        };
        Ok(UpdateStatement { table, assignments, where_clause })
    }

    fn parse_delete(&mut self) -> (outcome: Result<DeleteStatement, String>)
        ensures
            final(self).tokens_view() == old(self).tokens_view(),
            match outcome {
                Ok(stmt) => delete_step(old(self).tokens_view(), old(self).position()) == ok::<
                    DeleteModel,
                >(stmt@, final(self).position()),
                Err(message) => delete_step(old(self).tokens_view(), old(self).position()) == fail::<
                    DeleteModel,
                >(message@, final(self).position()),
            },
    {
        match self.expect(TokenKind::From) {
            Ok(_) => {},
            Err(message) => {
                return Err(message);
            },
        }
        let table = match self.expect_identifier("Expected table name after DELETE FROM") {
            Ok(name) => name,
            Err(message) => {
                return Err(message);
            },
        };
        let where_clause = match self.parse_optional_where_clause() {
            Ok(clause) => clause,
            Err(message) => {
                return Err(message);
            },
        };
        Ok(DeleteStatement { table, where_clause })
    }

    fn parse_create_table(&mut self) -> (outcome: Result<CreateTableStatement, String>)
        ensures
            final(self).tokens_view() == old(self).tokens_view(),
            match outcome {
                Ok(stmt) => create_table_step(old(self).tokens_view(), old(self).position()) == ok::<
                    CreateTableModel,
                >(stmt@, final(self).position()),
                Err(message) => create_table_step(old(self).tokens_view(), old(self).position())
                    == fail::<CreateTableModel>(message@, final(self).position()),
            },
    {
        match self.expect(TokenKind::Table) {
            Ok(_) => {},
            Err(message) => {
                return Err(message);
            },
        }
        let table = match self.expect_identifier("Expected table name after CREATE TABLE") {
            Ok(name) => name,
            Err(message) => {
                return Err(message);
            },
        };
        match self.expect(TokenKind::LeftParen) {
            Ok(_) => {},
            Err(message) => {
                return Err(message);
            },
        }
        match self.parse_definitions() {
            Ok(columns) => Ok(CreateTableStatement { table, columns }),
            Err(message) => Err(message),
        }
    }

    fn parse_alter_action(&mut self) -> (outcome: Result<AlterAction, String>)
        ensures
            final(self).tokens_view() == old(self).tokens_view(),
            match outcome {
                Ok(action) => alter_action_step(old(self).tokens_view(), old(self).position()) == ok::<
                    AlterActionModel,
                >(action@, final(self).position()),
                Err(message) => alter_action_step(old(self).tokens_view(), old(self).position())
                    == fail::<AlterActionModel>(message@, final(self).position()),
            },
    {
        match self.peek() {
            None => Err("Unexpected end of input in ALTER TABLE".to_owned()),
            Some(TokenKind::Add) => {
                self.advance();
                match self.expect_identifier("Expected column name after ADD") {
                    Err(message) => Err(message),
                    Ok(column) => {
                        if self.stands_at(TokenKind::Identifier) {
                            self.advance();
                        }
                        Ok(AlterAction::AddColumn(column))
                    },
                }
            },
            Some(TokenKind::Drop) => {
                self.advance();
                match self.expect_identifier("Expected column name after DROP") {
                    Err(message) => Err(message),
                    Ok(column) => Ok(AlterAction::DropColumn(column)),
                }
            },
            Some(TokenKind::Modify) => {
                self.advance();
                let column = match self.expect_identifier("Expected column name after MODIFY") {
                    Ok(name) => name,
                    Err(message) => {
                        return Err(message);
                    },
                };
                match self.expect_identifier("Expected new data type after column") {
                    Err(message) => Err(message),
                    Ok(new_type) => Ok(AlterAction::ModifyColumn(column, new_type)),
                }
            },
            Some(_) => {
                let message = joined_text("Unexpected token in ALTER TABLE: ", self.describe_here().as_str());
                self.advance();
                Err(message)
            },
        }
    }

    fn parse_alter_table(&mut self) -> (outcome: Result<AlterTableStatement, String>)
        ensures
            final(self).tokens_view() == old(self).tokens_view(),
            match outcome {
                Ok(stmt) => alter_table_step(old(self).tokens_view(), old(self).position()) == ok::<
                    AlterTableModel,
                >(stmt@, final(self).position()),
                Err(message) => alter_table_step(old(self).tokens_view(), old(self).position())
                    == fail::<AlterTableModel>(message@, final(self).position()),
            },
    {
        match self.expect(TokenKind::Table) {
            Ok(_) => {},
            Err(message) => {
                return Err(message);
            },
        }
        let table = match self.expect_identifier("Expected table name after ALTER TABLE") {
            Ok(name) => name,
            Err(message) => {
                return Err(message);
            },
        };
        match self.parse_alter_action() {
            Ok(action) => Ok(AlterTableStatement { table, action }),
            Err(message) => Err(message),
        }
    }

    fn parse_drop_table(&mut self) -> (outcome: Result<DropTableStatement, String>)
        ensures
            final(self).tokens_view() == old(self).tokens_view(),
            match outcome {
                Ok(stmt) => drop_table_step(old(self).tokens_view(), old(self).position()) == ok::<
                    DropTableModel,
                >(stmt@, final(self).position()),
                Err(message) => drop_table_step(old(self).tokens_view(), old(self).position())
                    == fail::<DropTableModel>(message@, final(self).position()),
            },
    {
        match self.expect(TokenKind::Table) {
            Ok(_) => {},
            Err(message) => {
                return Err(message);
            },
        }
        match self.expect_identifier("Expected table name after DROP TABLE") {
            Ok(table) => Ok(DropTableStatement { table }),
            Err(message) => Err(message),
        }
    }

    /// Parses the statement that begins where the parser stands. The parser
    /// then stands behind what it has read of it.
    pub fn parse(&mut self) -> (outcome: Result<SQLStatement, String>)
        ensures
            final(self).tokens_view() == old(self).tokens_view(),
            match outcome {
                Ok(stmt) => statement_step(old(self).tokens_view(), old(self).position()) == ok::<
                    StatementModel,
                >(stmt@, final(self).position()),
                Err(message) => statement_step(old(self).tokens_view(), old(self).position())
                    == fail::<StatementModel>(message@, final(self).position()),
            },
    {
        match self.peek() {
            Some(TokenKind::Select) => {
                self.advance();
                match self.parse_select() {
                    Ok(stmt) => Ok(SQLStatement::Select(stmt)),
                    Err(message) => Err(message),
                }
            },
            Some(TokenKind::Insert) => {
                self.advance();
                match self.parse_insert() {
                    Ok(stmt) => Ok(SQLStatement::Insert(stmt)),
                    Err(message) => Err(message),
                }
            },
            Some(TokenKind::Update) => {
                self.advance();
                match self.parse_update() {
                    Ok(stmt) => Ok(SQLStatement::Update(stmt)),
                    Err(message) => Err(message),
                }
            },
            Some(TokenKind::Delete) => {
                self.advance();
                match self.parse_delete() {
                    Ok(stmt) => Ok(SQLStatement::Delete(stmt)),
                    Err(message) => Err(message),
                }
            },
            Some(TokenKind::Create) => {
                self.advance();
                match self.parse_create_table() {
                    Ok(stmt) => Ok(SQLStatement::CreateTable(stmt)),
                    Err(message) => Err(message),
                }
            },
            Some(TokenKind::Alter) => {
                self.advance();
                match self.parse_alter_table() {
                    Ok(stmt) => Ok(SQLStatement::AlterTable(stmt)),
                    Err(message) => Err(message),
                }
            },
            Some(TokenKind::Drop) => {
                self.advance();
                match self.parse_drop_table() {
                    Ok(stmt) => Ok(SQLStatement::DropTable(stmt)),
                    Err(message) => Err(message),
                }
            },
            _ => Err("Unexpected token at start of statement".to_owned()),
        }
    }
}

/// The view of an optional join.
pub open spec fn join_view(join: Option<JoinClause>) -> Option<JoinModel> {
    match join {
        Some(clause) => Some(clause@),
        None => None,
    }
}

/// What the tokens `ts` parse to: the statement that they begin with, or
/// the message of the error that ends the parsing.
pub open spec fn parsed(ts: Seq<TokenModel>) -> Result<StatementModel, Seq<char>> {
    statement_step(ts, 0).result
}

/// Parses the statement that `tokens` begin with.
pub fn parse_sql(tokens: Vec<Token>) -> (outcome: Result<SQLStatement, String>)
    ensures
        match outcome {
            Ok(stmt) => parsed(token_views(tokens@)) == Ok::<StatementModel, Seq<char>>(stmt@),
            Err(message) => parsed(token_views(tokens@)) == Err::<StatementModel, Seq<char>>(message@),
        },
{
    let mut parser = Parser::new(tokens);
    parser.parse()
}

} // verus!
