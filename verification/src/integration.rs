use vstd::prelude::*;
use vstd::string::StringExecFns;
use crate::ast::{SQLStatement, StatementModel};
use crate::executor::Database;
use crate::filter::StopModel;
use crate::numeric::{query_views, NumberFacts, NumberQuery, QueryModel};
use crate::parser::{parse_sql, parsed, Parser};
use crate::statements::Reply;
use crate::tokenizer::{tokenize, tokens_of, Tokenizer};

verus! {

/// What a query led to: a result to show or the message of an error, or the
/// numeric questions that must be answered before the query can be run.
#[derive(Debug)]
pub enum Answer {
    Done(Result<String, String>),
    Needs(Vec<NumberQuery>),
}

/// The mathematical value of an `Answer`.
pub enum AnswerModel {
    Done(Result<Seq<char>, Seq<char>>),
    Needs(Seq<QueryModel>),
}

impl View for Answer {
    type V = AnswerModel;

    open spec fn view(&self) -> AnswerModel {
        match self {
            Answer::Done(Ok(text)) => AnswerModel::Done(Ok(text@)),
            Answer::Done(Err(message)) => AnswerModel::Done(Err(message@)),
            Answer::Needs(queries) => AnswerModel::Needs(query_views(queries@)),
        }
    }
}

/// The statement that the text `query` writes, or the message of the error
/// in its tokens or in its grammar.
pub open spec fn statement_of(query: Seq<char>) -> Result<StatementModel, Seq<char>> {
    match tokens_of(query) {
        Err(message) => Err(message),
        Ok(tokens) => parsed(tokens),
    }
}

/// The answer that stands for the outcome of a statement.
pub open spec fn answer_of(outcome: Result<Seq<char>, StopModel>) -> AnswerModel {
    match outcome {
        Ok(text) => AnswerModel::Done(Ok(text)),
        Err(StopModel::Failed(error)) => AnswerModel::Done(Err("Execution error: "@ + error.message())),
        Err(StopModel::Needs(queries)) => AnswerModel::Needs(queries),
    }
}

/// Tokenizes and parses one query.
pub fn execute_query(query: &str) -> (outcome: Result<SQLStatement, String>)
    ensures
        match outcome {
            Ok(stmt) => statement_of(query@) == Ok::<StatementModel, Seq<char>>(stmt@),
            Err(message) => statement_of(query@) == Err::<StatementModel, Seq<char>>(message@),
        },
{
    let mut tokenizer = Tokenizer::new(query);
    let tokens = match tokenizer.tokenize() {
        Ok(found) => found,
        Err(message) => {
            return Err(message);
        },
    };
    let mut parser = Parser::new(tokens);
    parser.parse()
}

/// Tokenizes, parses and executes one query on `db`, given the answers
/// `facts` to numeric questions. An error says in which of the three it
/// arose.
pub fn process_query(db: &mut Database, query: &str, facts: &NumberFacts) -> (answer: Answer)
    requires
        old(db).wf(),
    ensures
        final(db).wf(),
        match tokens_of(query@) {
            Err(message) => final(db)@ == old(db)@ && answer@ == AnswerModel::Done(
                Err("Tokenization error: "@ + message),
            ),
            Ok(tokens) => match parsed(tokens) {
                Err(message) => final(db)@ == old(db)@ && answer@ == AnswerModel::Done(
                    Err("Parsing error: "@ + message),
                ),
                Ok(statement) => exists|stmt: SQLStatement|
                    #![trigger old(db)@.executed(stmt, facts@)]
                    stmt@ == statement && final(db)@ == old(db)@.executed(stmt, facts@).0 && answer@
                        == answer_of(old(db)@.executed(stmt, facts@).1),
            },
        },
{
    let tokens = match tokenize(query) {
        Ok(found) => found,
        Err(message) => {
            let mut text = "Tokenization error: ".to_owned();
            text.append(message.as_str());
            return Answer::Done(Err(text));
        },
    };
    let stmt = match parse_sql(tokens) {
        Ok(parsed) => parsed,
        Err(message) => {
            let mut text = "Parsing error: ".to_owned();
            text.append(message.as_str());
            return Answer::Done(Err(text));
        },
    };
    let ghost witness = stmt;
    match db.execute(stmt, facts) {
        Reply::Done(Ok(text)) => Answer::Done(Ok(text)),
        Reply::Done(Err(error)) => {
            let mut text = "Execution error: ".to_owned();
            text.append(error.message().as_str());
            Answer::Done(Err(text))
        },
        Reply::Needs(queries) => Answer::Needs(queries),
    }
}

} // verus!
