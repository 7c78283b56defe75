use vstd::prelude::*;

verus! {

/// Why a statement was not carried out. Each kind carries the message that
/// the caller is shown.
#[derive(Debug, PartialEq, Eq)]
pub enum ExecError {
    /// A table or a column that the statement refers to is not there.
    NotFound(String),
    /// An INSERT tuple has not as many values as the statement names columns.
    SchemaViolation(String),
    /// An operand of a numeric comparison is no number.
    ParseError(String),
    /// A stored row or schema does not decode.
    SerializationError(String),
    /// An operator that the engine does not know.
    Unsupported(String),
    /// A table that is to be created is there already.
    AlreadyExists(String),
    /// A file could not be written.
    IOError(String),
}

/// The mathematical value of an `ExecError`.
pub enum ErrorModel {
    NotFound(Seq<char>),
    SchemaViolation(Seq<char>),
    ParseError(Seq<char>),
    SerializationError(Seq<char>),
    Unsupported(Seq<char>),
    AlreadyExists(Seq<char>),
    IOError(Seq<char>),
}

impl View for ExecError {
    type V = ErrorModel;

    open spec fn view(&self) -> ErrorModel {
        match self {
            ExecError::NotFound(text) => ErrorModel::NotFound(text@),
            ExecError::SchemaViolation(text) => ErrorModel::SchemaViolation(text@),
            ExecError::ParseError(text) => ErrorModel::ParseError(text@),
            ExecError::SerializationError(text) => ErrorModel::SerializationError(text@),
            ExecError::Unsupported(text) => ErrorModel::Unsupported(text@),
            ExecError::AlreadyExists(text) => ErrorModel::AlreadyExists(text@),
            ExecError::IOError(text) => ErrorModel::IOError(text@),
        }
    }
}

impl ErrorModel {
    /// The message that the error carries.
    pub open spec fn message(self) -> Seq<char> {
        match self {
            ErrorModel::NotFound(text) => text,
            ErrorModel::SchemaViolation(text) => text,
            ErrorModel::ParseError(text) => text,
            ErrorModel::SerializationError(text) => text,
            ErrorModel::Unsupported(text) => text,
            ErrorModel::AlreadyExists(text) => text,
            ErrorModel::IOError(text) => text,
        }
    }
}

impl Clone for ExecError {
    fn clone(&self) -> (copy: Self)
        ensures
            copy@ == self@,
    {
        match self {
            ExecError::NotFound(text) => ExecError::NotFound(text.clone()),
            ExecError::SchemaViolation(text) => ExecError::SchemaViolation(text.clone()),
            ExecError::ParseError(text) => ExecError::ParseError(text.clone()),
            ExecError::SerializationError(text) => ExecError::SerializationError(text.clone()),
            ExecError::Unsupported(text) => ExecError::Unsupported(text.clone()),
            ExecError::AlreadyExists(text) => ExecError::AlreadyExists(text.clone()),
            ExecError::IOError(text) => ExecError::IOError(text.clone()),
        }
    }
}

impl ExecError {
    /// The message that the error carries.
    pub fn message(&self) -> (text: String)
        ensures
            text@ == self@.message(),
    {
        match self {
            ExecError::NotFound(text) => text.clone(),
            ExecError::SchemaViolation(text) => text.clone(),
            ExecError::ParseError(text) => text.clone(),
            ExecError::SerializationError(text) => text.clone(),
            ExecError::Unsupported(text) => text.clone(),
            ExecError::AlreadyExists(text) => text.clone(),
            ExecError::IOError(text) => text.clone(),
        }
    }
}

/// `before`, then `name`, then `after`.
pub open spec fn framed(before: Seq<char>, name: Seq<char>, after: Seq<char>) -> Seq<char> {
    before + name + after
}

/// `before`, then `name`, then `after`, as a string.
pub fn frame(before: &str, name: &str, after: &str) -> (text: String)
    ensures
        text@ == framed(before@, name@, after@),
{
    let mut text = before.to_owned();
    vstd::string::StringExecFns::append(&mut text, name);
    vstd::string::StringExecFns::append(&mut text, after);
    text
}

} // verus!
