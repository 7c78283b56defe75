use vstd::prelude::*;
use crate::text::text_views;

verus! {

/// One thing that must happen on disk for the store's files to follow its
/// state. The store hands these out in the order in which they are due.
#[derive(Debug)]
pub enum DiskOp {
    /// Append `line` and a line break to the file at `path`, creating it where
    /// it is missing, and flush it to stable storage.
    AppendLine { path: String, line: String },
    /// Create the file at `path`, or empty it, and write each of `lines`
    /// followed by a line break.
    WriteLines { path: String, lines: Vec<String> },
    /// Remove the file at `path`; a failure is of no account.
    RemoveFile { path: String },
    /// Create the directory at `path` with the directories above it.
    CreateDir { path: String },
    /// Remove the directory at `path`, if there is one, with all it holds.
    RemoveDir { path: String },
}

/// The mathematical value of a `DiskOp`.
pub enum DiskOpModel {
    AppendLine { path: Seq<char>, line: Seq<char> },
    WriteLines { path: Seq<char>, lines: Seq<Seq<char>> },
    RemoveFile { path: Seq<char> },
    CreateDir { path: Seq<char> },
    RemoveDir { path: Seq<char> },
}

impl View for DiskOp {
    type V = DiskOpModel;

    open spec fn view(&self) -> DiskOpModel {
        match self {
            DiskOp::AppendLine { path, line } => DiskOpModel::AppendLine { path: path@, line: line@ },
            DiskOp::WriteLines { path, lines } => DiskOpModel::WriteLines {
                path: path@,
                lines: text_views(lines@),
            },
            DiskOp::RemoveFile { path } => DiskOpModel::RemoveFile { path: path@ },
            DiskOp::CreateDir { path } => DiskOpModel::CreateDir { path: path@ },
            DiskOp::RemoveDir { path } => DiskOpModel::RemoveDir { path: path@ },
        }
    }
}

/// The views of `ops`, in order.
pub open spec fn op_views(ops: Seq<DiskOp>) -> Seq<DiskOpModel> {
    Seq::new(ops.len(), |i: int| ops[i]@)
}

/// The path of `name` inside the directory `dir`.
pub open spec fn path_in(dir: Seq<char>, name: Seq<char>) -> Seq<char> {
    dir + "/"@ + name
}

/// The path of `name` inside the directory `dir`.
pub fn join_path(dir: &str, name: &str) -> (path: String)
    ensures
        path@ == path_in(dir@, name@),
{
    let mut path = dir.to_owned();
    vstd::string::StringExecFns::append(&mut path, "/");
    vstd::string::StringExecFns::append(&mut path, name);
    path
}

} // verus!
