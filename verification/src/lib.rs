pub mod ast;
pub mod text;
pub mod keys;
pub mod clock;
pub mod json;
pub mod disk;
pub mod entry;
pub mod memtable;
pub mod sstable;
pub mod wal;
pub mod model;
pub mod storage_laws;
pub mod runs;
pub mod engine;
pub mod error;
pub mod numeric;
pub mod row;
pub mod join;
pub mod filter;
pub mod group;
pub mod order;
pub mod format;
pub mod catalog;
pub mod select;
pub mod statements;
pub mod persistent_executor;
pub mod executor;
pub mod tokenizer;
pub mod parser;
pub mod integration;

pub use ast::{
    AlterAction, AlterTableStatement, ColumnExpr, CreateTableStatement, DeleteStatement,
    DropTableStatement, HavingClause, InsertStatement, JoinClause, JoinType, OrderByClause,
    SQLStatement, SelectStatement, UpdateStatement, WhereClause,
};
pub use catalog::DirLog;
pub use disk::DiskOp;
pub use engine::LSMStorage;
pub use entry::{StorageEntry, StorageValue};
pub use error::ExecError;
pub use executor::Database;
pub use integration::{execute_query, process_query, Answer};
pub use parser::{parse_sql, Parser};
pub use tokenizer::{tokenize, Token, TokenKind, Tokenizer};
pub use memtable::MemTable;
pub use numeric::{FoldKind, NumberFacts, NumberQuery, NumericOrder};
pub use persistent_executor::PersistentDatabase;
pub use statements::{Execution, Reply};
pub use row::Row;
pub use sstable::SSTable;
pub use wal::WAL;
