use vstd::prelude::*;
use crate::text::{pair_views, text_views, tuple_views};

verus! {

/// One statement, as the parser hands it over.
#[derive(Debug, Clone, PartialEq)]
pub enum SQLStatement {
    Select(SelectStatement),
    Insert(InsertStatement),
    Update(UpdateStatement),
    Delete(DeleteStatement),
    CreateTable(CreateTableStatement),
    AlterTable(AlterTableStatement),
    DropTable(DropTableStatement),
}

/// A SELECT: what to project, from which table, and the clauses that were given.
#[derive(Debug, Clone, PartialEq)]
pub struct SelectStatement {
    pub columns: Vec<ColumnExpr>,
    pub table: String,
    pub where_clause: Option<WhereClause>,
    pub order_by: Option<OrderByClause>,
    pub group_by: Option<Vec<String>>,
    pub having: Option<HavingClause>,
    pub join: Option<JoinClause>,
}

/// An INSERT: the table, the column names, and one tuple of values for each row.
#[derive(Debug, Clone, PartialEq)]
pub struct InsertStatement {
    pub table: String,
    pub columns: Vec<String>,
    pub values: Vec<Vec<String>>,
}

/// An UPDATE: the table, the assignments of values to columns, and a condition.
#[derive(Debug, Clone, PartialEq)]
pub struct UpdateStatement {
    pub table: String,
    pub assignments: Vec<(String, String)>,
    pub where_clause: Option<WhereClause>,
}

/// A DELETE: the table and a condition.
#[derive(Debug, Clone, PartialEq)]
pub struct DeleteStatement {
    pub table: String,
    pub where_clause: Option<WhereClause>,
}

/// `column operator value`, the operator one of `=`, `!=`, `<`, `>`.
#[derive(Debug, Clone, PartialEq)]
pub struct WhereClause {
    pub column: String,
    pub operator: String,
    pub value: String,
}

/// A table's name and its columns, each with the type it was declared with.
#[derive(Debug, Clone, PartialEq)]
pub struct CreateTableStatement {
    pub table: String,
    pub columns: Vec<(String, String)>,
}

/// What an ALTER TABLE does to one column.
#[derive(Debug, Clone, PartialEq)]
pub enum AlterAction {
    AddColumn(String),
    DropColumn(String),
    ModifyColumn(String, String),
}

/// An ALTER TABLE: the table and the change.
#[derive(Debug, Clone, PartialEq)]
pub struct AlterTableStatement {
    pub table: String,
    pub action: AlterAction,
}

/// A DROP TABLE: the table.
#[derive(Debug, Clone, PartialEq)]
pub struct DropTableStatement {
    pub table: String,
}

/// The column to sort by, and whether in descending order.
#[derive(Debug, Clone, PartialEq)]
pub struct OrderByClause {
    pub column: String,
    pub descending: bool,
}

/// One item of a projection list.
#[derive(Debug, Clone, PartialEq)]
pub enum ColumnExpr {
    Column(String),
    Count(String),
    Sum(String),
    Avg(String),
    Min(String),
    Max(String),
    CountAll,
    All,
}

/// `aggregate operator value`, the operator one of `=`, `>`, `<`, `!=`.
#[derive(Debug, Clone, PartialEq)]
pub struct HavingClause {
    pub column_expr: ColumnExpr,
    pub operator: String,
    pub value: String,
}

/// The kind of a join.
#[derive(Debug, Clone, PartialEq)]
pub enum JoinType {
    Inner,
    Left,
    Right,
    Full,
    Cross,
}

/// The table to join with and the two column references that must agree.
#[derive(Debug, Clone, PartialEq)]
pub struct JoinClause {
    pub join_type: JoinType,
    pub table: String,
    pub on_left: String,
    pub on_right: String,
}

/// The mathematical value of a `ColumnExpr`.
pub enum ColumnModel {
    Column(Seq<char>),
    Count(Seq<char>),
    Sum(Seq<char>),
    Avg(Seq<char>),
    Min(Seq<char>),
    Max(Seq<char>),
    CountAll,
    All,
}

impl View for ColumnExpr {
    type V = ColumnModel;

    open spec fn view(&self) -> ColumnModel {
        match self {
            ColumnExpr::Column(name) => ColumnModel::Column(name@),
            ColumnExpr::Count(name) => ColumnModel::Count(name@),
            ColumnExpr::Sum(name) => ColumnModel::Sum(name@),
            ColumnExpr::Avg(name) => ColumnModel::Avg(name@),
            ColumnExpr::Min(name) => ColumnModel::Min(name@),
            ColumnExpr::Max(name) => ColumnModel::Max(name@),
            ColumnExpr::CountAll => ColumnModel::CountAll,
            ColumnExpr::All => ColumnModel::All,
        }
    }
}

/// The views of `columns`, in order.
pub open spec fn column_views(columns: Seq<ColumnExpr>) -> Seq<ColumnModel> {
    Seq::new(columns.len(), |i: int| columns[i]@)
}

/// The mathematical value of a `WhereClause`.
pub struct WhereModel {
    pub column: Seq<char>,
    pub operator: Seq<char>,
    pub value: Seq<char>,
}

impl View for WhereClause {
    type V = WhereModel;

    open spec fn view(&self) -> WhereModel {
        WhereModel { column: self.column@, operator: self.operator@, value: self.value@ }
    }
}

/// The mathematical value of an `OrderByClause`.
pub struct OrderByModel {
    pub column: Seq<char>,
    pub descending: bool,
}

impl View for OrderByClause {
    type V = OrderByModel;

    open spec fn view(&self) -> OrderByModel {
        OrderByModel { column: self.column@, descending: self.descending }
    }
}

/// The mathematical value of a `HavingClause`.
pub struct HavingModel {
    pub column_expr: ColumnModel,
    pub operator: Seq<char>,
    pub value: Seq<char>,
}

impl View for HavingClause {
    type V = HavingModel;

    open spec fn view(&self) -> HavingModel {
        HavingModel { column_expr: self.column_expr@, operator: self.operator@, value: self.value@ }
    }
}

/// The mathematical value of a `JoinClause`.
pub struct JoinModel {
    pub join_type: JoinType,
    pub table: Seq<char>,
    pub on_left: Seq<char>,
    pub on_right: Seq<char>,
}

impl View for JoinClause {
    type V = JoinModel;

    open spec fn view(&self) -> JoinModel {
        JoinModel {
            join_type: self.join_type,
            table: self.table@,
            on_left: self.on_left@,
            on_right: self.on_right@,
        }
    }
}

/// The view of an optional WHERE clause.
pub open spec fn where_view(clause: Option<WhereClause>) -> Option<WhereModel> {
    match clause {
        Some(condition) => Some(condition@),
        None => None,
    }
}

/// The mathematical value of a `SelectStatement`.
pub struct SelectModel {
    pub columns: Seq<ColumnModel>,
    pub table: Seq<char>,
    pub where_clause: Option<WhereModel>,
    pub order_by: Option<OrderByModel>,
    pub group_by: Option<Seq<Seq<char>>>,
    pub having: Option<HavingModel>,
    pub join: Option<JoinModel>,
}

impl View for SelectStatement {
    type V = SelectModel;

    open spec fn view(&self) -> SelectModel {
        SelectModel {
            columns: column_views(self.columns@),
            table: self.table@,
            where_clause: where_view(self.where_clause),
            order_by: match self.order_by {
                Some(order) => Some(order@),
                None => None,
            },
            group_by: match self.group_by {
                Some(names) => Some(text_views(names@)),
                None => None,
            },
            having: match self.having {
                Some(condition) => Some(condition@),
                None => None,
            },
            join: match self.join {
                Some(join) => Some(join@),
                None => None,
            },
        }
    }
}

/// The mathematical value of an `InsertStatement`.
pub struct InsertModel {
    pub table: Seq<char>,
    pub columns: Seq<Seq<char>>,
    pub values: Seq<Seq<Seq<char>>>,
}

impl View for InsertStatement {
    type V = InsertModel;

    open spec fn view(&self) -> InsertModel {
        InsertModel {
            table: self.table@,
            columns: text_views(self.columns@),
            values: tuple_views(self.values@),
        }
    }
}

/// The mathematical value of an `UpdateStatement`.
pub struct UpdateModel {
    pub table: Seq<char>,
    pub assignments: Seq<(Seq<char>, Seq<char>)>,
    pub where_clause: Option<WhereModel>,
}

impl View for UpdateStatement {
    type V = UpdateModel;

    open spec fn view(&self) -> UpdateModel {
        UpdateModel {
            table: self.table@,
            assignments: pair_views(self.assignments@),
            where_clause: where_view(self.where_clause),
        }
    }
}

/// The mathematical value of a `DeleteStatement`.
pub struct DeleteModel {
    pub table: Seq<char>,
    pub where_clause: Option<WhereModel>,
}

impl View for DeleteStatement {
    type V = DeleteModel;

    open spec fn view(&self) -> DeleteModel {
        DeleteModel { table: self.table@, where_clause: where_view(self.where_clause) }
    }
}

/// The mathematical value of a `CreateTableStatement`.
pub struct CreateTableModel {
    pub table: Seq<char>,
    pub columns: Seq<(Seq<char>, Seq<char>)>,
}

impl View for CreateTableStatement {
    type V = CreateTableModel;

    open spec fn view(&self) -> CreateTableModel {
        CreateTableModel { table: self.table@, columns: pair_views(self.columns@) }
    }
}

/// The mathematical value of an `AlterAction`.
pub enum AlterActionModel {
    AddColumn(Seq<char>),
    DropColumn(Seq<char>),
    ModifyColumn(Seq<char>, Seq<char>),
}

impl View for AlterAction {
    type V = AlterActionModel;

    open spec fn view(&self) -> AlterActionModel {
        match self {
            AlterAction::AddColumn(column) => AlterActionModel::AddColumn(column@),
            AlterAction::DropColumn(column) => AlterActionModel::DropColumn(column@),
            AlterAction::ModifyColumn(column, kind) => AlterActionModel::ModifyColumn(column@, kind@),
        }
    }
}

/// The mathematical value of an `AlterTableStatement`.
pub struct AlterTableModel {
    pub table: Seq<char>,
    pub action: AlterActionModel,
}

impl View for AlterTableStatement {
    type V = AlterTableModel;

    open spec fn view(&self) -> AlterTableModel {
        AlterTableModel { table: self.table@, action: self.action@ }
    }
}

/// The mathematical value of a `DropTableStatement`.
pub struct DropTableModel {
    pub table: Seq<char>,
}

impl View for DropTableStatement {
    type V = DropTableModel;

    open spec fn view(&self) -> DropTableModel {
        DropTableModel { table: self.table@ }
    }
}

/// The mathematical value of an `SQLStatement`.
pub enum StatementModel {
    Select(SelectModel),
    Insert(InsertModel),
    Update(UpdateModel),
    Delete(DeleteModel),
    CreateTable(CreateTableModel),
    AlterTable(AlterTableModel),
    DropTable(DropTableModel),
}

impl View for SQLStatement {
    type V = StatementModel;

    open spec fn view(&self) -> StatementModel {
        match self {
            SQLStatement::Select(s) => StatementModel::Select(s@),
            SQLStatement::Insert(s) => StatementModel::Insert(s@),
            SQLStatement::Update(s) => StatementModel::Update(s@),
            SQLStatement::Delete(s) => StatementModel::Delete(s@),
            SQLStatement::CreateTable(s) => StatementModel::CreateTable(s@),
            SQLStatement::AlterTable(s) => StatementModel::AlterTable(s@),
            SQLStatement::DropTable(s) => StatementModel::DropTable(s@),
        }
    }
}

} // verus!
