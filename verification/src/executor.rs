use vstd::prelude::*;
use vstd::string::StringExecFns;
use crate::ast::{
    AlterAction, AlterTableStatement, CreateTableStatement, DeleteStatement, DropTableStatement,
    InsertStatement, SQLStatement, SelectStatement, UpdateStatement,
};
use crate::error::{frame, framed, ErrorModel, ExecError};
use crate::filter::{
    judge_rows, judgement_views, judgements_or_keep, keep_count, pending, settle, Judgement,
    JudgementModel, Stop, StopModel,
};
use crate::json::zip_map;
use crate::keys::{
    ascending, find_key, key_seq, keyed_map, lemma_keyed_map_item, remove_key, upsert, Keyed,
};
use crate::numeric::{FactsModel, NumberFacts};
use crate::persistent_executor::{assign, zip_row};
use crate::row::{copy_rows, row_views, Row};
use crate::select::{run_select, select_result};
use crate::statements::{
    assigned, first_misfit, lemma_first_misfit, misfit, reply_of, schema_violation, Reply,
};
use crate::text::{decimal, pair_views, push_decimal, text_views, tuple_views};

verus! {

/// A table that lives in memory only: its name and its rows, in the order in
/// which they were inserted.
#[derive(Debug)]
pub struct MemoryTable {
    name: String,
    rows: Vec<Row>,
}

impl Keyed for MemoryTable {
    closed spec fn key_view(&self) -> Seq<char> {
        self.name@
    }

    fn key_text(&self) -> (key: &str) {
        self.name.as_str()
    }
}

/// The tables as the map from name to rows.
pub closed spec fn memory_map(tables: Seq<MemoryTable>) -> Map<Seq<char>, Seq<Map<Seq<char>, Seq<char>>>> {
    Map::new(
        |name: Seq<char>| keyed_map(tables).contains_key(name),
        |name: Seq<char>| row_views(keyed_map(tables)[name].rows@),
    )
}

/// The error of a left table that is not there.
pub open spec fn left_table_missing(name: Seq<char>, joins: bool) -> ErrorModel {
    if joins {
        ErrorModel::NotFound(framed("Left table '"@, name, "' not found"@))
    } else {
        ErrorModel::NotFound(framed("Table '"@, name, "' not found"@))
    }
}

/// The rows that the tuples of an INSERT make, one for each, in order.
pub open spec fn zipped(columns: Seq<Seq<char>>, tuples: Seq<Seq<Seq<char>>>) -> Seq<
    Map<Seq<char>, Seq<char>>,
> {
    Seq::new(tuples.len(), |i: int| zip_map(columns, tuples[i]))
}

/// The rows with the assignments carried out on each row that is kept.
pub open spec fn rewritten(
    rows: Seq<Map<Seq<char>, Seq<char>>>,
    judgements: Seq<JudgementModel>,
    assignments: Seq<(Seq<char>, Seq<char>)>,
) -> Seq<Map<Seq<char>, Seq<char>>> {
    Seq::new(
        rows.len(),
        |i: int|
            if judgements[i] is Keep {
                assigned(rows[i], assignments)
            } else {
                rows[i]
            },
    )
}

/// The rows that the judgements do not keep, in order.
pub open spec fn spared(rows: Seq<Map<Seq<char>, Seq<char>>>, judgements: Seq<JudgementModel>) -> Seq<
    Map<Seq<char>, Seq<char>>,
>
    recommends
        rows.len() == judgements.len(),
    decreases rows.len(),
{
    if rows.len() == 0 || judgements.len() != rows.len() {
        Seq::empty()
    } else if judgements.last() is Keep {
        spared(rows.drop_last(), judgements.drop_last())
    } else {
        spared(rows.drop_last(), judgements.drop_last()).push(rows.last())
    }
}

/// The rows after an ALTER TABLE: a column that is added holds the empty
/// text in every row, a column that is dropped leaves every row.
pub open spec fn altered(rows: Seq<Map<Seq<char>, Seq<char>>>, action: AlterAction) -> Seq<
    Map<Seq<char>, Seq<char>>,
> {
    match action {
        AlterAction::AddColumn(column) => Seq::new(
            rows.len(),
            |i: int| rows[i].insert(column@, Seq::<char>::empty()),
        ),
        AlterAction::DropColumn(column) => Seq::new(rows.len(), |i: int| rows[i].remove(column@)),
        AlterAction::ModifyColumn(_, _) => rows,
    }
}

/// What an ALTER TABLE answers.
pub open spec fn altered_text(stmt: AlterTableStatement) -> Seq<char> {
    match stmt.action {
        AlterAction::AddColumn(column) => " Added column '"@ + column@ + "' to '"@ + stmt.table@ + "'"@,
        AlterAction::DropColumn(column) => " Dropped column '"@ + column@ + "' from '"@ + stmt.table@
            + "'"@,
        AlterAction::ModifyColumn(column, kind) => " Modified column '"@ + column@ + "' to '"@ + kind@
            + "' in '"@ + stmt.table@ + "'"@,
    }
}

/// The state of a database in memory: the rows of each table, by table name.
pub struct MemoryModel {
    pub tables: Map<Seq<char>, Seq<Map<Seq<char>, Seq<char>>>>,
}

impl MemoryModel {
    /// What a SELECT gives. No columns are recorded, so `*` shows the columns
    /// of the first row.
    pub open spec fn select(self, stmt: SelectStatement, facts: FactsModel) -> Result<
        Seq<char>,
        StopModel,
    > {
        if !self.tables.contains_key(stmt.table@) {
            Err(StopModel::Failed(left_table_missing(stmt.table@, stmt.join is Some)))
        } else {
            match stmt.join {
                None => select_result(self.tables[stmt.table@], Seq::empty(), stmt, None, facts),
                Some(join) => if !self.tables.contains_key(join.table@) {
                    Err(
                        StopModel::Failed(
                            ErrorModel::NotFound(framed("Right table '"@, join.table@, "' not found"@)),
                        ),
                    )
                } else {
                    select_result(
                        self.tables[stmt.table@],
                        self.tables[join.table@],
                        stmt,
                        None,
                        facts,
                    )
                },
            }
        }
    }

    /// The rows of `table`; none where the table is not there.
    pub open spec fn rows_or_none(self, table: Seq<char>) -> Seq<Map<Seq<char>, Seq<char>>> {
        if self.tables.contains_key(table) {
            self.tables[table]
        } else {
            Seq::empty()
        }
    }

    /// What an INSERT does: the table is made where it is not there, and
    /// each tuple in turn becomes a row behind those that the table holds,
    /// up to the first tuple that has not as many values as there are
    /// columns. Such a tuple stops the statement with an error: the rows of
    /// the tuples before it stay, and neither it nor any tuple behind it
    /// becomes a row.
    pub open spec fn insert(self, stmt: InsertStatement) -> (MemoryModel, Result<Seq<char>, StopModel>) {
        let columns = text_views(stmt.columns@);
        let tuples = tuple_views(stmt.values@);
        (
            MemoryModel {
                tables: self.tables.insert(
                    stmt.table@,
                    self.rows_or_none(stmt.table@) + zipped(columns, tuples).subrange(
                        0,
                        first_misfit(columns, tuples) as int,
                    ),
                ),
            },
            if first_misfit(columns, tuples) < tuples.len() {
                Err(StopModel::Failed(schema_violation()))
            } else {
                Ok(" Insert successful"@)
            },
        )
    }

    /// What an UPDATE does: nothing where the table is not there or the
    /// condition cannot be decided of every row; else the assignments are
    /// carried out on each row that the condition keeps.
    pub open spec fn update(self, stmt: UpdateStatement, facts: FactsModel) -> (
        MemoryModel,
        Result<Seq<char>, StopModel>,
    ) {
        if !self.tables.contains_key(stmt.table@) {
            (self, Err(StopModel::Failed(left_table_missing(stmt.table@, false))))
        } else {
            let rows = self.tables[stmt.table@];
            let judgements = judgements_or_keep(rows, stmt.where_clause, facts);
            match pending(judgements) {
                Some(stop) => (self, Err(stop)),
                None => (
                    MemoryModel {
                        tables: self.tables.insert(
                            stmt.table@,
                            rewritten(rows, judgements, pair_views(stmt.assignments@)),
                        ),
                    },
                    Ok(" Updated "@ + decimal(keep_count(judgements, judgements.len())) + " row(s)"@),
                ),
            }
        }
    }

    /// What a DELETE does: nothing where the table is not there or the
    /// condition cannot be decided of every row; else each row that the
    /// condition keeps leaves the table.
    pub open spec fn delete(self, stmt: DeleteStatement, facts: FactsModel) -> (
        MemoryModel,
        Result<Seq<char>, StopModel>,
    ) {
        if !self.tables.contains_key(stmt.table@) {
            (self, Err(StopModel::Failed(left_table_missing(stmt.table@, false))))
        } else {
            let rows = self.tables[stmt.table@];
            let judgements = judgements_or_keep(rows, stmt.where_clause, facts);
            match pending(judgements) {
                Some(stop) => (self, Err(stop)),
                None => (
                    MemoryModel { tables: self.tables.insert(stmt.table@, spared(rows, judgements)) },
                    Ok("🗑️ Deleted "@ + decimal(keep_count(judgements, judgements.len())) + " row(s)"@),
                ),
            }
        }
    }

    /// What a CREATE TABLE does: a table that is there already is an error;
    /// else the table is made, without rows.
    pub open spec fn create_table(self, stmt: CreateTableStatement) -> (
        MemoryModel,
        Result<Seq<char>, StopModel>,
    ) {
        if self.tables.contains_key(stmt.table@) {
            (
                self,
                Err(
                    StopModel::Failed(
                        ErrorModel::AlreadyExists(framed("Table '"@, stmt.table@, "' already exists"@)),
                    ),
                ),
            )
        } else {
            (
                MemoryModel { tables: self.tables.insert(stmt.table@, Seq::empty()) },
                Ok(framed(" Created table '"@, stmt.table@, "'"@)),
            )
        }
    }

    /// What an ALTER TABLE does: the table must be there; its rows gain or
    /// lose the column.
    pub open spec fn alter_table(self, stmt: AlterTableStatement) -> (
        MemoryModel,
        Result<Seq<char>, StopModel>,
    ) {
        if !self.tables.contains_key(stmt.table@) {
            (self, Err(StopModel::Failed(left_table_missing(stmt.table@, false))))
        } else {
            (
                MemoryModel {
                    tables: self.tables.insert(stmt.table@, altered(self.tables[stmt.table@], stmt.action)),
                },
                Ok(altered_text(stmt)),
            )
        }
    }

    /// What a DROP TABLE does: the table leaves the database; a table that
    /// is not there is an error.
    pub open spec fn drop_table(self, stmt: DropTableStatement) -> (
        MemoryModel,
        Result<Seq<char>, StopModel>,
    ) {
        if !self.tables.contains_key(stmt.table@) {
            (
                self,
                Err(
                    StopModel::Failed(
                        ErrorModel::NotFound(framed("Table '"@, stmt.table@, "' does not exist"@)),
                    ),
                ),
            )
        } else {
            (
                MemoryModel { tables: self.tables.remove(stmt.table@) },
                Ok(framed("🗑️ Dropped table '"@, stmt.table@, "'"@)),
            )
        }
    }

    /// What a statement does, given the answers `facts`.
    pub open spec fn executed(self, stmt: SQLStatement, facts: FactsModel) -> (
        MemoryModel,
        Result<Seq<char>, StopModel>,
    ) {
        match stmt {
            SQLStatement::Select(s) => (self, self.select(s, facts)),
            SQLStatement::Insert(s) => self.insert(s),
            SQLStatement::Update(s) => self.update(s, facts),
            SQLStatement::Delete(s) => self.delete(s, facts),
            SQLStatement::CreateTable(s) => self.create_table(s),
            SQLStatement::AlterTable(s) => self.alter_table(s),
            SQLStatement::DropTable(s) => self.drop_table(s),
        }
    }
}

/// The query engine over tables that live in memory only.
#[derive(Debug)]
pub struct Database {
    tables: Vec<MemoryTable>,
}

impl View for Database {
    type V = MemoryModel;

    closed spec fn view(&self) -> MemoryModel {
        MemoryModel { tables: memory_map(self.tables@) }
    }
}

impl Database {
    /// The catalog is in order and every row is sound.
    pub closed spec fn wf(&self) -> bool {
        &&& ascending(key_seq(self.tables@))
        &&& forall|t: int, i: int|
            0 <= t < self.tables.len() && 0 <= i < self.tables[t].rows.len() ==> (
            #[trigger] self.tables[t].rows[i]).wf()
    }

    /// A database without tables.
    pub fn new() -> (db: Self)
        ensures
            db.wf(),
            db@.tables == Map::<Seq<char>, Seq<Map<Seq<char>, Seq<char>>>>::empty(),
    {
        let db = Database { tables: Vec::new() };
        proof {
            assert(key_seq(db.tables@) =~= Seq::<Seq<char>>::empty());
            assert(db@.tables =~= Map::<Seq<char>, Seq<Map<Seq<char>, Seq<char>>>>::empty());
        }
        db
    }

    /// Where `table` stands in the catalog, if it is there.
    fn find_table(&self, table: &str) -> (found: Option<usize>)
        requires
            self.wf(),
        ensures
            match found {
                Some(at) => at < self.tables.len() && self@.tables.contains_key(table@)
                    && self@.tables[table@] == row_views(self.tables[at as int].rows@)
                    && self.tables[at as int].name@ == table@,
                None => !self@.tables.contains_key(table@),
            },
    {
        match find_key(&self.tables, table) {
            Some(at) => {
                proof {
                    lemma_keyed_map_item(self.tables@, at as int);
                }
                Some(at)
            },
            None => None,
        }
    }

    /// Puts `rows` in place of the rows of `table`, making the table where it
    /// is not there.
    fn put_rows(&mut self, table: &str, rows: Vec<Row>)
        requires
            old(self).wf(),
            forall|i: int| 0 <= i < rows.len() ==> (#[trigger] rows[i]).wf(),
        ensures
            final(self).wf(),
            final(self)@.tables == old(self)@.tables.insert(table@, row_views(rows@)),
    {
        let ghost before = self.tables@;
        let entry = MemoryTable { name: table.to_owned(), rows };
        let at = upsert(&mut self.tables, entry);
        proof {
            assert(self@.tables =~= old(self)@.tables.insert(table@, row_views(rows@))) by {
                assert forall|k: Seq<char>| memory_map(self.tables@).contains_key(k) <==> memory_map(
                    before,
                ).insert(table@, row_views(rows@)).contains_key(k) by {
                    assert(keyed_map(self.tables@).contains_key(k) <==> (k == table@ || keyed_map(
                        before,
                    ).contains_key(k)));
                }
            }
            assert forall|t: int, i: int|
                0 <= t < self.tables.len() && 0 <= i < self.tables[t].rows.len() implies (
            #[trigger] self.tables[t].rows[i]).wf() by {
                if t != at {
                    if key_seq(before).contains(entry.key_view()) {
                        assert(self.tables[t] == before[t]);
                    } else if t < at {
                        assert(self.tables[t] == before[t]);
                    } else {
                        assert(self.tables[t] == before[t - 1]);
                    }
                }
            }
        }
    }

    /// Carries out a SELECT.
    pub fn execute_select(&self, stmt: &SelectStatement, facts: &NumberFacts) -> (outcome: Result<
        String,
        Stop,
    >)
        requires
            self.wf(),
        ensures
            match outcome {
                Ok(text) => self@.select(*stmt, facts@) == Ok::<Seq<char>, StopModel>(text@),
                Err(stop) => self@.select(*stmt, facts@) == Err::<Seq<char>, StopModel>(stop@),
            },
    {
        let left = match self.find_table(stmt.table.as_str()) {
            Some(at) => at,
            None => {
                let message = match &stmt.join {
                    Some(_) => frame("Left table '", stmt.table.as_str(), "' not found"),
                    None => frame("Table '", stmt.table.as_str(), "' not found"),
                };
                return Err(Stop::Failed(ExecError::NotFound(message)));
            },
        };
        let lefts = copy_rows(&self.tables[left].rows);
        match &stmt.join {
            None => {
                let rights: Vec<Row> = Vec::new();
                assert(row_views(rights@) =~= Seq::<Map<Seq<char>, Seq<char>>>::empty());
                run_select(lefts, &rights, stmt, None, facts)
            },
            Some(join) => match self.find_table(join.table.as_str()) {
                None => Err(
                    Stop::Failed(
                        ExecError::NotFound(frame("Right table '", join.table.as_str(), "' not found")),
                    ),
                ),
                Some(right) => run_select(lefts, &self.tables[right].rows, stmt, None, facts),
            },
        }
    }

    /// Carries out an INSERT.
    pub fn execute_insert(&mut self, stmt: &InsertStatement) -> (outcome: Result<String, Stop>)
        requires
            old(self).wf(),
        ensures
            final(self).wf(),
            final(self)@ == old(self)@.insert(*stmt).0,
            match outcome {
                Ok(text) => old(self)@.insert(*stmt).1 == Ok::<Seq<char>, StopModel>(text@),
                Err(stop) => old(self)@.insert(*stmt).1 == Err::<Seq<char>, StopModel>(stop@),
            },
    {
        let mut rows = match self.find_table(stmt.table.as_str()) {
            Some(at) => copy_rows(&self.tables[at].rows),
            None => Vec::new(),
        };
        let ghost start = row_views(rows@);
        let ghost columns = text_views(stmt.columns@);
        let ghost tuples = tuple_views(stmt.values@);
        assert(start =~= old(self)@.rows_or_none(stmt.table@));
        assert(start + zipped(columns, tuples).subrange(0, 0) =~= start);
        let mut stopped = false;
        let mut i: usize = 0;
        while i < stmt.values.len() && !stopped
            invariant
                i <= stmt.values.len(),
                columns == text_views(stmt.columns@),
                tuples == tuple_views(stmt.values@),
                forall|k: int| 0 <= k < rows.len() ==> (#[trigger] rows[k]).wf(),
                forall|k: int| 0 <= k < i ==> !misfit(columns, tuples, k),
                stopped ==> misfit(columns, tuples, i as int),
                row_views(rows@) == start + zipped(columns, tuples).subrange(0, i as int),
            decreases stmt.values.len() - i + if stopped { 0nat } else { 1nat },
        {
            assert(tuples[i as int] == text_views(stmt.values[i as int]@));
            if stmt.values[i].len() != stmt.columns.len() {
                stopped = true;
            } else {
                let ghost before = row_views(rows@);
                let row = zip_row(&stmt.columns, &stmt.values[i]);
                rows.push(row);
                assert(row_views(rows@) =~= before.push(row@));
                assert(zipped(columns, tuples).subrange(0, i + 1) =~= zipped(columns, tuples).subrange(
                    0,
                    i as int,
                ).push(row@));
                assert(row_views(rows@) =~= start + zipped(columns, tuples).subrange(0, i + 1));
                i = i + 1;
            }
        }
        proof {
            lemma_first_misfit(columns, tuples, i as int);
        }
        self.put_rows(stmt.table.as_str(), rows);
        assert(self@ == old(self)@.insert(*stmt).0);
        if stopped {
            Err(
                Stop::Failed(ExecError::SchemaViolation("Column count does not match value count".to_owned())),
            )
        } else {
            Ok(" Insert successful".to_owned())
        }
    }

    /// Carries out an UPDATE.
    pub fn execute_update(&mut self, stmt: &UpdateStatement, facts: &NumberFacts) -> (outcome: Result<
        String,
        Stop,
    >)
        requires
            old(self).wf(),
        ensures
            final(self).wf(),
            final(self)@ == old(self)@.update(*stmt, facts@).0,
            match outcome {
                Ok(text) => old(self)@.update(*stmt, facts@).1 == Ok::<Seq<char>, StopModel>(text@),
                Err(stop) => old(self)@.update(*stmt, facts@).1 == Err::<Seq<char>, StopModel>(stop@),
            },
    {
        let at = match self.find_table(stmt.table.as_str()) {
            Some(at) => at,
            None => {
                return Err(
                    Stop::Failed(ExecError::NotFound(frame("Table '", stmt.table.as_str(), "' not found"))),
                );
            },
        };
        let judgements = judge_rows(&self.tables[at].rows, &stmt.where_clause, facts);
        match settle(&judgements) {
            Some(stop) => {
                return Err(stop);
            },
            None => {},
        }
        let ghost rows = row_views(self.tables[at as int].rows@);
        let ghost verdicts = judgement_views(judgements@);
        let ghost changes = pair_views(stmt.assignments@);
        let mut changed: Vec<Row> = Vec::new();
        let mut count: usize = 0;
        let mut i: usize = 0;
        while i < self.tables[at].rows.len()
            invariant
                i <= self.tables[at as int].rows.len(),
                at < self.tables.len(),
                self.wf(),
                judgements.len() == self.tables[at as int].rows.len(),
                rows == row_views(self.tables[at as int].rows@),
                verdicts == judgement_views(judgements@),
                changes == pair_views(stmt.assignments@),
                changed.len() == i,
                count == keep_count(verdicts, i as nat),
                count <= i,
                forall|k: int| 0 <= k < i ==> (#[trigger] changed[k]).wf() && changed[k]@ == rewritten(
                    rows,
                    verdicts,
                    changes,
                )[k],
            decreases self.tables[at as int].rows.len() - i,
        {
            assert(verdicts[i as int] == judgements[i as int]@);
            assert(rows[i as int] == self.tables[at as int].rows[i as int]@);
            let keep = match &judgements[i] {
                Judgement::Keep => true,
                _ => false,
            };
            if keep {
                changed.push(assign(&self.tables[at].rows[i], &stmt.assignments));
                count = count + 1;
            } else {
                changed.push(self.tables[at].rows[i].clone());
            }
            i = i + 1;
        }
        assert(row_views(changed@) =~= rewritten(rows, verdicts, changes));
        self.put_rows(stmt.table.as_str(), changed);
        assert(self@ == old(self)@.update(*stmt, facts@).0);
        let mut text = " Updated ".to_owned();
        push_decimal(&mut text, count as u64);
        text.append(" row(s)");
        assert(text@ =~= " Updated "@ + decimal(keep_count(verdicts, verdicts.len())) + " row(s)"@);
        Ok(text)
    }

    /// Carries out a DELETE.
    pub fn execute_delete(&mut self, stmt: &DeleteStatement, facts: &NumberFacts) -> (outcome: Result<
        String,
        Stop,
    >)
        requires
            old(self).wf(),
        ensures
            final(self).wf(),
            final(self)@ == old(self)@.delete(*stmt, facts@).0,
            match outcome {
                Ok(text) => old(self)@.delete(*stmt, facts@).1 == Ok::<Seq<char>, StopModel>(text@),
                Err(stop) => old(self)@.delete(*stmt, facts@).1 == Err::<Seq<char>, StopModel>(stop@),
            },
    {
        let at = match self.find_table(stmt.table.as_str()) {
            Some(at) => at,
            None => {
                return Err(
                    Stop::Failed(ExecError::NotFound(frame("Table '", stmt.table.as_str(), "' not found"))),
                );
            },
        };
        let judgements = judge_rows(&self.tables[at].rows, &stmt.where_clause, facts);
        match settle(&judgements) {
            Some(stop) => {
                return Err(stop);
            },
            None => {},
        }
        let ghost rows = row_views(self.tables[at as int].rows@);
        let ghost verdicts = judgement_views(judgements@);
        let mut left: Vec<Row> = Vec::new();
        let mut count: usize = 0;
        let mut i: usize = 0;
        proof {
            assert(rows.subrange(0, 0) =~= Seq::<Map<Seq<char>, Seq<char>>>::empty());
            assert(verdicts.subrange(0, 0) =~= Seq::<JudgementModel>::empty());
            assert(row_views(left@) =~= Seq::<Map<Seq<char>, Seq<char>>>::empty());
        }
        while i < self.tables[at].rows.len()
            invariant
                i <= self.tables[at as int].rows.len(),
                at < self.tables.len(),
                self.wf(),
                judgements.len() == self.tables[at as int].rows.len(),
                rows == row_views(self.tables[at as int].rows@),
                verdicts == judgement_views(judgements@),
                count == keep_count(verdicts, i as nat),
                count <= i,
                forall|k: int| 0 <= k < left.len() ==> (#[trigger] left[k]).wf(),
                row_views(left@) == spared(rows.subrange(0, i as int), verdicts.subrange(0, i as int)),
            decreases self.tables[at as int].rows.len() - i,
        {
            let ghost before = row_views(left@);
            proof {
                assert(verdicts[i as int] == judgements[i as int]@);
                assert(rows[i as int] == self.tables[at as int].rows[i as int]@);
                assert(rows.subrange(0, i + 1).drop_last() =~= rows.subrange(0, i as int));
                assert(verdicts.subrange(0, i + 1).drop_last() =~= verdicts.subrange(0, i as int));
                assert(rows.subrange(0, i + 1).last() == rows[i as int]);
                assert(verdicts.subrange(0, i + 1).last() == verdicts[i as int]);
            }
            let keep = match &judgements[i] {
                Judgement::Keep => true,
                _ => false,
            };
            if keep {
                count = count + 1;
            } else {
                left.push(self.tables[at].rows[i].clone());
                assert(row_views(left@) =~= before.push(rows[i as int]));
            }
            i = i + 1;
        }
        proof {
            assert(rows.subrange(0, rows.len() as int) =~= rows);
            assert(verdicts.subrange(0, verdicts.len() as int) =~= verdicts);
        }
        self.put_rows(stmt.table.as_str(), left);
        assert(self@ == old(self)@.delete(*stmt, facts@).0);
        let mut text = "🗑️ Deleted ".to_owned();
        push_decimal(&mut text, count as u64);
        text.append(" row(s)");
        assert(text@ =~= "🗑️ Deleted "@ + decimal(keep_count(verdicts, verdicts.len())) + " row(s)"@);
        Ok(text)
    }

    /// Carries out a CREATE TABLE.
    pub fn execute_create_table(&mut self, stmt: &CreateTableStatement) -> (outcome: Result<String, Stop>)
        requires
            old(self).wf(),
        ensures
            final(self).wf(),
            final(self)@ == old(self)@.create_table(*stmt).0,
            match outcome {
                Ok(text) => old(self)@.create_table(*stmt).1 == Ok::<Seq<char>, StopModel>(text@),
                Err(stop) => old(self)@.create_table(*stmt).1 == Err::<Seq<char>, StopModel>(stop@),
            },
    {
        match self.find_table(stmt.table.as_str()) {
            Some(_) => Err(
                Stop::Failed(
                    ExecError::AlreadyExists(frame("Table '", stmt.table.as_str(), "' already exists")),
                ),
            ),
            None => {
                let rows: Vec<Row> = Vec::new();
                assert(row_views(rows@) =~= Seq::<Map<Seq<char>, Seq<char>>>::empty());
                self.put_rows(stmt.table.as_str(), rows);
                assert(self@ == old(self)@.create_table(*stmt).0);
                Ok(frame(" Created table '", stmt.table.as_str(), "'"))
            },
        }
    }

    /// Carries out an ALTER TABLE.
    pub fn execute_alter_table(&mut self, stmt: &AlterTableStatement) -> (outcome: Result<String, Stop>)
        requires
            old(self).wf(),
        ensures
            final(self).wf(),
            final(self)@ == old(self)@.alter_table(*stmt).0,
            match outcome {
                Ok(text) => old(self)@.alter_table(*stmt).1 == Ok::<Seq<char>, StopModel>(text@),
                Err(stop) => old(self)@.alter_table(*stmt).1 == Err::<Seq<char>, StopModel>(stop@),
            },
    {
        let at = match self.find_table(stmt.table.as_str()) {
            Some(at) => at,
            None => {
                return Err(
                    Stop::Failed(ExecError::NotFound(frame("Table '", stmt.table.as_str(), "' not found"))),
                );
            },
        };
        let ghost rows = row_views(self.tables[at as int].rows@);
        let mut changed: Vec<Row> = Vec::new();
        let mut i: usize = 0;
        while i < self.tables[at].rows.len()
            invariant
                i <= self.tables[at as int].rows.len(),
                at < self.tables.len(),
                self.wf(),
                rows == row_views(self.tables[at as int].rows@),
                changed.len() == i,
                forall|k: int| 0 <= k < i ==> (#[trigger] changed[k]).wf() && changed[k]@ == altered(
                    rows,
                    stmt.action,
                )[k],
            decreases self.tables[at as int].rows.len() - i,
        {
            assert(rows[i as int] == self.tables[at as int].rows[i as int]@);
            let mut row = self.tables[at].rows[i].clone();
            match &stmt.action {
                AlterAction::AddColumn(column) => {
                    row.insert(column.clone(), String::new());
                },
                AlterAction::DropColumn(column) => {
                    row.remove(column.as_str());
                },
                AlterAction::ModifyColumn(_, _) => {},
            }
            changed.push(row);
            i = i + 1;
        }
        assert(row_views(changed@) =~= altered(rows, stmt.action));
        self.put_rows(stmt.table.as_str(), changed);
        assert(self@ == old(self)@.alter_table(*stmt).0);
        let mut text = String::new();
        match &stmt.action {
            AlterAction::AddColumn(column) => {
                text.append(" Added column '");
                text.append(column.as_str());
                text.append("' to '");
            },
            AlterAction::DropColumn(column) => {
                text.append(" Dropped column '");
                text.append(column.as_str());
                text.append("' from '");
            },
            AlterAction::ModifyColumn(column, kind) => {
                text.append(" Modified column '");
                text.append(column.as_str());
                text.append("' to '");
                text.append(kind.as_str());
                text.append("' in '");
            },
        }
        text.append(stmt.table.as_str());
        text.append("'");
        assert(text@ =~= altered_text(*stmt));
        Ok(text)
    }

    /// Carries out a DROP TABLE.
    pub fn execute_drop_table(&mut self, stmt: &DropTableStatement) -> (outcome: Result<String, Stop>)
        requires
            old(self).wf(),
        ensures
            final(self).wf(),
            final(self)@ == old(self)@.drop_table(*stmt).0,
            match outcome {
                Ok(text) => old(self)@.drop_table(*stmt).1 == Ok::<Seq<char>, StopModel>(text@),
                Err(stop) => old(self)@.drop_table(*stmt).1 == Err::<Seq<char>, StopModel>(stop@),
            },
    {
        let ghost before = self.tables@;
        match remove_key(&mut self.tables, stmt.table.as_str()) {
            None => Err(
                Stop::Failed(
                    ExecError::NotFound(frame("Table '", stmt.table.as_str(), "' does not exist")),
                ),
            ),
            Some(_) => {
                proof {
                    assert(self@.tables =~= old(self)@.tables.remove(stmt.table@)) by {
                        assert forall|k: Seq<char>| memory_map(self.tables@).contains_key(k)
                            <==> memory_map(before).remove(stmt.table@).contains_key(k) by {
                            assert(keyed_map(self.tables@).contains_key(k) <==> (k != stmt.table@
                                && keyed_map(before).contains_key(k)));
                        }
                    }
                    let gone = choose|gone: int|
                        0 <= gone < before.len() && self.tables@ == #[trigger] before.remove(gone);
                    assert forall|t: int, i: int|
                        0 <= t < self.tables.len() && 0 <= i < self.tables[t].rows.len() implies (
                    #[trigger] self.tables[t].rows[i]).wf() by {
                        let t0 = if t < gone { t } else { t + 1 };
                        assert(self.tables[t] == before[t0]);
                    }
                }
                Ok(frame("🗑️ Dropped table '", stmt.table.as_str(), "'"))
            },
        }
    }

    /// Carries out `stmt`, given the answers `facts` to numeric questions.
    /// Where the statement needs an answer that `facts` lacks, nothing is
    /// changed and the questions are handed back.
    pub fn execute(&mut self, stmt: SQLStatement, facts: &NumberFacts) -> (reply: Reply)
        requires
            old(self).wf(),
        ensures
            final(self).wf(),
            final(self)@ == old(self)@.executed(stmt, facts@).0,
            reply@ == reply_of(old(self)@.executed(stmt, facts@).1),
            reply is Needs ==> final(self)@ == old(self)@,
    {
        let outcome = match &stmt {
            SQLStatement::Select(s) => self.execute_select(s, facts),
            SQLStatement::Insert(s) => self.execute_insert(s),
            SQLStatement::Update(s) => self.execute_update(s, facts),
            SQLStatement::Delete(s) => self.execute_delete(s, facts),
            SQLStatement::CreateTable(s) => self.execute_create_table(s),
            SQLStatement::AlterTable(s) => self.execute_alter_table(s),
            SQLStatement::DropTable(s) => self.execute_drop_table(s),
        };
        match outcome {
            Ok(text) => Reply::Done(Ok(text)),
            Err(Stop::Failed(error)) => Reply::Done(Err(error)),
            Err(Stop::Needs(queries)) => Reply::Needs(queries),
        }
    }
}

} // verus!
