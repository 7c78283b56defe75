use vstd::prelude::*;
use vstd::string::StringExecFns;
use crate::ast::{
    AlterAction, AlterTableStatement, CreateTableStatement, DeleteStatement, DropTableStatement,
    InsertStatement, SQLStatement, SelectStatement, UpdateStatement,
};
use crate::catalog::{
    lemma_log_map_insert, lemma_log_map_remove, lemma_schema_map_insert,
    lemma_schema_map_remove, lemma_table_map_insert, lemma_table_map_remove,
    lemma_table_map_update, log_map, schema_map, stored_keys, stored_rows, table_map,
    table_rows, DatabaseModel, DirLog, SchemaEntry, TableEntry,
};
use crate::clock::now_millis;
use crate::disk::{join_path, op_views, path_in, DiskOp, DiskOpModel};
use crate::engine::LSMStorage;
use crate::entry::{entry_views, present_entry, tombstone, EntryModel, StorageEntry};
use crate::error::{frame, ErrorModel, ExecError};
use crate::filter::{judge_rows, judgement_views, keep_count, settle, Judgement, Stop, StopModel};
use crate::format::schema_view;
use crate::json::{json_object, read_array, write_array, zip_map};
use crate::keys::{
    ascending, find_key, key_seq, keyed_map, lemma_keyed_map_item, remove_key, upsert, Keyed,
};
use crate::model::{EngineModel, SSTABLE_FANOUT};
use crate::numeric::{FactsModel, NumberFacts};
use crate::row::{decoded_row, row_views, Row};
use crate::select::run_select;
use crate::statements::{
    alter_text, assigned, declared_names, delete_run, found_logs, free_number, fresh_key,
    fresh_number, insert_run, law_fresh_key_is_new, lemma_first_misfit, misfit, reply_of,
    schema_decode_error, started, startup_run, storage_key, table_of_schema_dir, update_run,
    without_last, Boot, Execution, Reply, TableRun,
};
use crate::text::{
    decimal, pair_views, push_decimal, push_decimal_wide, text_views, tuple_views,
};

verus! {

/// The logs of `tables`, by table name.
pub open spec fn table_log_map(tables: Seq<TableEntry>) -> Map<Seq<char>, Seq<EntryModel>> {
    Map::new(
        |name: Seq<char>| keyed_map(tables).contains_key(name),
        |name: Seq<char>| keyed_map(tables)[name].storage@.log,
    )
}

/// The query engine over tables that are stored durably: a catalog of the
/// open tables with their storage engines and recorded columns.
#[derive(Debug)]
pub struct PersistentDatabase {
    data_dir: String,
    tables: Vec<TableEntry>,
    table_schemas: Vec<SchemaEntry>,
    dormant: Vec<DirLog>,
}

impl View for PersistentDatabase {
    type V = DatabaseModel;

    closed spec fn view(&self) -> DatabaseModel {
        DatabaseModel {
            dir: self.data_dir@,
            tables: table_map(self.tables@),
            schemas: schema_map(self.table_schemas@),
            dormant: log_map(self.dormant@),
        }
    }
}

/// The stored rows of a table with their storage keys, by ascending key.
pub fn read_rows(storage: &LSMStorage) -> (outcome: Result<(Vec<String>, Vec<Row>), ExecError>)
    requires
        storage.wf(),
    ensures
        match outcome {
            Ok((keys, rows)) => table_rows(storage@) == Ok::<
                Seq<Map<Seq<char>, Seq<char>>>,
                ErrorModel,
            >(row_views(rows@)) && text_views(keys@) == stored_keys(storage@.visible_pairs())
                && forall|i: int| 0 <= i < rows.len() ==> (#[trigger] rows[i]).wf(),
            Err(error) => table_rows(storage@) == Err::<Seq<Map<Seq<char>, Seq<char>>>, ErrorModel>(
                error@,
            ),
        },
{
    let pairs = storage.get_all();
    let ghost all = pair_views(pairs@);
    let mut keys: Vec<String> = Vec::new();
    let mut rows: Vec<Row> = Vec::new();
    let mut i: usize = 0;
    proof {
        assert(all.subrange(0, 0) =~= Seq::<(Seq<char>, Seq<char>)>::empty());
        assert(row_views(rows@) =~= Seq::<Map<Seq<char>, Seq<char>>>::empty());
    }
    while i < pairs.len()
        invariant
            i <= pairs.len(),
            all == pair_views(pairs@),
            all == storage@.visible_pairs(),
            keys.len() == i,
            forall|k: int| 0 <= k < i ==> (#[trigger] keys[k])@ == pairs[k].0@,
            forall|k: int| 0 <= k < rows.len() ==> (#[trigger] rows[k]).wf(),
            stored_rows(all.subrange(0, i as int)) == Ok::<Seq<Map<Seq<char>, Seq<char>>>, ErrorModel>(
                row_views(rows@),
            ),
        decreases pairs.len() - i,
    {
        let ghost next = all.subrange(0, i + 1);
        let ghost before = row_views(rows@);
        proof {
            assert(next.drop_last() =~= all.subrange(0, i as int));
            assert(next.last() == all[i as int]);
        }
        match Row::from_json(pairs[i].1.as_str()) {
            Ok(row) => {
                rows.push(row);
                assert(row_views(rows@) =~= before.push(row@));
            },
            Err(error) => {
                proof {
                    assert(all[i as int].1 == pairs[i as int].1@);
                    lemma_stored_rows_fail(all, i as int);
                    assert(storage@.visible_pairs() == all);
                }
                return Err(error);
            },
        }
        keys.push(pairs[i].0.clone());
        i = i + 1;
    }
    proof {
        assert(all.subrange(0, pairs.len() as int) =~= all);
        assert(text_views(keys@) =~= stored_keys(all));
    }
    Ok((keys, rows))
}

/// Where the first `n` values decode and the next one does not, its error
/// is the error of the whole.
pub proof fn lemma_stored_rows_fail(pairs: Seq<(Seq<char>, Seq<char>)>, n: int)
    requires
        0 <= n < pairs.len(),
        stored_rows(pairs.subrange(0, n)) is Ok,
        decoded_row(pairs[n].1) is Err,
    ensures
        stored_rows(pairs) == Err::<Seq<Map<Seq<char>, Seq<char>>>, ErrorModel>(
            decoded_row(pairs[n].1)->Err_0,
        ),
    decreases pairs.len(),
{
    if n == pairs.len() - 1 {
        assert(pairs.drop_last() =~= pairs.subrange(0, n));
    } else {
        assert(pairs.drop_last().subrange(0, n) =~= pairs.subrange(0, n));
        lemma_stored_rows_fail(pairs.drop_last(), n);
    }
}

impl PersistentDatabase {
    /// The catalog is in order, and each table's engine is sound, lies in the
    /// directory of its name, has its timestamps in step and can be had again
    /// from its log.
    pub closed spec fn wf(&self) -> bool {
        &&& ascending(key_seq(self.tables@))
        &&& ascending(key_seq(self.table_schemas@))
        &&& ascending(key_seq(self.dormant@))
        &&& forall|i: int|
            0 <= i < self.tables.len() ==> (#[trigger] self.tables[i]).storage.wf()
                && self.tables[i].storage@.dir == path_in(self.data_dir@, self.tables[i].name@)
                && self.tables[i].storage@.recoverable()
    }

    /// Every open table holds finitely many keys and no more runs than the
    /// fan-out, its timestamps are in step, it can be had again from its log,
    /// and its rows come in the strictly ascending order of their storage
    /// keys.
    pub proof fn lemma_tables(&self, name: Seq<char>)
        requires
            self.wf(),
            self@.tables.contains_key(name),
        ensures
            self@.tables[name].current().dom().finite(),
            self@.tables[name].in_step(),
            self@.tables[name].recoverable(),
            self@.tables[name].runs.len() <= SSTABLE_FANOUT,
            ascending(stored_keys(self@.tables[name].visible_pairs())),
    {
        let at = crate::keys::position(key_seq(self.tables@), name);
        self.lemma_table_at(at);
        self.tables[at].storage.lemma_holds_finitely();
        self.tables[at].storage.lemma_runs();
        crate::catalog::lemma_stored_keys_ascend(self@.tables[name]);
    }

    /// The engine at a place of the catalog is the engine of the table of
    /// that name.
    proof fn lemma_table_at(&self, at: int)
        requires
            self.wf(),
            0 <= at < self.tables.len(),
        ensures
            self@.tables.contains_key(self.tables[at].name@),
            self@.tables[self.tables[at].name@] == self.tables[at].storage@,
    {
        lemma_keyed_map_item(self.tables@, at);
        assert(self.tables[at].key_view() == self.tables[at].name@);
    }

    /// Where `table` stands in the catalog, if it is open.
    fn find_table(&self, table: &str) -> (found: Option<usize>)
        requires
            self.wf(),
        ensures
            match found {
                Some(at) => at < self.tables.len() && self@.tables.contains_key(table@)
                    && self@.tables[table@] == self.tables[at as int].storage@
                    && self.tables[at as int].name@ == table@,
                None => !self@.tables.contains_key(table@),
            },
    {
        match find_key(&self.tables, table) {
            Some(at) => {
                proof {
                    lemma_keyed_map_item(self.tables@, at as int);
                }
                Some(at)
            },
            None => None,
        }
    }

    /// The recorded columns of `table`, if any were recorded.
    fn find_schema(&self, table: &str) -> (found: Option<&Vec<String>>)
        requires
            self.wf(),
        ensures
            schema_view(found) == self@.schema_of(table@),
    {
        match find_key(&self.table_schemas, table) {
            Some(at) => {
                proof {
                    lemma_keyed_map_item(self.table_schemas@, at as int);
                }
                Some(&self.table_schemas[at].columns)
            },
            None => None,
        }
    }

    /// The rows of `table` with their storage keys.
    fn rows_of(&self, table: &str, missing: ExecError) -> (outcome: Result<
        (usize, Vec<String>, Vec<Row>),
        ExecError,
    >)
        requires
            self.wf(),
        ensures
            match outcome {
                Ok((at, keys, rows)) => self@.rows_of(table@, missing@) == Ok::<
                    Seq<Map<Seq<char>, Seq<char>>>,
                    StopModel,
                >(row_views(rows@)) && at < self.tables.len() && self.tables[at as int].name@ == table@
                    && self@.tables.contains_key(table@) && self@.tables[table@]
                    == self.tables[at as int].storage@ && text_views(keys@) == stored_keys(
                    self@.tables[table@].visible_pairs(),
                ) && forall|i: int| 0 <= i < rows.len() ==> (#[trigger] rows[i]).wf(),
                Err(error) => self@.rows_of(table@, missing@) == Err::<
                    Seq<Map<Seq<char>, Seq<char>>>,
                    StopModel,
                >(StopModel::Failed(error@)),
            },
    {
        match self.find_table(table) {
            None => Err(missing),
            Some(at) => match read_rows(&self.tables[at].storage) {
                Ok((keys, rows)) => Ok((at, keys, rows)),
                Err(error) => Err(error),
            },
        }
    }

    /// Carries out a SELECT.
    pub fn execute_select(&self, stmt: &SelectStatement, facts: &NumberFacts) -> (outcome: Result<
        String,
        Stop,
    >)
        requires
            self.wf(),
        ensures
            match outcome {
                Ok(text) => self@.select(*stmt, facts@) == Ok::<Seq<char>, StopModel>(text@),
                Err(stop) => self@.select(*stmt, facts@) == Err::<Seq<char>, StopModel>(stop@),
            },
    {
        let missing = ExecError::NotFound(frame("Table '", stmt.table.as_str(), "' not found"));
        let lefts = match self.rows_of(stmt.table.as_str(), missing) {
            Ok((_, _, rows)) => rows,
            Err(error) => {
                return Err(Stop::Failed(error));
            },
        };
        let schema = self.find_schema(stmt.table.as_str());
        match &stmt.join {
            None => {
                let rights: Vec<Row> = Vec::new();
                assert(row_views(rights@) =~= Seq::<Map<Seq<char>, Seq<char>>>::empty());
                run_select(lefts, &rights, stmt, schema, facts)
            },
            Some(join) => {
                let missing = ExecError::NotFound(
                    frame("Right table '", join.table.as_str(), "' not found"),
                );
                match self.rows_of(join.table.as_str(), missing) {
                    Ok((_, _, rights)) => run_select(lefts, &rights, stmt, schema, facts),
                    Err(error) => Err(Stop::Failed(error)),
                }
            },
        }
    }

    /// A copy of the log of the directory `name`.
    fn log_of(&self, name: &str) -> (log: Vec<StorageEntry>)
        requires
            self.wf(),
        ensures
            entry_views(log@) == self@.log_of(name@),
    {
        match self.find_table(name) {
            Some(at) => self.tables[at].storage.wal().replay(),
            None => match find_key(&self.dormant, name) {
                Some(at) => {
                    proof {
                        lemma_keyed_map_item(self.dormant@, at as int);
                    }
                    crate::sstable::copy_entries(&self.dormant[at].entries)
                },
                None => {
                    let log: Vec<StorageEntry> = Vec::new();
                    assert(entry_views(log@) =~= Seq::<EntryModel>::empty());
                    log
                },
            },
        }
    }

    /// Starts the database over the data directory `data_dir`. `found` holds,
    /// for each directory that was found in it, the directory's name and the
    /// records read from its log. Each table whose schema directory holds its
    /// columns is opened, so that tables made earlier can be queried again;
    /// the other directories stay closed until a statement opens them.
    pub fn new(data_dir: &str, found: Vec<DirLog>) -> (outcome: Result<(Self, Vec<DiskOp>), ExecError>)
        ensures
            match outcome {
                Ok((db, disk)) => db.wf() && started(data_dir@, found_logs(found@)) == Ok::<
                    Boot,
                    ErrorModel,
                >(Boot { db: db@, disk: op_views(disk@) }),
                Err(error) => started(data_dir@, found_logs(found@)) == Err::<Boot, ErrorModel>(
                    error@,
                ),
            },
    {
        let mut disk: Vec<DiskOp> = Vec::new();
        assert(op_views(disk@) =~= Seq::<DiskOpModel>::empty());
        let mut queue = found;
        let ghost given = found@;
        let mut dormant: Vec<DirLog> = Vec::new();
        proof {
            assert(key_seq(dormant@) =~= Seq::<Seq<char>>::empty());
            assert(log_map(dormant@) =~= Map::<Seq<char>, Seq<EntryModel>>::empty());
        }
        // file the logs by name, from the last to the first: a later log
        // stays in place of an earlier one of the same name
        proof {
            assert(found_logs(queue@).union_prefer_right(log_map(dormant@)) =~= found_logs(given));
        }
        while queue.len() > 0
            invariant
                ascending(key_seq(dormant@)),
                found_logs(queue@).union_prefer_right(log_map(dormant@)) == found_logs(given),
            decreases queue.len(),
        {
            let ghost before_found = queue@;
            let ghost before_logs = dormant@;
            let log = queue.pop().unwrap();
            let ghost name = log.name@;
            proof {
                assert(before_found.drop_last() =~= queue@);
                assert(before_found.last() == log);
            }
            match find_key(&dormant, log.name.as_str()) {
                Some(at) => {
                    proof {
                        lemma_keyed_map_item(before_logs, at as int);
                        assert(log_map(before_logs).contains_key(name));
                        assert(found_logs(queue@).union_prefer_right(log_map(dormant@))
                            =~= found_logs(before_found).union_prefer_right(log_map(before_logs)));
                    }
                },
                None => {
                    proof {
                        assert(!keyed_map(before_logs).contains_key(name));
                        assert(!log_map(before_logs).contains_key(name));
                    }
                    upsert(&mut dormant, log);
                    proof {
                        lemma_log_map_insert(before_logs, dormant@, log);
                        assert(found_logs(queue@).union_prefer_right(log_map(dormant@))
                            =~= found_logs(before_found).union_prefer_right(log_map(before_logs)));
                    }
                },
            }
        }
        proof {
            assert(found_logs(queue@) =~= Map::<Seq<char>, Seq<EntryModel>>::empty());
            assert(log_map(dormant@) =~= found_logs(given));
        }
        let mut names: Vec<String> = Vec::new();
        let mut k: usize = 0;
        while k < dormant.len()
            invariant
                k <= dormant.len(),
                names.len() == k,
                forall|j: int| 0 <= j < k ==> (#[trigger] names[j])@ == dormant[j].name@,
            decreases dormant.len() - k,
        {
            names.push(dormant[k].name.clone());
            k = k + 1;
        }
        let ghost logs = found_logs(given);
        let ghost name_seq = text_views(names@);
        proof {
            assert(name_seq =~= key_seq(dormant@));
            assert forall|x: Seq<char>| name_seq.contains(x) <==> logs.dom().contains(x) by {}
            crate::keys::lemma_sorted_keys(name_seq, logs.dom());
        }
        let mut db = PersistentDatabase {
            data_dir: data_dir.to_owned(),
            tables: Vec::new(),
            table_schemas: Vec::new(),
            dormant,
        };
        proof {
            assert(key_seq(db.tables@) =~= Seq::<Seq<char>>::empty());
            assert(key_seq(db.table_schemas@) =~= Seq::<Seq<char>>::empty());
            assert(db@.tables =~= Map::<Seq<char>, EngineModel>::empty());
            assert(db@.schemas =~= Map::<Seq<char>, Seq<Seq<char>>>::empty());
        }
        let mut i: usize = 0;
        while i < names.len()
            invariant
                i <= names.len(),
                db.wf(),
                name_seq == text_views(names@),
                name_seq == crate::keys::sorted_keys(logs.dom()),
                logs == found_logs(found@),
                startup_run(data_dir@, logs, name_seq, i as nat) == Ok::<Boot, ErrorModel>(
                    Boot { db: db@, disk: op_views(disk@) },
                ),
            decreases names.len() - i,
        {
            assert(name_seq[i as int] == names[i as int]@);
            match strip_schema_suffix(names[i].as_str()) {
                None => {},
                Some(table) => {
                    let log = db.log_of(names[i].as_str());
                    let probe = LSMStorage::new(data_dir, names[i].as_str(), log);
                    match probe.get("schema") {
                        None => {},
                        Some(text) => match read_array(text.as_str()) {
                            Err(detail) => {
                                let mut message = "Failed to deserialize schema: ".to_owned();
                                message.append(detail.as_str());
                                proof {
                                    assert(table_of_schema_dir(name_seq[i as int]) == Some(table@));
                                    assert(EngineModel::opened(
                                        path_in(data_dir@, name_seq[i as int]),
                                        db@.log_of(name_seq[i as int]),
                                    ).read(
                                        "schema"@,
                                    ) == Some(text@));
                                    assert(startup_run(data_dir@, logs, name_seq, (i + 1) as nat)
                                        == Err::<Boot, ErrorModel>(schema_decode_error(detail@)));
                                    lemma_startup_run_failed(
                                        data_dir@,
                                        logs,
                                        name_seq,
                                        (i + 1) as nat,
                                        names.len() as nat,
                                    );
                                    assert(name_seq.len() == names.len());
                                    assert(message@ == "Failed to deserialize schema: "@ + detail@);
                                    assert(started(data_dir@, logs) == Err::<Boot, ErrorModel>(
                                        schema_decode_error(detail@),
                                    ));
                                }
                                return Err(ExecError::SerializationError(message));
                            },
                            Ok(columns) => {
                                db.open_table(table.as_str(), &mut disk);
                                let ghost before_schemas = db.table_schemas@;
                                let schema = SchemaEntry { name: table, columns };
                                upsert(&mut db.table_schemas, schema);
                                proof {
                                    lemma_schema_map_insert(before_schemas, db.table_schemas@, schema);
                                }
                            },
                        },
                    }
                },
            }
            i = i + 1;
        }
        Ok((db, disk))
    }

    /// Brings the database back to what the disk holds after a write to it
    /// failed: the last `lost` records of the log of the directory `name`
    /// did not reach the disk. No table keeps in memory what its log does not
    /// hold: the database is started anew over its own logs, that of `name`
    /// without the lost records. Where that start fails, the database stays
    /// as it is.
    pub fn recover(&mut self, name: &str, lost: usize) -> (outcome: Result<Vec<DiskOp>, ExecError>)
        requires
            old(self).wf(),
        ensures
            final(self).wf(),
            match outcome {
                Ok(disk) => started(old(self)@.dir, old(self)@.durable_logs(name@, lost as nat)) == Ok::<
                    Boot,
                    ErrorModel,
                >(Boot { db: final(self)@, disk: op_views(disk@) }),
                Err(error) => *final(self) == *old(self) && started(
                    old(self)@.dir,
                    old(self)@.durable_logs(name@, lost as nat),
                ) == Err::<Boot, ErrorModel>(error@),
            },
    {
        let mut found = self.logs();
        let open = self.find_table(name).is_some();
        let place = find_key(&self.dormant, name);
        let closed = place.is_some();
        let known = open || closed;
        proof {
            assert(open == self@.table_logs().contains_key(name@));
            if let Some(at) = place {
                assert(key_seq(self.dormant@)[at as int] == name@);
            }
            assert(closed == key_seq(self.dormant@).contains(name@));
            assert(closed == self@.dormant.contains_key(name@));
            assert(known == self@.all_logs().contains_key(name@));
        }
        if known {
            let mut entries = self.log_of(name);
            let ghost log = entry_views(entries@);
            let kept: usize = if lost >= entries.len() {
                0
            } else {
                entries.len() - lost
            };
            entries.truncate(kept);
            assert(entry_views(entries@) =~= without_last(log, lost as nat));
            let ghost before = found@;
            found.push(DirLog { name: name.to_owned(), entries });
            assert(found@.drop_last() =~= before);
            assert(found_logs(found@) == found_logs(before).insert(
                name@,
                without_last(log, lost as nat),
            ));
        }
        assert(found_logs(found@) =~= old(self)@.durable_logs(name@, lost as nat));
        match PersistentDatabase::new(self.data_dir.as_str(), found) {
            Ok((db, disk)) => {
                *self = db;
                Ok(disk)
            },
            Err(error) => Err(error),
        }
    }

    /// Writes `entry` through the engine of the table at place `at`.
    fn write(&mut self, at: usize, entry: StorageEntry, disk: &mut Vec<DiskOp>)
        requires
            old(self).wf(),
            at < old(self).tables.len(),
            old(self).tables[at as int].storage@.newest() <= entry.timestamp,
        ensures
            final(self).wf(),
            final(self).tables.len() == old(self).tables.len(),
            forall|i: int|
                0 <= i < old(self).tables.len() ==> (#[trigger] final(self).tables[i]).name@ == old(
                    self,
                ).tables[i].name@,
            final(self)@ == old(self)@.with_engine(
                old(self).tables[at as int].name@,
                old(self).tables[at as int].storage@.applied(entry@),
            ),
            op_views(final(disk)@) == op_views(old(disk)@) + old(self).tables[at as int].storage@.apply_ops(
                entry@,
            ),
    {
        let ghost before = self.tables@;
        let ghost head = op_views(disk@);
        let mut ops = self.tables[at].storage.apply(entry);
        let ghost tail = op_views(ops@);
        disk.append(&mut ops);
        proof {
            assert(op_views(disk@) =~= head + tail);
            lemma_table_map_update(before, self.tables@, at as int);
            assert forall|i: int| 0 <= i < self.tables.len() implies (#[trigger] self.tables[i]).storage.wf()
                && self.tables[i].storage@.dir == path_in(self.data_dir@, self.tables[i].name@)
                && self.tables[i].storage@.recoverable() by {
                if i != at {
                    assert(self.tables[i] == before[i]);
                }
            }
        }
    }

    /// Opens the table `table` from the log of its directory where it is not
    /// open, and says where it stands in the catalog.
    fn open_table(&mut self, table: &str, disk: &mut Vec<DiskOp>) -> (at: usize)
        requires
            old(self).wf(),
        ensures
            final(self).wf(),
            final(self)@ == old(self)@.with_table(table@),
            at < final(self).tables.len(),
            final(self).tables[at as int].name@ == table@,
            final(self)@.tables.contains_key(table@),
            final(self)@.tables[table@] == final(self).tables[at as int].storage@,
            op_views(final(disk)@) == op_views(old(disk)@) + old(self)@.open_ops(table@),
    {
        let ghost head = op_views(disk@);
        match self.find_table(table) {
            Some(at) => {
                assert(head + Seq::<DiskOpModel>::empty() =~= head);
                at
            },
            None => {
                let ghost before_logs = self.dormant@;
                let ghost before_tables = self.tables@;
                let logged = match remove_key(&mut self.dormant, table) {
                    Some(log) => log.entries,
                    None => Vec::new(),
                };
                proof {
                    lemma_log_map_remove(before_logs, self.dormant@, table@);
                    assert(entry_views(logged@) =~= old(self)@.log_of(table@));
                }
                let storage = LSMStorage::new(self.data_dir.as_str(), table, logged);
                disk.push(DiskOp::CreateDir { path: join_path(self.data_dir.as_str(), table) });
                assert(op_views(disk@) =~= head + old(self)@.open_ops(table@));
                let entry = TableEntry { name: table.to_owned(), storage };
                assert(!key_seq(before_tables).contains(entry.key_view())) by {
                    assert(!table_map(before_tables).contains_key(table@));
                    assert(!keyed_map(before_tables).contains_key(table@));
                }
                let at = upsert(&mut self.tables, entry);
                proof {
                    assert(self.tables@ == before_tables.insert(at as int, entry));
                    lemma_table_map_insert(before_tables, self.tables@, entry);
                    assert(self@.tables =~= old(self)@.with_table(table@).tables);
                    lemma_keyed_map_item(self.tables@, at as int);
                    assert forall|i: int| 0 <= i < self.tables.len() implies (
                    #[trigger] self.tables[i]).storage.wf() && self.tables[i].storage@.dir
                        == path_in(self.data_dir@, self.tables[i].name@) by {
                        if i < at {
                            assert(self.tables[i] == before_tables[i]);
                        } else if i > at {
                            assert(self.tables[i] == before_tables[i - 1]);
                        }
                    }
                }
                at
            },
        }
    }

    /// Carries out an INSERT at the time `now`.
    pub fn execute_insert(&mut self, stmt: &InsertStatement, now: u64, disk: &mut Vec<DiskOp>) -> (outcome:
        Result<String, Stop>)
        requires
            old(self).wf(),
        ensures
            final(self).wf(),
            final(self)@ == old(self)@.insert(*stmt, now).db,
            match outcome {
                Ok(text) => old(self)@.insert(*stmt, now).result == Ok::<Seq<char>, StopModel>(text@),
                Err(stop) => old(self)@.insert(*stmt, now).result == Err::<Seq<char>, StopModel>(
                    stop@,
                ),
            },
            op_views(final(disk)@) == op_views(old(disk)@) + old(self)@.insert(*stmt, now).disk,
    {
        let ghost base = op_views(disk@);
        let ghost columns = text_views(stmt.columns@);
        let ghost tuples = tuple_views(stmt.values@);
        let at = self.open_table(stmt.table.as_str(), disk);
        let ghost open = self@;
        let ghost start = TableRun::start(self@.tables[stmt.table@], old(self)@.open_ops(stmt.table@));
        assert(open.with_engine(stmt.table@, start.engine) =~= open) by {
            assert(open.tables.insert(stmt.table@, start.engine) =~= open.tables);
        }
        let mut i: usize = 0;
        while i < stmt.values.len()
            invariant
                i <= stmt.values.len(),
                self.wf(),
                at < self.tables.len(),
                self.tables[at as int].name@ == stmt.table@,
                columns == text_views(stmt.columns@),
                tuples == tuple_views(stmt.values@),
                base == op_views(old(disk)@),
                open == old(self)@.with_table(stmt.table@),
                start == TableRun::start(open.tables[stmt.table@], old(self)@.open_ops(stmt.table@)),
                open.tables.contains_key(stmt.table@),
                forall|k: int| 0 <= k < i ==> !misfit(columns, tuples, k),
                self@ == open.with_engine(
                    stmt.table@,
                    insert_run(start, columns, tuples, now, i as nat).engine,
                ),
                op_views(disk@) == base + insert_run(start, columns, tuples, now, i as nat).disk,
            decreases stmt.values.len() - i,
        {
            assert(tuples[i as int] == text_views(stmt.values[i as int]@));
            let ghost prior = insert_run(start, columns, tuples, now, i as nat);
            if stmt.values[i].len() != stmt.columns.len() {
                proof {
                    assert(misfit(columns, tuples, i as int));
                    lemma_first_misfit(columns, tuples, i as int);
                }
                return Err(
                    Stop::Failed(
                        ExecError::SchemaViolation("Column count does not match value count".to_owned()),
                    ),
                );
            }
            proof {
                self.lemma_table_at(at as int);
                assert(self.tables[at as int].storage@ == prior.engine);
            }
            let key = fresh_key_in(&self.tables[at].storage, now, i);
            let row = zip_row(&stmt.columns, &stmt.values[i]);
            let stamp = self.tables[at].storage.stamp(now);
            self.write(at, StorageEntry::present(key, row.to_json(), stamp), disk);
            proof {
                let next = insert_run(start, columns, tuples, now, (i + 1) as nat);
                assert(open.tables.insert(stmt.table@, prior.engine).insert(stmt.table@, next.engine)
                    =~= open.tables.insert(stmt.table@, next.engine));
                assert(self@ == open.with_engine(stmt.table@, next.engine));
                assert(op_views(disk@) =~= base + next.disk);
            }
            i = i + 1;
        }
        proof {
            lemma_first_misfit(columns, tuples, stmt.values.len() as int);
        }
        let mut text = String::new();
        push_decimal(&mut text, stmt.values.len() as u64);
        text.append(" row(s) inserted successfully");
        assert(text@ =~= decimal(stmt.values.len() as nat) + " row(s) inserted successfully"@);
        Ok(text)
    }

    /// Carries out an UPDATE at the time `now`.
    pub fn execute_update(
        &mut self,
        stmt: &UpdateStatement,
        facts: &NumberFacts,
        now: u64,
        disk: &mut Vec<DiskOp>,
    ) -> (outcome: Result<String, Stop>)
        requires
            old(self).wf(),
        ensures
            final(self).wf(),
            final(self)@ == old(self)@.update(*stmt, facts@, now).db,
            match outcome {
                Ok(text) => old(self)@.update(*stmt, facts@, now).result == Ok::<
                    Seq<char>,
                    StopModel,
                >(text@),
                Err(stop) => old(self)@.update(*stmt, facts@, now).result == Err::<
                    Seq<char>,
                    StopModel,
                >(stop@),
            },
            op_views(final(disk)@) == op_views(old(disk)@) + old(self)@.update(*stmt, facts@, now).disk,
    {
        let ghost base = op_views(disk@);
        assert(base + Seq::<DiskOpModel>::empty() =~= base);
        let missing = ExecError::NotFound(frame("Table '", stmt.table.as_str(), "' not found"));
        let (at, keys, rows) = match self.rows_of(stmt.table.as_str(), missing) {
            Ok(found) => found,
            Err(error) => {
                return Err(Stop::Failed(error));
            },
        };
        let judgements = judge_rows(&rows, &stmt.where_clause, facts);
        match settle(&judgements) {
            Some(stop) => {
                return Err(stop);
            },
            None => {},
        }
        let ghost begin = self@;
        let ghost start = TableRun::start(self@.tables[stmt.table@], Seq::empty());
        let ghost key_seq = text_views(keys@);
        let ghost row_seq = row_views(rows@);
        let ghost verdicts = judgement_views(judgements@);
        let ghost changes = pair_views(stmt.assignments@);
        proof {
            crate::catalog::lemma_stored_rows_len(start.engine.visible_pairs());
            assert(text_views(keys@).len() == keys.len());
            assert(row_views(rows@).len() == rows.len());
            assert(stored_keys(start.engine.visible_pairs()).len() == start.engine.visible_pairs().len());
            assert(begin.with_engine(stmt.table@, start.engine) =~= begin) by {
                assert(begin.tables.insert(stmt.table@, start.engine) =~= begin.tables);
            }
        }
        let mut count: usize = 0;
        let mut i: usize = 0;
        while i < rows.len()
            invariant
                i <= rows.len(),
                rows.len() == keys.len(),
                rows.len() == judgements.len(),
                self.wf(),
                at < self.tables.len(),
                self.tables[at as int].name@ == stmt.table@,
                key_seq == text_views(keys@),
                row_seq == row_views(rows@),
                verdicts == judgement_views(judgements@),
                changes == pair_views(stmt.assignments@),
                base == op_views(old(disk)@),
                begin == old(self)@,
                begin.tables.contains_key(stmt.table@),
                start == TableRun::start(begin.tables[stmt.table@], Seq::empty()),
                forall|k: int| 0 <= k < rows.len() ==> (#[trigger] rows[k]).wf(),
                count == keep_count(verdicts, i as nat),
                count <= i,
                self@ == begin.with_engine(
                    stmt.table@,
                    update_run(start, key_seq, row_seq, verdicts, changes, now, i as nat).engine,
                ),
                op_views(disk@) == base + update_run(
                    start,
                    key_seq,
                    row_seq,
                    verdicts,
                    changes,
                    now,
                    i as nat,
                ).disk,
            decreases rows.len() - i,
        {
            assert(verdicts[i as int] == judgements[i as int]@);
            assert(key_seq[i as int] == keys[i as int]@);
            assert(row_seq[i as int] == rows[i as int]@);
            let keep = match &judgements[i] {
                Judgement::Keep => true,
                _ => false,
            };
            if keep {
                let row = assign(&rows[i], &stmt.assignments);
                let ghost prior = update_run(start, key_seq, row_seq, verdicts, changes, now, i as nat);
                proof {
                    self.lemma_table_at(at as int);
                    assert(self.tables[at as int].storage@ == prior.engine);
                }
                let stamp = self.tables[at].storage.stamp(now);
                self.write(at, StorageEntry::deleted(keys[i].clone(), stamp), disk);
                let ghost middle = prior.removed(keys[i as int]@, now);
                proof {
                    assert(begin.tables.insert(stmt.table@, prior.engine).insert(
                        stmt.table@,
                        middle.engine,
                    ) =~= begin.tables.insert(stmt.table@, middle.engine));
                    assert(self@ == begin.with_engine(stmt.table@, middle.engine));
                    assert(op_views(disk@) =~= base + middle.disk);
                    self.lemma_table_at(at as int);
                    assert(self.tables[at as int].storage@ == middle.engine);
                }
                let stamp = self.tables[at].storage.stamp(now);
                self.write(at, StorageEntry::present(keys[i].clone(), row.to_json(), stamp), disk);
                proof {
                    let after = update_run(start, key_seq, row_seq, verdicts, changes, now, (i + 1) as nat);
                    assert(after == middle.put(
                        keys[i as int]@,
                        json_object(assigned(rows[i as int]@, changes)),
                        now,
                    ));
                    assert(begin.tables.insert(stmt.table@, middle.engine).insert(
                        stmt.table@,
                        after.engine,
                    ) =~= begin.tables.insert(stmt.table@, after.engine));
                    assert(self@ == begin.with_engine(stmt.table@, after.engine));
                    assert(op_views(disk@) =~= base + after.disk);
                }
                count = count + 1;
            }
            i = i + 1;
        }
        let mut text = "Updated ".to_owned();
        push_decimal(&mut text, count as u64);
        text.append(" rows");
        assert(text@ =~= "Updated "@ + decimal(keep_count(verdicts, verdicts.len())) + " rows"@);
        Ok(text)
    }

    /// Carries out a DELETE at the time `now`.
    pub fn execute_delete(
        &mut self,
        stmt: &DeleteStatement,
        facts: &NumberFacts,
        now: u64,
        disk: &mut Vec<DiskOp>,
    ) -> (outcome: Result<String, Stop>)
        requires
            old(self).wf(),
        ensures
            final(self).wf(),
            final(self)@ == old(self)@.delete(*stmt, facts@, now).db,
            match outcome {
                Ok(text) => old(self)@.delete(*stmt, facts@, now).result == Ok::<
                    Seq<char>,
                    StopModel,
                >(text@),
                Err(stop) => old(self)@.delete(*stmt, facts@, now).result == Err::<
                    Seq<char>,
                    StopModel,
                >(stop@),
            },
            op_views(final(disk)@) == op_views(old(disk)@) + old(self)@.delete(*stmt, facts@, now).disk,
    {
        let ghost base = op_views(disk@);
        assert(base + Seq::<DiskOpModel>::empty() =~= base);
        let missing = ExecError::NotFound(frame("Table '", stmt.table.as_str(), "' not found"));
        let (at, keys, rows) = match self.rows_of(stmt.table.as_str(), missing) {
            Ok(found) => found,
            Err(error) => {
                return Err(Stop::Failed(error));
            },
        };
        let judgements = judge_rows(&rows, &stmt.where_clause, facts);
        match settle(&judgements) {
            Some(stop) => {
                return Err(stop);
            },
            None => {},
        }
        let ghost begin = self@;
        let ghost start = TableRun::start(self@.tables[stmt.table@], Seq::empty());
        let ghost key_seq = text_views(keys@);
        let ghost verdicts = judgement_views(judgements@);
        proof {
            crate::catalog::lemma_stored_rows_len(start.engine.visible_pairs());
            assert(text_views(keys@).len() == keys.len());
            assert(row_views(rows@).len() == rows.len());
            assert(stored_keys(start.engine.visible_pairs()).len() == start.engine.visible_pairs().len());
            assert(begin.with_engine(stmt.table@, start.engine) =~= begin) by {
                assert(begin.tables.insert(stmt.table@, start.engine) =~= begin.tables);
            }
        }
        let mut count: usize = 0;
        let mut i: usize = 0;
        while i < rows.len()
            invariant
                i <= rows.len(),
                rows.len() == keys.len(),
                rows.len() == judgements.len(),
                self.wf(),
                at < self.tables.len(),
                self.tables[at as int].name@ == stmt.table@,
                key_seq == text_views(keys@),
                verdicts == judgement_views(judgements@),
                base == op_views(old(disk)@),
                begin == old(self)@,
                begin.tables.contains_key(stmt.table@),
                start == TableRun::start(begin.tables[stmt.table@], Seq::empty()),
                count == keep_count(verdicts, i as nat),
                count <= i,
                self@ == begin.with_engine(
                    stmt.table@,
                    delete_run(start, key_seq, verdicts, now, i as nat).engine,
                ),
                op_views(disk@) == base + delete_run(start, key_seq, verdicts, now, i as nat).disk,
            decreases rows.len() - i,
        {
            assert(verdicts[i as int] == judgements[i as int]@);
            assert(key_seq[i as int] == keys[i as int]@);
            let keep = match &judgements[i] {
                Judgement::Keep => true,
                _ => false,
            };
            if keep {
                let ghost prior = delete_run(start, key_seq, verdicts, now, i as nat);
                proof {
                    self.lemma_table_at(at as int);
                    assert(self.tables[at as int].storage@ == prior.engine);
                }
                let stamp = self.tables[at].storage.stamp(now);
                self.write(at, StorageEntry::deleted(keys[i].clone(), stamp), disk);
                proof {
                    let after = delete_run(start, key_seq, verdicts, now, (i + 1) as nat);
                    assert(after == prior.removed(keys[i as int]@, now));
                    assert(begin.tables.insert(stmt.table@, prior.engine).insert(
                        stmt.table@,
                        after.engine,
                    ) =~= begin.tables.insert(stmt.table@, after.engine));
                    assert(self@ == begin.with_engine(stmt.table@, after.engine));
                    assert(op_views(disk@) =~= base + after.disk);
                }
                count = count + 1;
            }
            i = i + 1;
        }
        let mut text = "Deleted ".to_owned();
        push_decimal(&mut text, count as u64);
        text.append(" rows");
        assert(text@ =~= "Deleted "@ + decimal(keep_count(verdicts, verdicts.len())) + " rows"@);
        Ok(text)
    }

    /// Writes `entry` into the directory `name`: through the engine of the
    /// table where it is open, else at the end of the directory's log.
    fn log_into(&mut self, name: &str, entry: StorageEntry, disk: &mut Vec<DiskOp>)
        requires
            old(self).wf(),
        ensures
            final(self).wf(),
            final(self)@ == old(self)@.logged(name@, entry@),
            op_views(final(disk)@) == op_views(old(disk)@) + old(self)@.logged_ops(name@, entry@),
    {
        let ghost head = op_views(disk@);
        match self.find_table(name) {
            Some(at) => {
                proof {
                    self.lemma_table_at(at as int);
                }
                let stamp = self.tables[at].storage.stamp(entry.timestamp);
                self.write(at, StorageEntry { key: entry.key, value: entry.value, timestamp: stamp }, disk);
            },
            None => {
                let ghost before = self.dormant@;
                let mut entries = match remove_key(&mut self.dormant, name) {
                    Some(log) => log.entries,
                    None => Vec::new(),
                };
                proof {
                    assert(entry_views(entries@) =~= old(self)@.log_of(name@));
                }
                let ghost middle = self.dormant@;
                let dir = join_path(self.data_dir.as_str(), name);
                disk.push(DiskOp::CreateDir { path: dir.clone() });
                disk.push(
                    DiskOp::AppendLine { path: join_path(dir.as_str(), "wal.log"), line: entry.to_line() },
                );
                assert(op_views(disk@) =~= head + old(self)@.logged_ops(name@, entry@));
                let ghost logged = entry_views(entries@);
                entries.push(entry);
                assert(entry_views(entries@) =~= logged.push(entry@));
                let log = DirLog { name: name.to_owned(), entries };
                upsert(&mut self.dormant, log);
                proof {
                    lemma_log_map_remove(before, middle, name@);
                    lemma_log_map_insert(middle, self.dormant@, log);
                    assert(self@.dormant =~= old(self)@.dormant.insert(
                        name@,
                        old(self)@.log_of(name@).push(entry@),
                    ));
                }
            },
        }
    }

    /// Carries out a CREATE TABLE at the time `now`.
    pub fn execute_create_table(&mut self, stmt: &CreateTableStatement, now: u64, disk: &mut Vec<DiskOp>) -> (outcome:
        Result<String, Stop>)
        requires
            old(self).wf(),
        ensures
            final(self).wf(),
            final(self)@ == old(self)@.create_table(*stmt, now).db,
            match outcome {
                Ok(text) => old(self)@.create_table(*stmt, now).result == Ok::<
                    Seq<char>,
                    StopModel,
                >(text@),
                Err(stop) => old(self)@.create_table(*stmt, now).result == Err::<
                    Seq<char>,
                    StopModel,
                >(stop@),
            },
            op_views(final(disk)@) == op_views(old(disk)@) + old(self)@.create_table(*stmt, now).disk,
    {
        let ghost base = op_views(disk@);
        let table = stmt.table.as_str();
        let mut names: Vec<String> = Vec::new();
        let mut i: usize = 0;
        while i < stmt.columns.len()
            invariant
                i <= stmt.columns.len(),
                names.len() == i,
                forall|k: int| 0 <= k < i ==> (#[trigger] names[k])@ == stmt.columns[k].0@,
            decreases stmt.columns.len() - i,
        {
            names.push(stmt.columns[i].0.clone());
            i = i + 1;
        }
        assert(text_views(names@) =~= declared_names(stmt.columns@));
        let encoded = write_array(&names);
        let ghost before_tables = self.tables@;
        let ghost before_logs = self.dormant@;
        let ghost before_schemas = self.table_schemas@;
        let was_open = remove_key(&mut self.tables, table);
        let idle = remove_key(&mut self.dormant, table);
        let ghost middle_tables = self.tables@;
        let ghost middle_logs = self.dormant@;
        proof {
            lemma_table_map_remove(before_tables, middle_tables, table@);
            lemma_log_map_remove(before_logs, middle_logs, table@);
        }
        let logged = match was_open {
            Some(open) => {
                proof {
                    let at = choose|at: int|
                        0 <= at < before_tables.len() && middle_tables == #[trigger] before_tables.remove(
                            at,
                        );
                    assert(table_map(before_tables).contains_key(table@));
                    let p = crate::keys::position(key_seq(before_tables), table@);
                    assert(0 <= p < before_tables.len());
                    assert(before_tables[p].storage.wf());
                }
                open.storage.wal().replay()
            },
            None => match idle {
                Some(log) => log.entries,
                None => Vec::new(),
            },
        };
        assert(entry_views(logged@) =~= old(self)@.log_of(table@));
        let storage = LSMStorage::new(self.data_dir.as_str(), table, logged);
        disk.push(DiskOp::CreateDir { path: join_path(self.data_dir.as_str(), table) });
        assert(op_views(disk@) =~= base + seq![
            DiskOpModel::CreateDir { path: path_in(old(self)@.dir, table@) },
        ]);
        let entry = TableEntry { name: table.to_owned(), storage };
        assert(!key_seq(middle_tables).contains(entry.key_view())) by {
            assert(!keyed_map(middle_tables).contains_key(table@));
        }
        let at = upsert(&mut self.tables, entry);
        let schema = SchemaEntry { name: table.to_owned(), columns: names };
        upsert(&mut self.table_schemas, schema);
        proof {
            assert(self.tables@ == middle_tables.insert(at as int, entry));
            lemma_table_map_insert(middle_tables, self.tables@, entry);
            lemma_schema_map_insert(before_schemas, self.table_schemas@, schema);
            assert(self@.tables =~= old(self)@.tables.insert(
                table@,
                EngineModel::opened(path_in(old(self)@.dir, table@), old(self)@.log_of(table@)),
            ));
            assert forall|i: int| 0 <= i < self.tables.len() implies (#[trigger] self.tables[i]).storage.wf()
                && self.tables[i].storage@.dir == path_in(self.data_dir@, self.tables[i].name@) by {
                let source = if i < at {
                    middle_tables[i]
                } else {
                    middle_tables[i - 1]
                };
                if i != at {
                    assert(self.tables[i] == source);
                    if was_open is Some {
                        let gone = choose|gone: int|
                            0 <= gone < before_tables.len() && middle_tables
                                == #[trigger] before_tables.remove(gone);
                        let j = if i < at { i } else { i - 1 };
                        let j0 = if j < gone { j } else { j + 1 };
                        assert(middle_tables[j] == before_tables[j0]);
                    }
                }
            }
        }
        let mut dir = table.to_owned();
        dir.append("_schema");
        let record = StorageEntry::present("schema".to_owned(), encoded, now);
        assert(self@ == old(self)@.reopened(table@, declared_names(stmt.columns@)));
        let ghost opened = self@;
        let ghost middle = op_views(disk@);
        self.log_into(dir.as_str(), record, disk);
        assert(op_views(disk@) =~= base + old(self)@.create_table(*stmt, now).disk);
        Ok(frame("Created table '", table, "'"))
    }

    /// Answers an ALTER TABLE: the change is acknowledged; neither the stored
    /// rows nor the recorded columns change.
    pub fn execute_alter_table(&self, stmt: &AlterTableStatement) -> (text: String)
        ensures
            text@ == alter_text(*stmt),
    {
        let table = stmt.table.as_str();
        let mut text = String::new();
        match &stmt.action {
            AlterAction::AddColumn(column) => {
                text.append("Added column '");
                text.append(column.as_str());
                text.append("' to table '");
            },
            AlterAction::DropColumn(column) => {
                text.append("Dropped column '");
                text.append(column.as_str());
                text.append("' from table '");
            },
            AlterAction::ModifyColumn(column, _) => {
                text.append("Modified column '");
                text.append(column.as_str());
                text.append("' in table '");
            },
        }
        text.append(table);
        text.append("'");
        assert(text@ =~= alter_text(*stmt));
        text
    }

    /// Carries out a DROP TABLE.
    pub fn execute_drop_table(&mut self, stmt: &DropTableStatement, disk: &mut Vec<DiskOp>) -> (outcome:
        Result<String, Stop>)
        requires
            old(self).wf(),
        ensures
            final(self).wf(),
            final(self)@ == old(self)@.drop_table(*stmt).db,
            match outcome {
                Ok(text) => old(self)@.drop_table(*stmt).result == Ok::<Seq<char>, StopModel>(text@),
                Err(stop) => old(self)@.drop_table(*stmt).result == Err::<Seq<char>, StopModel>(
                    stop@,
                ),
            },
            op_views(final(disk)@) == op_views(old(disk)@) + old(self)@.drop_table(*stmt).disk,
    {
        let ghost base = op_views(disk@);
        let table = stmt.table.as_str();
        let ghost before_tables = self.tables@;
        let ghost before_logs = self.dormant@;
        let ghost before_schemas = self.table_schemas@;
        let was_open = remove_key(&mut self.tables, table);
        remove_key(&mut self.table_schemas, table);
        remove_key(&mut self.dormant, table);
        disk.push(DiskOp::RemoveDir { path: join_path(self.data_dir.as_str(), table) });
        proof {
            assert(op_views(disk@) =~= base + old(self)@.drop_table(*stmt).disk);
            lemma_table_map_remove(before_tables, self.tables@, table@);
            lemma_schema_map_remove(before_schemas, self.table_schemas@, table@);
            lemma_log_map_remove(before_logs, self.dormant@, table@);
            assert forall|i: int| 0 <= i < self.tables.len() implies (#[trigger] self.tables[i]).storage.wf()
                && self.tables[i].storage@.dir == path_in(self.data_dir@, self.tables[i].name@) by {
                if was_open is Some {
                    let gone = choose|gone: int|
                        0 <= gone < before_tables.len() && self.tables@ == #[trigger] before_tables.remove(
                            gone,
                        );
                    let i0 = if i < gone { i } else { i + 1 };
                    assert(self.tables[i] == before_tables[i0]);
                }
            }
        }
        Ok(frame("Dropped table '", table, "'"))
    }

    /// Carries out `stmt` at the time `now`, given the answers `facts` to
    /// numeric questions, and says what must happen on disk, in order.
    /// Where the statement needs an answer that `facts` lacks, nothing is
    /// changed and the questions are handed back.
    pub fn execute_at(&mut self, stmt: SQLStatement, facts: &NumberFacts, now: u64) -> (done: Execution)
        requires
            old(self).wf(),
        ensures
            final(self).wf(),
            final(self)@ == old(self)@.executed(stmt, facts@, now).db,
            done.reply@ == reply_of(old(self)@.executed(stmt, facts@, now).result),
            op_views(done.disk@) == old(self)@.executed(stmt, facts@, now).disk,
            done.reply is Needs ==> final(self)@ == old(self)@ && done.disk@.len() == 0,
    {
        let mut disk: Vec<DiskOp> = Vec::new();
        proof {
            assert(op_views(disk@) =~= Seq::<DiskOpModel>::empty());
            assert forall|tail: Seq<DiskOpModel>| Seq::<DiskOpModel>::empty() + tail =~= tail by {}
        }
        let outcome = match &stmt {
            SQLStatement::Select(s) => self.execute_select(s, facts),
            SQLStatement::Insert(s) => self.execute_insert(s, now, &mut disk),
            SQLStatement::Update(s) => self.execute_update(s, facts, now, &mut disk),
            SQLStatement::Delete(s) => self.execute_delete(s, facts, now, &mut disk),
            SQLStatement::CreateTable(s) => self.execute_create_table(s, now, &mut disk),
            SQLStatement::AlterTable(s) => Ok(self.execute_alter_table(s)),
            SQLStatement::DropTable(s) => self.execute_drop_table(s, &mut disk),
        };
        proof {
            let effect = old(self)@.executed(stmt, facts@, now);
            assert(op_views(disk@) =~= effect.disk);
            lemma_needs_changes_nothing(old(self)@, stmt, facts@, now);
        }
        let reply = match outcome {
            Ok(text) => Reply::Done(Ok(text)),
            Err(Stop::Failed(error)) => Reply::Done(Err(error)),
            Err(Stop::Needs(queries)) => Reply::Needs(queries),
        };
        Execution { reply, disk }
    }

    /// Carries out `stmt` at the time of the call, given the answers `facts`
    /// to numeric questions, and says what must happen on disk, in order.
    pub fn execute(&mut self, stmt: SQLStatement, facts: &NumberFacts) -> (done: Execution)
        requires
            old(self).wf(),
        ensures
            final(self).wf(),
            exists|now: u64|
                {
                    let effect = #[trigger] old(self)@.executed(stmt, facts@, now);
                    &&& final(self)@ == effect.db
                    &&& done.reply@ == reply_of(effect.result)
                    &&& op_views(done.disk@) == effect.disk
                },
            done.reply is Needs ==> final(self)@ == old(self)@ && done.disk@.len() == 0,
    {
        let now = now_millis();
        let done = self.execute_at(stmt, facts, now);
        assert(self@ == old(self)@.executed(stmt, facts@, now).db);
        done
    }

    /// The log of every directory under the data directory: what a start-up
    /// over the same directory would find.
    pub fn logs(&self) -> (found: Vec<DirLog>)
        requires
            self.wf(),
        ensures
            found_logs(found@) == self@.all_logs(),
    {
        let mut found: Vec<DirLog> = Vec::new();
        let mut i: usize = 0;
        proof {
            assert(self.dormant@.subrange(0, 0) =~= Seq::<DirLog>::empty());
            assert(key_seq(Seq::<DirLog>::empty()) =~= Seq::<Seq<char>>::empty());
            assert(log_map(self.dormant@.subrange(0, 0)) =~= Map::<Seq<char>, Seq<EntryModel>>::empty());
        }
        while i < self.dormant.len()
            invariant
                i <= self.dormant.len(),
                self.wf(),
                found_logs(found@) == log_map(self.dormant@.subrange(0, i as int)),
            decreases self.dormant.len() - i,
        {
            let ghost before = found@;
            let copy = DirLog {
                name: self.dormant[i].name.clone(),
                entries: crate::sstable::copy_entries(&self.dormant[i].entries),
            };
            found.push(copy);
            proof {
                assert(found@.drop_last() =~= before);
                crate::keys::lemma_keyed_prefix(self.dormant@, i as int);
                lemma_log_map_insert(
                    self.dormant@.subrange(0, i as int),
                    self.dormant@.subrange(0, i + 1),
                    self.dormant[i as int],
                );
            }
            i = i + 1;
        }
        let ghost idle = found_logs(found@);
        proof {
            assert(self.dormant@.subrange(0, self.dormant.len() as int) =~= self.dormant@);
            assert(self.tables@.subrange(0, 0) =~= Seq::<TableEntry>::empty());
            assert(key_seq(Seq::<TableEntry>::empty()) =~= Seq::<Seq<char>>::empty());
            assert(idle.union_prefer_right(table_log_map(self.tables@.subrange(0, 0))) =~= idle);
        }
        let mut j: usize = 0;
        while j < self.tables.len()
            invariant
                j <= self.tables.len(),
                self.wf(),
                idle == self@.dormant,
                found_logs(found@) == idle.union_prefer_right(
                    table_log_map(self.tables@.subrange(0, j as int)),
                ),
            decreases self.tables.len() - j,
        {
            let ghost before = found@;
            let copy = DirLog {
                name: self.tables[j].name.clone(),
                entries: self.tables[j].storage.wal().replay(),
            };
            found.push(copy);
            proof {
                assert(found@.drop_last() =~= before);
                crate::keys::lemma_keyed_prefix(self.tables@, j as int);
                let short = self.tables@.subrange(0, j as int);
                let long = self.tables@.subrange(0, j + 1);
                assert(table_log_map(long) =~= table_log_map(short).insert(
                    self.tables[j as int].name@,
                    self.tables[j as int].storage@.log,
                ));
                assert(found_logs(found@) =~= idle.union_prefer_right(table_log_map(long)));
            }
            j = j + 1;
        }
        proof {
            assert(self.tables@.subrange(0, self.tables.len() as int) =~= self.tables@);
            assert(table_log_map(self.tables@) =~= self@.table_logs());
        }
        found
    }

    /// Closes the database: every table, in the ascending order of the
    /// names, flushes what its buffer holds.
    pub fn close(&mut self) -> (disk: Vec<DiskOp>)
        requires
            old(self).wf(),
        ensures
            final(self).wf(),
            final(self)@ == old(self)@.closed().0,
            op_views(disk@) == old(self)@.closed().1,
    {
        let mut disk: Vec<DiskOp> = Vec::new();
        let ghost before = self.tables@;
        let ghost begin = self@;
        let ghost names = key_seq(before);
        proof {
            assert(op_views(disk@) =~= Seq::<DiskOpModel>::empty());
            assert forall|x: Seq<char>| names.contains(x) <==> begin.tables.dom().contains(x) by {}
            crate::keys::lemma_sorted_keys(names, begin.tables.dom());
        }
        let mut i: usize = 0;
        while i < self.tables.len()
            invariant
                i <= self.tables.len(),
                self.wf(),
                begin == old(self)@,
                before == old(self).tables@,
                names == key_seq(before),
                names == crate::keys::sorted_keys(begin.tables.dom()),
                self.tables.len() == before.len(),
                self.data_dir == old(self).data_dir,
                self.table_schemas == old(self).table_schemas,
                self.dormant == old(self).dormant,
                ascending(key_seq(before)),
                forall|k: int|
                    0 <= k < before.len() ==> (#[trigger] self.tables[k]).name@ == before[k].name@,
                forall|k: int| i <= k < before.len() ==> (#[trigger] self.tables[k]) == before[k],
                self@.tables == begin.close_run(names, i as nat).0,
                op_views(disk@) == begin.close_run(names, i as nat).1,
            decreases self.tables.len() - i,
        {
            let ghost middle = self.tables@;
            let ghost head = op_views(disk@);
            proof {
                lemma_keyed_map_item(before, i as int);
                assert(names[i as int] == before[i as int].name@);
                assert(begin.tables[names[i as int]] == before[i as int].storage@);
            }
            let mut ops = self.tables[i].storage.close();
            let ghost tail = op_views(ops@);
            disk.append(&mut ops);
            proof {
                assert(op_views(disk@) =~= head + tail);
                lemma_table_map_update(middle, self.tables@, i as int);
                assert forall|k: int| 0 <= k < self.tables.len() implies (#[trigger] self.tables[k]).storage.wf()
                    && self.tables[k].storage@.dir == path_in(self.data_dir@, self.tables[k].name@) by {
                    if k != i {
                        assert(self.tables[k] == middle[k]);
                    }
                }
                assert forall|k: int| 0 <= k < before.len() implies (#[trigger] self.tables[k]).name@
                    == before[k].name@ by {
                    if k != i {
                        assert(self.tables[k] == middle[k]);
                    }
                }
                assert forall|k: int| i + 1 <= k < before.len() implies (#[trigger] self.tables[k])
                    == before[k] by {
                    assert(self.tables[k] == middle[k]);
                }
            }
            i = i + 1;
        }
        proof {
            assert(names.len() == self.tables.len());
            assert(self@ == old(self)@.closed().0);
        }
        disk
    }
}

/// A statement that hands back questions has changed nothing and asks
/// nothing of the disk.
pub proof fn lemma_needs_changes_nothing(db: DatabaseModel, stmt: SQLStatement, facts: FactsModel, now: u64)
    ensures
        db.executed(stmt, facts, now).result is Err && db.executed(stmt, facts, now).result->Err_0
            is Needs ==> db.executed(stmt, facts, now).db == db && db.executed(
            stmt,
            facts,
            now,
        ).disk.len() == 0,
{
}

/// `row` with each assignment carried out, in order.
pub fn assign(row: &Row, assignments: &Vec<(String, String)>) -> (changed: Row)
    requires
        row.wf(),
    ensures
        changed.wf(),
        changed@ == assigned(row@, pair_views(assignments@)),
{
    let ghost all = pair_views(assignments@);
    let mut changed = row.clone();
    let mut i: usize = 0;
    proof {
        assert(all.subrange(0, 0) =~= Seq::<(Seq<char>, Seq<char>)>::empty());
    }
    while i < assignments.len()
        invariant
            i <= assignments.len(),
            all == pair_views(assignments@),
            changed.wf(),
            changed@ == assigned(row@, all.subrange(0, i as int)),
        decreases assignments.len() - i,
    {
        let ghost next = all.subrange(0, i + 1);
        proof {
            assert(next.drop_last() =~= all.subrange(0, i as int));
            assert(next.last() == (assignments[i as int].0@, assignments[i as int].1@));
        }
        changed.insert(assignments[i].0.clone(), assignments[i].1.clone());
        i = i + 1;
    }
    proof {
        assert(all.subrange(0, assignments.len() as int) =~= all);
    }
    changed
}

/// The key for a row inserted at the time `now`: that of the least number
/// from `from` on under which `engine` holds no record, live or deleted.
pub fn fresh_key_in(engine: &LSMStorage, now: u64, from: usize) -> (key: String)
    requires
        engine.wf(),
    ensures
        key@ == fresh_key(engine@, now, from as nat),
        !engine@.current().contains_key(key@),
{
    let ghost goal = fresh_number(engine@, now, from as nat);
    proof {
        engine.lemma_holds_finitely();
        law_fresh_key_is_new(engine@, now, from as nat);
    }
    let mut n: u128 = from as u128;
    loop
        invariant
            engine.wf(),
            goal == fresh_number(engine@, now, from as nat),
            free_number(engine@, now, from as nat, goal),
            goal <= from + (SSTABLE_FANOUT + 1) * usize::MAX,
            from <= n <= goal,
        decreases goal - n,
    {
        let mut key = "row_".to_owned();
        push_decimal(&mut key, now);
        key.append("_");
        push_decimal_wide(&mut key, n);
        assert(key@ =~= storage_key(now, n as nat));
        if !engine.holds(key.as_str()) {
            proof {
                if n < goal {
                    assert(engine@.current().contains_key(storage_key(now, n as nat)));
                }
            }
            return key;
        }
        assert(n < goal);
        assert(goal <= from + 4 * usize::MAX);
        assert(usize::MAX <= u64::MAX);
        n = n + 1;
    }
}

/// The row that holds `values` under `columns`, place by place.
pub fn zip_row(columns: &Vec<String>, values: &Vec<String>) -> (row: Row)
    requires
        columns.len() == values.len(),
    ensures
        row.wf(),
        row@ == zip_map(text_views(columns@), text_views(values@)),
{
    let ghost names = text_views(columns@);
    let ghost texts = text_views(values@);
    let mut row = Row::new();
    let mut i: usize = 0;
    proof {
        assert(names.subrange(0, 0) =~= Seq::<Seq<char>>::empty());
    }
    while i < columns.len()
        invariant
            i <= columns.len(),
            columns.len() == values.len(),
            names == text_views(columns@),
            texts == text_views(values@),
            row.wf(),
            row@ == zip_map(names.subrange(0, i as int), texts.subrange(0, i as int)),
        decreases columns.len() - i,
    {
        let ghost next_names = names.subrange(0, i + 1);
        let ghost next_texts = texts.subrange(0, i + 1);
        proof {
            assert(next_names.drop_last() =~= names.subrange(0, i as int));
            assert(next_texts.drop_last() =~= texts.subrange(0, i as int));
            assert(next_names.last() == columns[i as int]@);
            assert(next_texts.last() == values[i as int]@);
        }
        row.insert(columns[i].clone(), values[i].clone());
        i = i + 1;
    }
    proof {
        assert(names.subrange(0, columns.len() as int) =~= names);
        assert(texts.subrange(0, columns.len() as int) =~= texts);
    }
    row
}

/// Once start-up has failed it stays failed.
pub proof fn lemma_startup_run_failed(
    dir: Seq<char>,
    logs: Map<Seq<char>, Seq<EntryModel>>,
    names: Seq<Seq<char>>,
    at: nat,
    n: nat,
)
    requires
        at <= n <= names.len(),
        startup_run(dir, logs, names, at) is Err,
    ensures
        startup_run(dir, logs, names, n) == startup_run(dir, logs, names, at),
    decreases n,
{
    if n > at {
        lemma_startup_run_failed(dir, logs, names, at, (n - 1) as nat);
    }
}

/// The table whose recorded columns the directory `name` holds, if it is the
/// directory of a schema.
pub fn strip_schema_suffix(name: &str) -> (table: Option<String>)
    ensures
        match table {
            Some(text) => table_of_schema_dir(name@) == Some(text@),
            None => table_of_schema_dir(name@) is None,
        },
{
    proof {
        reveal_strlit("_schema");
    }
    let n: usize = vstd::string::StrSliceExecFns::unicode_len(name);
    if n < 7 {
        return None;
    }
    let tail = vstd::string::StrSliceExecFns::substring_char(name, n - 7, n);
    if crate::text::str_same(tail, "_schema") {
        let stem = vstd::string::StrSliceExecFns::substring_char(name, 0, n - 7);
        Some(stem.to_owned())
    } else {
        None
    }
}

} // verus!
