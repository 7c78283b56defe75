use vstd::prelude::*;
use crate::engine::LSMStorage;
use crate::entry::{entry_views, EntryModel, StorageEntry};
use crate::error::{framed, ErrorModel};
use crate::keys::{ascending, key_seq, keyed_map, Keyed};
use crate::model::EngineModel;
use crate::row::decoded_row;
use crate::text::text_views;

verus! {

/// A table of the catalog: its name and its storage engine.
#[derive(Debug)]
pub struct TableEntry {
    pub name: String,
    pub storage: LSMStorage,
}

impl Keyed for TableEntry {
    open spec fn key_view(&self) -> Seq<char> {
        self.name@
    }

    fn key_text(&self) -> (key: &str) {
        self.name.as_str()
    }
}

/// The recorded columns of a table, in the order of their declaration.
#[derive(Debug)]
pub struct SchemaEntry {
    pub name: String,
    pub columns: Vec<String>,
}

impl Keyed for SchemaEntry {
    open spec fn key_view(&self) -> Seq<char> {
        self.name@
    }

    fn key_text(&self) -> (key: &str) {
        self.name.as_str()
    }
}

/// The log of a directory under the data directory that no open table uses.
#[derive(Debug)]
pub struct DirLog {
    pub name: String,
    pub entries: Vec<StorageEntry>,
}

impl Keyed for DirLog {
    open spec fn key_view(&self) -> Seq<char> {
        self.name@
    }

    fn key_text(&self) -> (key: &str) {
        self.name.as_str()
    }
}

/// The state of the database: what each open table stores, the recorded
/// columns, and the logs of the directories that are not open.
pub struct DatabaseModel {
    /// The data directory.
    pub dir: Seq<char>,
    /// The open tables by name.
    pub tables: Map<Seq<char>, EngineModel>,
    /// The recorded columns by table name.
    pub schemas: Map<Seq<char>, Seq<Seq<char>>>,
    /// The logs, by directory name, of the directories that are not open.
    pub dormant: Map<Seq<char>, Seq<EntryModel>>,
}

/// The tables as the map from name to engine state.
pub open spec fn table_map(tables: Seq<TableEntry>) -> Map<Seq<char>, EngineModel> {
    Map::new(
        |name: Seq<char>| keyed_map(tables).contains_key(name),
        |name: Seq<char>| keyed_map(tables)[name].storage@,
    )
}

/// The schemas as the map from table name to column names.
pub open spec fn schema_map(schemas: Seq<SchemaEntry>) -> Map<Seq<char>, Seq<Seq<char>>> {
    Map::new(
        |name: Seq<char>| keyed_map(schemas).contains_key(name),
        |name: Seq<char>| text_views(keyed_map(schemas)[name].columns@),
    )
}

/// The logs as the map from directory name to records.
pub open spec fn log_map(logs: Seq<DirLog>) -> Map<Seq<char>, Seq<EntryModel>> {
    Map::new(
        |name: Seq<char>| keyed_map(logs).contains_key(name),
        |name: Seq<char>| entry_views(keyed_map(logs)[name].entries@),
    )
}

/// The error of a table that is not in the catalog.
pub open spec fn table_not_found(name: Seq<char>) -> ErrorModel {
    ErrorModel::NotFound(framed("Table '"@, name, "' not found"@))
}

/// The error of a joined table that is not in the catalog.
pub open spec fn right_table_not_found(name: Seq<char>) -> ErrorModel {
    ErrorModel::NotFound(framed("Right table '"@, name, "' not found"@))
}

/// The rows that the stored pairs hold, in order; the error of the first
/// value that does not decode.
pub open spec fn stored_rows(pairs: Seq<(Seq<char>, Seq<char>)>) -> Result<
    Seq<Map<Seq<char>, Seq<char>>>,
    ErrorModel,
>
    decreases pairs.len(),
{
    if pairs.len() == 0 {
        Ok(Seq::empty())
    } else {
        match stored_rows(pairs.drop_last()) {
            Err(error) => Err(error),
            Ok(rows) => match decoded_row(pairs.last().1) {
                Ok(row) => Ok(rows.push(row)),
                Err(error) => Err(error),
            },
        }
    }
}

/// The storage keys of the stored pairs, in order.
pub open spec fn stored_keys(pairs: Seq<(Seq<char>, Seq<char>)>) -> Seq<Seq<char>> {
    Seq::new(pairs.len(), |i: int| pairs[i].0)
}

/// The rows of a table, by ascending storage key.
pub open spec fn table_rows(engine: EngineModel) -> Result<Seq<Map<Seq<char>, Seq<char>>>, ErrorModel> {
    stored_rows(engine.visible_pairs())
}

/// The storage keys of a table that holds finitely many keys come in
/// strictly ascending order: each live key once.
pub proof fn lemma_stored_keys_ascend(engine: EngineModel)
    requires
        engine.current().dom().finite(),
    ensures
        ascending(stored_keys(engine.visible_pairs())),
        forall|i: int, j: int|
            0 <= i < j < stored_keys(engine.visible_pairs()).len() ==> stored_keys(
                engine.visible_pairs(),
            )[i] != stored_keys(engine.visible_pairs())[j],
        forall|key: Seq<char>|
            stored_keys(engine.visible_pairs()).contains(key) <==> engine.read(key) is Some,
{
    let live = engine.live().dom();
    assert(live.subset_of(engine.current().dom()));
    vstd::set_lib::lemma_len_subset(live, engine.current().dom());
    crate::keys::lemma_sorted_exists(live);
    let keys = stored_keys(engine.visible_pairs());
    assert(keys =~= crate::keys::sorted_keys(live));
    assert forall|i: int, j: int| 0 <= i < j < keys.len() implies keys[i] != keys[j] by {
        if keys[i] == keys[j] {
            crate::keys::lemma_ascending_distinct(keys, i, j);
        }
    }
}

/// The stored rows are as many as the pairs.
pub proof fn lemma_stored_rows_len(pairs: Seq<(Seq<char>, Seq<char>)>)
    ensures
        stored_rows(pairs) is Ok ==> stored_rows(pairs)->Ok_0.len() == pairs.len(),
    decreases pairs.len(),
{
    if pairs.len() > 0 {
        lemma_stored_rows_len(pairs.drop_last());
    }
}

/// What filing a table does to the map of the tables.
pub proof fn lemma_table_map_insert(before: Seq<TableEntry>, after: Seq<TableEntry>, entry: TableEntry)
    requires
        keyed_map(after) == keyed_map(before).insert(entry.name@, entry),
    ensures
        table_map(after) == table_map(before).insert(entry.name@, entry.storage@),
{
    let goal = table_map(before).insert(entry.name@, entry.storage@);
    assert forall|k: Seq<char>| table_map(after).contains_key(k) <==> goal.contains_key(k) by {
        assert(keyed_map(after).contains_key(k) <==> (k == entry.name@ || keyed_map(before).contains_key(k)));
    }
    assert(table_map(after) =~= goal);
}

/// What taking a table out does to the map of the tables.
pub proof fn lemma_table_map_remove(before: Seq<TableEntry>, after: Seq<TableEntry>, name: Seq<char>)
    requires
        keyed_map(after) == keyed_map(before).remove(name),
    ensures
        table_map(after) == table_map(before).remove(name),
{
    let goal = table_map(before).remove(name);
    assert forall|k: Seq<char>| table_map(after).contains_key(k) <==> goal.contains_key(k) by {
        assert(keyed_map(after).contains_key(k) <==> (k != name && keyed_map(before).contains_key(k)));
    }
    assert(table_map(after) =~= goal);
}

/// What filing recorded columns does to the map of the schemas.
pub proof fn lemma_schema_map_insert(before: Seq<SchemaEntry>, after: Seq<SchemaEntry>, entry: SchemaEntry)
    requires
        keyed_map(after) == keyed_map(before).insert(entry.name@, entry),
    ensures
        schema_map(after) == schema_map(before).insert(entry.name@, text_views(entry.columns@)),
{
    let goal = schema_map(before).insert(entry.name@, text_views(entry.columns@));
    assert forall|k: Seq<char>| schema_map(after).contains_key(k) <==> goal.contains_key(k) by {
        assert(keyed_map(after).contains_key(k) <==> (k == entry.name@ || keyed_map(before).contains_key(k)));
    }
    assert(schema_map(after) =~= goal);
}

/// What taking recorded columns out does to the map of the schemas.
pub proof fn lemma_schema_map_remove(before: Seq<SchemaEntry>, after: Seq<SchemaEntry>, name: Seq<char>)
    requires
        keyed_map(after) == keyed_map(before).remove(name),
    ensures
        schema_map(after) == schema_map(before).remove(name),
{
    let goal = schema_map(before).remove(name);
    assert forall|k: Seq<char>| schema_map(after).contains_key(k) <==> goal.contains_key(k) by {
        assert(keyed_map(after).contains_key(k) <==> (k != name && keyed_map(before).contains_key(k)));
    }
    assert(schema_map(after) =~= goal);
}

/// What filing a log does to the map of the logs.
pub proof fn lemma_log_map_insert(before: Seq<DirLog>, after: Seq<DirLog>, entry: DirLog)
    requires
        keyed_map(after) == keyed_map(before).insert(entry.name@, entry),
    ensures
        log_map(after) == log_map(before).insert(entry.name@, entry_views(entry.entries@)),
{
    let goal = log_map(before).insert(entry.name@, entry_views(entry.entries@));
    assert forall|k: Seq<char>| log_map(after).contains_key(k) <==> goal.contains_key(k) by {
        assert(keyed_map(after).contains_key(k) <==> (k == entry.name@ || keyed_map(before).contains_key(k)));
    }
    assert(log_map(after) =~= goal);
}

/// What taking a log out does to the map of the logs.
pub proof fn lemma_log_map_remove(before: Seq<DirLog>, after: Seq<DirLog>, name: Seq<char>)
    requires
        keyed_map(after) == keyed_map(before).remove(name),
    ensures
        log_map(after) == log_map(before).remove(name),
{
    let goal = log_map(before).remove(name);
    assert forall|k: Seq<char>| log_map(after).contains_key(k) <==> goal.contains_key(k) by {
        assert(keyed_map(after).contains_key(k) <==> (k != name && keyed_map(before).contains_key(k)));
    }
    assert(log_map(after) =~= goal);
}

/// What a change to the engine of the table at place `at` does to the map of
/// the tables.
pub proof fn lemma_table_map_update(before: Seq<TableEntry>, after: Seq<TableEntry>, at: int)
    requires
        ascending(key_seq(before)),
        0 <= at < before.len(),
        after.len() == before.len(),
        after[at].name@ == before[at].name@,
        forall|i: int| 0 <= i < before.len() && i != at ==> after[i] == before[i],
    ensures
        ascending(key_seq(after)),
        table_map(after) == table_map(before).insert(before[at].name@, after[at].storage@),
{
    assert(key_seq(after) =~= key_seq(before));
    crate::keys::lemma_keyed_map_item(before, at);
    assert(key_seq(before)[at] == after[at].key_view());
    crate::keys::lemma_position(key_seq(before), at);
    assert(after =~= before.update(at, after[at]));
    crate::keys::lemma_upsert_map(before, after, after[at], at);
    lemma_table_map_insert(before, after, after[at]);
}

} // verus!
