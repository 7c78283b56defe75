use vstd::prelude::*;
use vstd::string::StringExecFns;
use crate::ast::{
    AlterAction, AlterTableStatement, CreateTableStatement, DeleteStatement, DropTableStatement,
    InsertStatement, SQLStatement, SelectStatement, UpdateStatement,
};
use crate::catalog::{
    right_table_not_found, stored_keys, table_not_found, table_rows, DatabaseModel, DirLog,
};
use crate::disk::{path_in, DiskOp, DiskOpModel};
use crate::entry::{entry_line, entry_views, present_entry, tombstone, EntryModel};
use crate::error::{ErrorModel, ExecError};
use crate::filter::{keep_count, JudgementModel, StopModel};
use crate::json::{json_array, json_array_parse, json_object, zip_map};
use crate::keys::{ascending, Keyed};
use crate::model::EngineModel;
use crate::numeric::{query_views, FactsModel, NumberQuery, QueryModel};
use crate::select::select_result;
use crate::text::{decimal, pair_views, text_views, tuple_views};

verus! {

/// What the engine answers to a statement: the outcome, or the numeric
/// questions that it needs answered before it can carry the statement out.
#[derive(Debug)]
pub enum Reply {
    Done(Result<String, ExecError>),
    Needs(Vec<NumberQuery>),
}

/// The mathematical value of a `Reply`.
pub enum ReplyModel {
    Done(Result<Seq<char>, ErrorModel>),
    Needs(Seq<QueryModel>),
}

impl View for Reply {
    type V = ReplyModel;

    open spec fn view(&self) -> ReplyModel {
        match self {
            Reply::Done(Ok(text)) => ReplyModel::Done(Ok(text@)),
            Reply::Done(Err(error)) => ReplyModel::Done(Err(error@)),
            Reply::Needs(queries) => ReplyModel::Needs(query_views(queries@)),
        }
    }
}

/// The reply that stands for the outcome of a stage.
pub open spec fn reply_of(outcome: Result<Seq<char>, StopModel>) -> ReplyModel {
    match outcome {
        Ok(text) => ReplyModel::Done(Ok(text)),
        Err(StopModel::Failed(error)) => ReplyModel::Done(Err(error)),
        Err(StopModel::Needs(queries)) => ReplyModel::Needs(queries),
    }
}

/// What a statement led to: the reply, and what must happen on disk.
#[derive(Debug)]
pub struct Execution {
    pub reply: Reply,
    pub disk: Vec<DiskOp>,
}

impl DatabaseModel {
    /// The recorded columns of `table`, if any were recorded.
    pub open spec fn schema_of(self, table: Seq<char>) -> Option<Seq<Seq<char>>> {
        if self.schemas.contains_key(table) {
            Some(self.schemas[table])
        } else {
            None
        }
    }

    /// The rows of `table`, or why they cannot be had.
    pub open spec fn rows_of(self, table: Seq<char>, missing: ErrorModel) -> Result<
        Seq<Map<Seq<char>, Seq<char>>>,
        StopModel,
    > {
        if !self.tables.contains_key(table) {
            Err(StopModel::Failed(missing))
        } else {
            match table_rows(self.tables[table]) {
                Ok(rows) => Ok(rows),
                Err(error) => Err(StopModel::Failed(error)),
            }
        }
    }

    /// What a SELECT gives.
    pub open spec fn select(self, stmt: SelectStatement, facts: FactsModel) -> Result<
        Seq<char>,
        StopModel,
    > {
        match self.rows_of(stmt.table@, table_not_found(stmt.table@)) {
            Err(stop) => Err(stop),
            Ok(lefts) => match stmt.join {
                None => select_result(lefts, Seq::empty(), stmt, self.schema_of(stmt.table@), facts),
                Some(join) => match self.rows_of(join.table@, right_table_not_found(join.table@)) {
                    Err(stop) => Err(stop),
                    Ok(rights) => select_result(lefts, rights, stmt, self.schema_of(stmt.table@), facts),
                },
            },
        }
    }
}

/// The storage key of an inserted row: the time of the INSERT and a number.
pub open spec fn storage_key(now: u64, n: nat) -> Seq<char> {
    "row_"@ + decimal(now as nat) + "_"@ + decimal(n)
}

/// Whether `n` is the least number from `from` on under whose key for the
/// time `now` the table holds no record, live or deleted.
pub open spec fn free_number(engine: EngineModel, now: u64, from: nat, n: nat) -> bool {
    &&& from <= n
    &&& !engine.current().contains_key(storage_key(now, n))
    &&& forall|j: nat| from <= j < n ==> engine.current().contains_key(#[trigger] storage_key(now, j))
}

/// The least number from `from` on whose key is free.
pub open spec fn fresh_number(engine: EngineModel, now: u64, from: nat) -> nat {
    choose|n: nat| free_number(engine, now, from, n)
}

/// The key under which a row is inserted: that of the least free number
/// from `from` on.
pub open spec fn fresh_key(engine: EngineModel, now: u64, from: nat) -> Seq<char> {
    storage_key(now, fresh_number(engine, now, from))
}

/// At most one number is the least free one.
pub proof fn lemma_free_number_unique(engine: EngineModel, now: u64, from: nat, a: nat, b: nat)
    requires
        free_number(engine, now, from, a),
        free_number(engine, now, from, b),
    ensures
        a == b,
{
    if a < b {
        assert(engine.current().contains_key(storage_key(now, a)));
    }
    if b < a {
        assert(engine.current().contains_key(storage_key(now, b)));
    }
}

/// Two numbers with one storage key for a time are one number.
pub proof fn lemma_storage_key_injective(now: u64, a: nat, b: nat)
    requires
        storage_key(now, a) == storage_key(now, b),
    ensures
        a == b,
{
    let head = "row_"@ + decimal(now as nat) + "_"@;
    let left = head + decimal(a);
    let right = head + decimal(b);
    assert(left.subrange(head.len() as int, left.len() as int) =~= decimal(a));
    assert(right.subrange(head.len() as int, right.len() as int) =~= decimal(b));
    crate::text::lemma_decimal_injective(a, b);
}

/// The search for a free number from `n` on, after every number from `from`
/// up to `n` was found taken: `tested` holds their keys.
proof fn lemma_search(engine: EngineModel, now: u64, from: nat, n: nat, tested: Set<Seq<char>>)
    requires
        from <= n,
        engine.current().dom().finite(),
        tested.subset_of(engine.current().dom()),
        tested.len() == n - from,
        forall|j: nat| from <= j < n ==> tested.contains(#[trigger] storage_key(now, j)),
        forall|k: Seq<char>| #[trigger]
            tested.contains(k) ==> exists|j: nat| from <= j < n && k == storage_key(now, j),
    ensures
        exists|m: nat| #[trigger]
            free_number(engine, now, from, m) && m <= from + engine.current().dom().len(),
    decreases engine.current().dom().len() - tested.len(),
{
    let dom = engine.current().dom();
    vstd::set_lib::lemma_len_subset(tested, dom);
    let key = storage_key(now, n);
    if !dom.contains(key) {
        assert(free_number(engine, now, from, n));
    } else {
        if tested.contains(key) {
            let j = choose|j: nat| from <= j < n && key == storage_key(now, j);
            lemma_storage_key_injective(now, j, n);
        }
        let more = tested.insert(key);
        assert(more.subset_of(dom));
        vstd::set_lib::lemma_len_subset(more, dom);
        assert forall|k: Seq<char>| #[trigger] more.contains(k) implies exists|j: nat|
            from <= j < n + 1 && k == storage_key(now, j) by {
            if k == key {
                assert(from <= n < n + 1 && k == storage_key(now, n));
            } else {
                let j = choose|j: nat| from <= j < n && k == storage_key(now, j);
                assert(from <= j < n + 1 && k == storage_key(now, j));
            }
        }
        lemma_search(engine, now, from, n + 1, more);
    }
}

/// A table that holds finitely many keys has a free number from `from` on,
/// no further from it than the table has keys: the key chosen for an
/// inserted row is one under which the table holds nothing.
pub proof fn law_fresh_key_is_new(engine: EngineModel, now: u64, from: nat)
    requires
        engine.current().dom().finite(),
    ensures
        free_number(engine, now, from, fresh_number(engine, now, from)),
        fresh_number(engine, now, from) <= from + engine.current().dom().len(),
        !engine.current().contains_key(fresh_key(engine, now, from)),
        engine.read(fresh_key(engine, now, from)) is None,
{
    lemma_search(engine, now, from, from, Set::empty());
    let m = choose|m: nat| #[trigger]
        free_number(engine, now, from, m) && m <= from + engine.current().dom().len();
    lemma_free_number_unique(engine, now, from, m, fresh_number(engine, now, from));
}

/// Whether the tuple at the place `j` has not as many values as there are
/// columns.
pub open spec fn misfit(columns: Seq<Seq<char>>, tuples: Seq<Seq<Seq<char>>>, j: int) -> bool {
    0 <= j < tuples.len() && tuples[j].len() != columns.len()
}

/// Whether `j` is the place of the first tuple that does not fit, or the
/// number of tuples where all fit.
pub open spec fn fits_up_to(columns: Seq<Seq<char>>, tuples: Seq<Seq<Seq<char>>>, j: int) -> bool {
    &&& 0 <= j <= tuples.len()
    &&& j < tuples.len() ==> misfit(columns, tuples, j)
    &&& forall|i: int| 0 <= i < j ==> !misfit(columns, tuples, i)
}

/// The number of tuples that an INSERT writes: the place of the first tuple
/// that has not as many values as there are columns, or the number of
/// tuples where all fit.
pub open spec fn first_misfit(columns: Seq<Seq<char>>, tuples: Seq<Seq<Seq<char>>>) -> nat {
    (choose|j: int| fits_up_to(columns, tuples, j)) as nat
}

/// The place of the first tuple that does not fit is the only one that has
/// none such before it.
pub proof fn lemma_first_misfit(columns: Seq<Seq<char>>, tuples: Seq<Seq<Seq<char>>>, j: int)
    requires
        fits_up_to(columns, tuples, j),
    ensures
        first_misfit(columns, tuples) == j,
{
    let other = choose|k: int| fits_up_to(columns, tuples, k);
    if other < j {
        assert(!misfit(columns, tuples, other));
    }
    if j < other {
        assert(!misfit(columns, tuples, j));
    }
}

/// The error of an INSERT tuple that has not as many values as there are columns.
pub open spec fn schema_violation() -> ErrorModel {
    ErrorModel::SchemaViolation("Column count does not match value count"@)
}

/// A table's engine in the course of a statement, with what the statement
/// has asked of the disk so far.
pub struct TableRun {
    pub engine: EngineModel,
    pub disk: Seq<DiskOpModel>,
}

impl TableRun {
    /// The start of a statement's work on a table.
    pub open spec fn start(engine: EngineModel, disk: Seq<DiskOpModel>) -> TableRun {
        TableRun { engine, disk }
    }

    /// One more write to the table.
    pub open spec fn wrote(self, entry: EntryModel) -> TableRun {
        TableRun { engine: self.engine.applied(entry), disk: self.disk + self.engine.apply_ops(entry) }
    }

    /// `value` is stored under `key` while the clock shows `now`: the record
    /// is stamped with that time, but never below the newest of the table's
    /// log.
    pub open spec fn put(self, key: Seq<char>, value: Seq<char>, now: u64) -> TableRun {
        self.wrote(present_entry(key, value, self.engine.stamp(now)))
    }

    /// `key` is deleted while the clock shows `now`: the tombstone is stamped
    /// with that time, but never below the newest of the table's log.
    pub open spec fn removed(self, key: Seq<char>, now: u64) -> TableRun {
        self.wrote(tombstone(key, self.engine.stamp(now)))
    }
}

/// What a statement led to: the database after it, its outcome, and what
/// must happen on disk, in order.
pub struct Effect {
    pub db: DatabaseModel,
    pub result: Result<Seq<char>, StopModel>,
    pub disk: Seq<DiskOpModel>,
}

/// An INSERT after it has written its first `n` tuples: each tuple is
/// written as a row under a key that the table does not hold at that moment,
/// the one of the least free number from the tuple's place in the statement
/// on.
pub open spec fn insert_run(
    start: TableRun,
    columns: Seq<Seq<char>>,
    tuples: Seq<Seq<Seq<char>>>,
    now: u64,
    n: nat,
) -> TableRun
    recommends
        n <= tuples.len(),
    decreases n,
{
    if n == 0 {
        start
    } else {
        let prior = insert_run(start, columns, tuples, now, (n - 1) as nat);
        prior.put(
            fresh_key(prior.engine, now, (n - 1) as nat),
            json_object(zip_map(columns, tuples[n - 1])),
            now,
        )
    }
}

/// The key under which an INSERT writes its tuple `i`.
pub open spec fn inserted_key(
    start: TableRun,
    columns: Seq<Seq<char>>,
    tuples: Seq<Seq<Seq<char>>>,
    now: u64,
    i: nat,
) -> Seq<char> {
    fresh_key(insert_run(start, columns, tuples, now, i).engine, now, i)
}

/// An INSERT adds with its first `n` tuples one row for each
/// and changes nothing else, where the table holds finitely many keys and
/// its timestamps are in step: the keys it writes under are new to
/// the table and differ from one another, each holds the row of its tuple,
/// every record that the table held is as it was, and the table holds no
/// other record.
pub proof fn law_insert_adds_rows(
    start: TableRun,
    columns: Seq<Seq<char>>,
    tuples: Seq<Seq<Seq<char>>>,
    now: u64,
    n: nat,
)
    requires
        n <= tuples.len(),
        start.engine.in_step(),
        start.engine.current().dom().finite(),
    ensures
        insert_run(start, columns, tuples, now, n).engine.in_step(),
        insert_run(start, columns, tuples, now, n).engine.current().dom().finite(),
        forall|i: nat|
            i < n ==> !start.engine.current().contains_key(
                #[trigger] inserted_key(start, columns, tuples, now, i),
            ),
        forall|i: nat, j: nat|
            i < j < n ==> #[trigger] inserted_key(start, columns, tuples, now, i)
                != #[trigger] inserted_key(start, columns, tuples, now, j),
        forall|i: nat|
            i < n ==> {
                let key = #[trigger] inserted_key(start, columns, tuples, now, i);
                let after = insert_run(start, columns, tuples, now, n).engine;
                &&& after.current().contains_key(key)
                &&& after.current()[key].key == key
                &&& after.read(key) == Some(json_object(zip_map(columns, tuples[i as int])))
            },
        forall|key: Seq<char>| #[trigger]
            start.engine.current().contains_key(key) ==> {
                let after = insert_run(start, columns, tuples, now, n).engine;
                &&& after.current().contains_key(key)
                &&& after.current()[key] == start.engine.current()[key]
                &&& after.read(key) == start.engine.read(key)
            },
        forall|key: Seq<char>| #[trigger]
            insert_run(start, columns, tuples, now, n).engine.current().contains_key(key)
                ==> start.engine.current().contains_key(key) || exists|i: nat|
                i < n && key == inserted_key(start, columns, tuples, now, i),
    decreases n,
{
    if n > 0 {
        let m = (n - 1) as nat;
        let prior = insert_run(start, columns, tuples, now, m);
        let after = insert_run(start, columns, tuples, now, n).engine;
        law_insert_adds_rows(start, columns, tuples, now, m);
        let key = inserted_key(start, columns, tuples, now, m);
        let entry = present_entry(
            key,
            json_object(zip_map(columns, tuples[m as int])),
            prior.engine.stamp(now),
        );
        law_fresh_key_is_new(prior.engine, now, m);
        crate::storage_laws::law_write_in_step(prior.engine, entry);
        assert(after.current() == prior.engine.current().insert(key, entry));
        assert forall|i: nat| i < n implies {
            let k = #[trigger] inserted_key(start, columns, tuples, now, i);
            &&& after.current().contains_key(k)
            &&& after.current()[k].key == k
            &&& after.read(k) == Some(json_object(zip_map(columns, tuples[i as int])))
        } by {
            let k = inserted_key(start, columns, tuples, now, i);
            if i < m {
                assert(prior.engine.current().contains_key(k));
            }
        }
        assert forall|k: Seq<char>| #[trigger] after.current().contains_key(k) implies start.engine.current().contains_key(k)
            || exists|i: nat| i < n && k == inserted_key(start, columns, tuples, now, i) by {
            if k == key {
                assert(m < n && k == inserted_key(start, columns, tuples, now, m));
            } else {
                assert(prior.engine.current().contains_key(k));
                if !start.engine.current().contains_key(k) {
                    let i = choose|i: nat| i < m && k == inserted_key(start, columns, tuples, now, i);
                    assert(i < n && k == inserted_key(start, columns, tuples, now, i));
                }
            }
        }
    }
}

/// An INSERT leaves with its first `n` tuples one row for each, whatever
/// the timestamps of the table are: the keys it writes under
/// are new to the table and differ from one another, a reader finds under
/// each the row of its tuple, and the table holds the keys it held and
/// these.
pub proof fn law_insert_rows_are_read(
    start: TableRun,
    columns: Seq<Seq<char>>,
    tuples: Seq<Seq<Seq<char>>>,
    now: u64,
    n: nat,
)
    requires
        n <= tuples.len(),
        start.engine.current().dom().finite(),
    ensures
        insert_run(start, columns, tuples, now, n).engine.current().dom().finite(),
        forall|i: nat|
            i < n ==> !start.engine.current().contains_key(
                #[trigger] inserted_key(start, columns, tuples, now, i),
            ),
        forall|i: nat, j: nat|
            i < j < n ==> #[trigger] inserted_key(start, columns, tuples, now, i)
                != #[trigger] inserted_key(start, columns, tuples, now, j),
        forall|i: nat|
            i < n ==> {
                let key = #[trigger] inserted_key(start, columns, tuples, now, i);
                let after = insert_run(start, columns, tuples, now, n).engine;
                &&& after.crowned(key)
                &&& after.current()[key].key == key
                &&& after.read(key) == Some(json_object(zip_map(columns, tuples[i as int])))
            },
        forall|key: Seq<char>| #[trigger]
            insert_run(start, columns, tuples, now, n).engine.current().contains_key(key) <==> (
            start.engine.current().contains_key(key) || exists|i: nat|
                i < n && key == inserted_key(start, columns, tuples, now, i)),
    decreases n,
{
    if n > 0 {
        let m = (n - 1) as nat;
        let prior = insert_run(start, columns, tuples, now, m);
        let after = insert_run(start, columns, tuples, now, n).engine;
        law_insert_rows_are_read(start, columns, tuples, now, m);
        let key = inserted_key(start, columns, tuples, now, m);
        let entry = present_entry(
            key,
            json_object(zip_map(columns, tuples[m as int])),
            prior.engine.stamp(now),
        );
        law_fresh_key_is_new(prior.engine, now, m);
        crate::storage_laws::law_new_key_is_read(prior.engine, entry);
        crate::storage_laws::law_write_adds_key(prior.engine, entry);
        assert forall|i: nat| i < n implies {
            let k = #[trigger] inserted_key(start, columns, tuples, now, i);
            &&& after.crowned(k)
            &&& after.current()[k].key == k
            &&& after.read(k) == Some(json_object(zip_map(columns, tuples[i as int])))
        } by {
            let k = inserted_key(start, columns, tuples, now, i);
            if i < m {
                assert(prior.engine.current().contains_key(k));
                crate::storage_laws::law_other_write_keeps_crowned(prior.engine, entry, k);
            }
        }
        assert forall|i: nat, j: nat| i < j < n implies #[trigger] inserted_key(
            start,
            columns,
            tuples,
            now,
            i,
        ) != #[trigger] inserted_key(start, columns, tuples, now, j) by {
            if j == m {
                assert(prior.engine.current().contains_key(inserted_key(start, columns, tuples, now, i)));
            }
        }
        assert forall|k: Seq<char>| #[trigger] after.current().contains_key(k) <==> (
        start.engine.current().contains_key(k) || exists|i: nat|
            i < n && k == inserted_key(start, columns, tuples, now, i)) by {
            assert(after.current().dom().contains(k) <==> prior.engine.current().dom().insert(
                key,
            ).contains(k));
            if k == key {
                assert(m < n && k == inserted_key(start, columns, tuples, now, m));
            } else if prior.engine.current().contains_key(k) {
                if !start.engine.current().contains_key(k) {
                    let i = choose|i: nat| i < m && k == inserted_key(start, columns, tuples, now, i);
                    assert(i < n && k == inserted_key(start, columns, tuples, now, i));
                }
            } else {
                if exists|i: nat| i < n && k == inserted_key(start, columns, tuples, now, i) {
                    let i = choose|i: nat| i < n && k == inserted_key(start, columns, tuples, now, i);
                    assert(i < m);
                    assert(prior.engine.current().contains_key(inserted_key(start, columns, tuples, now, i)));
                }
            }
        }
    }
}

/// `row` with each assignment carried out, in order.
pub open spec fn assigned(row: Map<Seq<char>, Seq<char>>, assignments: Seq<(Seq<char>, Seq<char>)>) -> Map<
    Seq<char>,
    Seq<char>,
>
    decreases assignments.len(),
{
    if assignments.len() == 0 {
        row
    } else {
        assigned(row, assignments.drop_last()).insert(assignments.last().0, assignments.last().1)
    }
}

/// An UPDATE after it has dealt with the first `n` rows: each row that the
/// condition keeps is deleted and stored anew under its key.
pub open spec fn update_run(
    start: TableRun,
    keys: Seq<Seq<char>>,
    rows: Seq<Map<Seq<char>, Seq<char>>>,
    judgements: Seq<JudgementModel>,
    assignments: Seq<(Seq<char>, Seq<char>)>,
    now: u64,
    n: nat,
) -> TableRun
    recommends
        n <= rows.len(),
    decreases n,
{
    if n == 0 {
        start
    } else {
        let prior = update_run(start, keys, rows, judgements, assignments, now, (n - 1) as nat);
        if judgements[n - 1] is Keep {
            prior.removed(keys[n - 1], now).put(
                keys[n - 1],
                json_object(assigned(rows[n - 1], assignments)),
                now,
            )
        } else {
            prior
        }
    }
}

/// A DELETE after it has dealt with the first `n` rows: each row that the
/// condition keeps is deleted.
pub open spec fn delete_run(
    start: TableRun,
    keys: Seq<Seq<char>>,
    judgements: Seq<JudgementModel>,
    now: u64,
    n: nat,
) -> TableRun
    recommends
        n <= keys.len(),
    decreases n,
{
    if n == 0 {
        start
    } else {
        let prior = delete_run(start, keys, judgements, now, (n - 1) as nat);
        if judgements[n - 1] is Keep {
            prior.removed(keys[n - 1], now)
        } else {
            prior
        }
    }
}

/// Whether `key` is the key of one of the first `n` rows that the
/// condition keeps.
pub open spec fn kept_key(
    keys: Seq<Seq<char>>,
    judgements: Seq<JudgementModel>,
    n: nat,
    key: Seq<char>,
) -> bool {
    exists|i: int| 0 <= i < n && #[trigger] keys[i] == key && judgements[i] is Keep
}

/// A DELETE removes the rows that its condition keeps and no others: after
/// it a reader finds nothing under the key of such a row, and under every
/// other key what was there before.
pub proof fn law_delete_removes_rows(
    start: TableRun,
    keys: Seq<Seq<char>>,
    judgements: Seq<JudgementModel>,
    now: u64,
    n: nat,
)
    requires
        n <= keys.len(),
        n <= judgements.len(),
        start.engine.in_step(),
    ensures
        delete_run(start, keys, judgements, now, n).engine.in_step(),
        forall|key: Seq<char>|
            kept_key(keys, judgements, n, key) ==> #[trigger] delete_run(
                start,
                keys,
                judgements,
                now,
                n,
            ).engine.read(key) is None,
        forall|key: Seq<char>|
            !kept_key(keys, judgements, n, key) ==> #[trigger] delete_run(
                start,
                keys,
                judgements,
                now,
                n,
            ).engine.read(key) == start.engine.read(key),
    decreases n,
{
    if n > 0 {
        let m = (n - 1) as nat;
        let prior = delete_run(start, keys, judgements, now, m);
        let after = delete_run(start, keys, judgements, now, n);
        law_delete_removes_rows(start, keys, judgements, now, m);
        if judgements[m as int] is Keep {
            crate::storage_laws::law_write_in_step(
                prior.engine,
                tombstone(keys[m as int], prior.engine.stamp(now)),
            );
        }
        assert forall|key: Seq<char>| kept_key(keys, judgements, n, key) implies after.engine.read(
            key,
        ) is None by {
            let i = choose|i: int| 0 <= i < n && #[trigger] keys[i] == key && judgements[i] is Keep;
            if i < m {
                assert(kept_key(keys, judgements, m, key));
                assert(prior.engine.read(key) is None);
            }
            if judgements[m as int] is Keep && keys[m as int] != key {
                assert(after.engine.read(key) == prior.engine.read(key));
            }
        }
        assert forall|key: Seq<char>| !kept_key(keys, judgements, n, key) implies after.engine.read(
            key,
        ) == start.engine.read(key) by {
            if kept_key(keys, judgements, m, key) {
                let i = choose|i: int| 0 <= i < m && #[trigger] keys[i] == key && judgements[i] is Keep;
                assert(0 <= i < n && keys[i] == key && judgements[i] is Keep);
            }
            if judgements[m as int] is Keep && keys[m as int] == key {
                assert(0 <= m < n && keys[m as int] == key && judgements[m as int] is Keep);
            }
            assert(prior.engine.read(key) == start.engine.read(key));
            assert(after.engine.read(key) == prior.engine.read(key));
        }
    }
}

/// An UPDATE rewrites the rows that its condition keeps and no others,
/// where no two rows share a key: after it a reader finds under the key of
/// such a row the row with the assignments carried out, and under every
/// other key what was there before.
pub proof fn law_update_rewrites_rows(
    start: TableRun,
    keys: Seq<Seq<char>>,
    rows: Seq<Map<Seq<char>, Seq<char>>>,
    judgements: Seq<JudgementModel>,
    assignments: Seq<(Seq<char>, Seq<char>)>,
    now: u64,
    n: nat,
)
    requires
        n <= keys.len(),
        n <= rows.len(),
        n <= judgements.len(),
        start.engine.in_step(),
        forall|i: int, j: int| 0 <= i < j < n ==> keys[i] != keys[j],
    ensures
        update_run(start, keys, rows, judgements, assignments, now, n).engine.in_step(),
        forall|i: int|
            0 <= i < n && judgements[i] is Keep ==> update_run(
                start,
                keys,
                rows,
                judgements,
                assignments,
                now,
                n,
            ).engine.read(#[trigger] keys[i]) == Some(json_object(assigned(rows[i], assignments))),
        forall|key: Seq<char>|
            !kept_key(keys, judgements, n, key) ==> #[trigger] update_run(
                start,
                keys,
                rows,
                judgements,
                assignments,
                now,
                n,
            ).engine.read(key) == start.engine.read(key),
    decreases n,
{
    if n > 0 {
        let m = (n - 1) as nat;
        let prior = update_run(start, keys, rows, judgements, assignments, now, m);
        let after = update_run(start, keys, rows, judgements, assignments, now, n);
        law_update_rewrites_rows(start, keys, rows, judgements, assignments, now, m);
        if judgements[m as int] is Keep {
            let gone = tombstone(keys[m as int], prior.engine.stamp(now));
            crate::storage_laws::law_write_in_step(prior.engine, gone);
            let middle = prior.removed(keys[m as int], now);
            crate::storage_laws::law_write_in_step(
                middle.engine,
                present_entry(
                    keys[m as int],
                    json_object(assigned(rows[m as int], assignments)),
                    middle.engine.stamp(now),
                ),
            );
        }
        assert forall|i: int| 0 <= i < n && judgements[i] is Keep implies after.engine.read(
            #[trigger] keys[i],
        ) == Some(json_object(assigned(rows[i], assignments))) by {
            if i < m {
                assert(keys[i] != keys[m as int]);
            }
        }
        assert forall|key: Seq<char>| !kept_key(keys, judgements, n, key) implies after.engine.read(
            key,
        ) == start.engine.read(key) by {
            if kept_key(keys, judgements, m, key) {
                let i = choose|i: int| 0 <= i < m && #[trigger] keys[i] == key && judgements[i] is Keep;
                assert(0 <= i < n && keys[i] == key && judgements[i] is Keep);
            }
            if judgements[m as int] is Keep && keys[m as int] == key {
                assert(0 <= m < n && keys[m as int] == key && judgements[m as int] is Keep);
            }
            assert(prior.engine.read(key) == start.engine.read(key));
            assert(after.engine.read(key) == prior.engine.read(key));
        }
    }
}

/// The name of the directory that holds the recorded columns of `table`.
pub open spec fn schema_dir(table: Seq<char>) -> Seq<char> {
    table + "_schema"@
}

/// The names of the declared columns, in order.
pub open spec fn declared_names(columns: Seq<(String, String)>) -> Seq<Seq<char>> {
    Seq::new(columns.len(), |i: int| columns[i].0@)
}

/// What an ALTER TABLE answers.
pub open spec fn alter_text(stmt: AlterTableStatement) -> Seq<char> {
    match stmt.action {
        AlterAction::AddColumn(column) => "Added column '"@ + column@ + "' to table '"@ + stmt.table@
            + "'"@,
        AlterAction::DropColumn(column) => "Dropped column '"@ + column@ + "' from table '"@
            + stmt.table@ + "'"@,
        AlterAction::ModifyColumn(column, _) => "Modified column '"@ + column@ + "' in table '"@
            + stmt.table@ + "'"@,
    }
}

impl DatabaseModel {
    /// The log of the directory `name`: that of the open table, else that of
    /// the directory, else none.
    pub open spec fn log_of(self, name: Seq<char>) -> Seq<EntryModel> {
        if self.tables.contains_key(name) {
            self.tables[name].log
        } else if self.dormant.contains_key(name) {
            self.dormant[name]
        } else {
            Seq::empty()
        }
    }

    /// The logs of the open tables, by table name.
    pub open spec fn table_logs(self) -> Map<Seq<char>, Seq<EntryModel>> {
        Map::new(|name: Seq<char>| self.tables.contains_key(name), |name: Seq<char>| self.tables[name].log)
    }

    /// The log of every directory under the data directory, by directory
    /// name: what a start-up would find.
    pub open spec fn all_logs(self) -> Map<Seq<char>, Seq<EntryModel>> {
        self.dormant.union_prefer_right(self.table_logs())
    }

    /// The logs as the disk holds them where the last `lost` records of the
    /// log of the directory `name` did not reach it: that log without them,
    /// every other log as it is.
    pub open spec fn durable_logs(self, name: Seq<char>, lost: nat) -> Map<Seq<char>, Seq<EntryModel>> {
        if self.all_logs().contains_key(name) {
            self.all_logs().insert(name, without_last(self.log_of(name), lost))
        } else {
            self.all_logs()
        }
    }

    /// The database with `table` open: a table that is not open is opened
    /// from the log of its directory.
    pub open spec fn with_table(self, table: Seq<char>) -> DatabaseModel {
        if self.tables.contains_key(table) {
            self
        } else {
            DatabaseModel {
                tables: self.tables.insert(table, EngineModel::opened(path_in(self.dir, table), self.log_of(table))),
                dormant: self.dormant.remove(table),
                ..self
            }
        }
    }

    /// The database with the engine of the open table `table` replaced.
    pub open spec fn with_engine(self, table: Seq<char>, engine: EngineModel) -> DatabaseModel {
        DatabaseModel { tables: self.tables.insert(table, engine), ..self }
    }

    /// What opening `table` asks of the disk: its directory, where the table
    /// is not open.
    pub open spec fn open_ops(self, table: Seq<char>) -> Seq<DiskOpModel> {
        if self.tables.contains_key(table) {
            Seq::empty()
        } else {
            seq![DiskOpModel::CreateDir { path: path_in(self.dir, table) }]
        }
    }

    /// The database after `entry` was written into the directory `name`:
    /// through the engine of the table where it is open, stamped no earlier
    /// than the newest of its log; else at the end of the directory's log.
    pub open spec fn logged(self, name: Seq<char>, entry: EntryModel) -> DatabaseModel {
        if self.tables.contains_key(name) {
            self.with_engine(name, self.tables[name].applied(self.tables[name].stamped(entry)))
        } else {
            DatabaseModel { dormant: self.dormant.insert(name, self.log_of(name).push(entry)), ..self }
        }
    }

    /// What writing `entry` into the directory `name` asks of the disk: what
    /// the engine of the open table asks; else the directory and the line at
    /// the end of its log.
    pub open spec fn logged_ops(self, name: Seq<char>, entry: EntryModel) -> Seq<DiskOpModel> {
        if self.tables.contains_key(name) {
            self.tables[name].apply_ops(self.tables[name].stamped(entry))
        } else {
            seq![
                DiskOpModel::CreateDir { path: path_in(self.dir, name) },
                DiskOpModel::AppendLine {
                    path: path_in(path_in(self.dir, name), "wal.log"@),
                    line: entry_line(entry),
                },
            ]
        }
    }

    /// What an INSERT does: the table is opened where it is not open, and
    /// each tuple in turn becomes a row under a key that the table does not
    /// hold, up to the first tuple that has not as many values as there are
    /// columns. Such a tuple stops the statement with an error: the rows of
    /// the tuples before it stay written, and neither it nor any tuple
    /// behind it is written.
    pub open spec fn insert(self, stmt: InsertStatement, now: u64) -> Effect {
        let columns = text_views(stmt.columns@);
        let tuples = tuple_views(stmt.values@);
        let open = self.with_table(stmt.table@);
        let run = insert_run(
            TableRun::start(open.tables[stmt.table@], self.open_ops(stmt.table@)),
            columns,
            tuples,
            now,
            first_misfit(columns, tuples),
        );
        Effect {
            db: open.with_engine(stmt.table@, run.engine),
            result: if first_misfit(columns, tuples) < tuples.len() {
                Err(StopModel::Failed(schema_violation()))
            } else {
                Ok(decimal(stmt.values.len() as nat) + " row(s) inserted successfully"@)
            },
            disk: run.disk,
        }
    }

    /// What an UPDATE does: nothing where the table's rows cannot be had or
    /// the condition cannot be decided of every row; else each row that the
    /// condition keeps is rewritten under its key.
    pub open spec fn update(self, stmt: UpdateStatement, facts: FactsModel, now: u64) -> Effect {
        match self.rows_of(stmt.table@, table_not_found(stmt.table@)) {
            Err(stop) => Effect { db: self, result: Err(stop), disk: Seq::empty() },
            Ok(rows) => {
                let judgements = crate::filter::judgements_or_keep(rows, stmt.where_clause, facts);
                match crate::filter::pending(judgements) {
                    Some(stop) => Effect { db: self, result: Err(stop), disk: Seq::empty() },
                    None => {
                        let run = update_run(
                            TableRun::start(self.tables[stmt.table@], Seq::empty()),
                            stored_keys(self.tables[stmt.table@].visible_pairs()),
                            rows,
                            judgements,
                            pair_views(stmt.assignments@),
                            now,
                            rows.len(),
                        );
                        Effect {
                            db: self.with_engine(stmt.table@, run.engine),
                            result: Ok(
                                "Updated "@ + decimal(
                                    crate::filter::keep_count(judgements, judgements.len()),
                                ) + " rows"@,
                            ),
                            disk: run.disk,
                        }
                    },
                }
            },
        }
    }

    /// What a DELETE does: nothing where the table's rows cannot be had or
    /// the condition cannot be decided of every row; else each row that the
    /// condition keeps is deleted.
    pub open spec fn delete(self, stmt: DeleteStatement, facts: FactsModel, now: u64) -> Effect {
        match self.rows_of(stmt.table@, table_not_found(stmt.table@)) {
            Err(stop) => Effect { db: self, result: Err(stop), disk: Seq::empty() },
            Ok(rows) => {
                let judgements = crate::filter::judgements_or_keep(rows, stmt.where_clause, facts);
                match crate::filter::pending(judgements) {
                    Some(stop) => Effect { db: self, result: Err(stop), disk: Seq::empty() },
                    None => {
                        let run = delete_run(
                            TableRun::start(self.tables[stmt.table@], Seq::empty()),
                            stored_keys(self.tables[stmt.table@].visible_pairs()),
                            judgements,
                            now,
                            rows.len(),
                        );
                        Effect {
                            db: self.with_engine(stmt.table@, run.engine),
                            result: Ok(
                                "Deleted "@ + decimal(
                                    crate::filter::keep_count(judgements, judgements.len()),
                                ) + " rows"@,
                            ),
                            disk: run.disk,
                        }
                    },
                }
            },
        }
    }

    /// The database with `table` opened anew from the log of its directory,
    /// in place of an open table of that name, and with `names` recorded as
    /// its columns.
    pub open spec fn reopened(self, table: Seq<char>, names: Seq<Seq<char>>) -> DatabaseModel {
        DatabaseModel {
            tables: self.tables.insert(
                table,
                EngineModel::opened(path_in(self.dir, table), self.log_of(table)),
            ),
            schemas: self.schemas.insert(table, names),
            dormant: self.dormant.remove(table),
            ..self
        }
    }

    /// What a CREATE TABLE does: the table is opened anew from the log of its
    /// directory, in place of an open table of that name; its columns are
    /// recorded, and written under the key `schema` into the directory of
    /// the table's schema.
    pub open spec fn create_table(self, stmt: CreateTableStatement, now: u64) -> Effect {
        let names = declared_names(stmt.columns@);
        let record = present_entry("schema"@, json_array(names), now);
        let opened = self.reopened(stmt.table@, names);
        Effect {
            db: opened.logged(schema_dir(stmt.table@), record),
            result: Ok("Created table '"@ + stmt.table@ + "'"@),
            disk: seq![DiskOpModel::CreateDir { path: path_in(self.dir, stmt.table@) }]
                + opened.logged_ops(schema_dir(stmt.table@), record),
        }
    }

    /// What a DROP TABLE does: the table leaves the catalog with its recorded
    /// columns, and its directory goes; the directory of its schema stays.
    pub open spec fn drop_table(self, stmt: DropTableStatement) -> Effect {
        Effect {
            db: DatabaseModel {
                tables: self.tables.remove(stmt.table@),
                schemas: self.schemas.remove(stmt.table@),
                dormant: self.dormant.remove(stmt.table@),
                ..self
            },
            result: Ok("Dropped table '"@ + stmt.table@ + "'"@),
            disk: seq![DiskOpModel::RemoveDir { path: path_in(self.dir, stmt.table@) }],
        }
    }

    /// What a statement does at the time `now`, given the answers `facts`.
    pub open spec fn executed(self, stmt: SQLStatement, facts: FactsModel, now: u64) -> Effect {
        match stmt {
            SQLStatement::Select(s) => Effect {
                db: self,
                result: self.select(s, facts),
                disk: Seq::empty(),
            },
            SQLStatement::Insert(s) => self.insert(s, now),
            SQLStatement::Update(s) => self.update(s, facts, now),
            SQLStatement::Delete(s) => self.delete(s, facts, now),
            SQLStatement::CreateTable(s) => self.create_table(s, now),
            SQLStatement::AlterTable(s) => Effect {
                db: self,
                result: Ok(alter_text(s)),
                disk: Seq::empty(),
            },
            SQLStatement::DropTable(s) => self.drop_table(s),
        }
    }

    /// The tables after the first `n` of the tables `names` have flushed
    /// their buffers, with what that asks of the disk.
    pub open spec fn close_run(self, names: Seq<Seq<char>>, n: nat) -> (
        Map<Seq<char>, EngineModel>,
        Seq<DiskOpModel>,
    )
        recommends
            n <= names.len(),
        decreases n,
    {
        if n == 0 {
            (self.tables, Seq::empty())
        } else {
            let prior = self.close_run(names, (n - 1) as nat);
            (
                prior.0.insert(names[n - 1], self.tables[names[n - 1]].flushed()),
                prior.1 + self.tables[names[n - 1]].flush_ops(),
            )
        }
    }

    /// What closing the database does: every table, in the ascending order
    /// of the names, flushes what its buffer holds.
    pub open spec fn closed(self) -> (DatabaseModel, Seq<DiskOpModel>) {
        let names = crate::keys::sorted_keys(self.tables.dom());
        let run = self.close_run(names, names.len());
        (DatabaseModel { tables: run.0, ..self }, run.1)
    }
}

/// The table whose recorded columns the directory `name` holds: the name
/// without its ending `_schema`; none where it does not end so.
pub open spec fn table_of_schema_dir(name: Seq<char>) -> Option<Seq<char>> {
    if crate::text::ends_with(name, "_schema"@) {
        Some(name.subrange(0, name.len() - "_schema"@.len()))
    } else {
        None
    }
}

/// The error of recorded columns that do not decode.
pub open spec fn schema_decode_error(detail: Seq<char>) -> ErrorModel {
    ErrorModel::SerializationError("Failed to deserialize schema: "@ + detail)
}

/// `log` without its last `lost` records; empty where it has no more.
pub open spec fn without_last(log: Seq<EntryModel>, lost: nat) -> Seq<EntryModel> {
    if lost >= log.len() {
        Seq::empty()
    } else {
        log.subrange(0, log.len() - lost)
    }
}

/// The logs that were found, by directory name; of two under one name the later.
pub open spec fn found_logs(found: Seq<DirLog>) -> Map<Seq<char>, Seq<EntryModel>>
    decreases found.len(),
{
    if found.len() == 0 {
        Map::empty()
    } else {
        found_logs(found.drop_last()).insert(found.last().name@, entry_views(found.last().entries@))
    }
}

/// A database that was started, with what its start asks of the disk.
pub struct Boot {
    pub db: DatabaseModel,
    pub disk: Seq<DiskOpModel>,
}

/// The database after start-up has looked at the first `n` of the
/// directories `names`: each directory of a schema that holds columns under
/// the key `schema` has them recorded, and its table is opened from the log
/// of the table's directory. Columns that do not decode stop the start-up.
pub open spec fn startup_run(
    dir: Seq<char>,
    logs: Map<Seq<char>, Seq<EntryModel>>,
    names: Seq<Seq<char>>,
    n: nat,
) -> Result<Boot, ErrorModel>
    recommends
        n <= names.len(),
    decreases n,
{
    if n == 0 {
        Ok(
            Boot {
                db: DatabaseModel { dir, tables: Map::empty(), schemas: Map::empty(), dormant: logs },
                disk: Seq::empty(),
            },
        )
    } else {
        match startup_run(dir, logs, names, (n - 1) as nat) {
            Err(error) => Err(error),
            Ok(boot) => match table_of_schema_dir(names[n - 1]) {
                None => Ok(boot),
                Some(table) => match EngineModel::opened(
                    path_in(dir, names[n - 1]),
                    boot.db.log_of(names[n - 1]),
                ).read("schema"@) {
                    None => Ok(boot),
                    Some(text) => match json_array_parse(text) {
                        Err(detail) => Err(schema_decode_error(detail)),
                        Ok(columns) => Ok(
                            Boot {
                                db: DatabaseModel {
                                    schemas: boot.db.schemas.insert(table, columns),
                                    ..boot.db.with_table(table)
                                },
                                disk: boot.disk + boot.db.open_ops(table),
                            },
                        ),
                    },
                },
            },
        }
    }
}

/// The database that start-up gives for the data directory `dir` in which
/// the directories with the logs `logs` were found.
pub open spec fn started(dir: Seq<char>, logs: Map<Seq<char>, Seq<EntryModel>>) -> Result<
    Boot,
    ErrorModel,
> {
    let names = crate::keys::sorted_keys(logs.dom());
    startup_run(dir, logs, names, names.len())
}

} // verus!
