//! What holds of the registry across several operations.
//!
//! Each statement here is about the outcomes of operations, as the
//! contracts of the operations state them, and is proved from those
//! outcomes alone.

use crate::command::{
    as_stored, handle_outcome, step_of, table_of, TableManageCmd, TableManageResult,
};
use crate::error::TableError;
use crate::model::{
    catalog_keyed, catalog_slot, catalog_tree, catalogued, create_outcome, data_slot,
    drop_outcome, fresh_table, get_outcome, insert_outcome, lemma_catalog_reloads,
    lemma_define_keeps_keyed, lemma_keyed_with_same_catalog, lemma_partition_names,
    loaded_tables, next_outcome, opening_failed, remove_outcome, same_catalog, sequence_name,
    table_slots, RegistryView,
};
use crate::sequence::{anchor_key, lemma_anchor_written, persisted_anchor};
use crate::store::{entry_at, is_scan, opt_bytes};
use vstd::prelude::*;
use vstd::utf8::*;

verus! {

/// Dropping a table a second time does nothing: the second drop succeeds
/// and leaves the registry as the first one left it.
pub proof fn lemma_drop_twice(
    before: RegistryView,
    name: Seq<char>,
    first: Result<(), TableError>,
    dropped: RegistryView,
    second: Result<(), TableError>,
    after: RegistryView,
)
    requires
        drop_outcome(before, name, first, dropped),
        drop_outcome(dropped, name, second, after),
    ensures
        second is Ok,
        after == dropped,
{
}

/// A table that was dropped reads as a table that is not there: a read
/// finds nothing, and a removal finds nothing and changes nothing.
pub proof fn lemma_dropped_table_is_absent(
    before: RegistryView,
    name: Seq<char>,
    dropping: Result<(), TableError>,
    dropped: RegistryView,
    key: Seq<u8>,
    read: Result<Option<Vec<u8>>, TableError>,
    removal: Result<Option<Vec<u8>>, TableError>,
    after: RegistryView,
)
    requires
        drop_outcome(before, name, dropping, dropped),
        get_outcome(dropped, name, key, read),
        remove_outcome(dropped, name, key, removal, after),
    ensures
        read == Ok::<Option<Vec<u8>>, TableError>(None),
        removal == Ok::<Option<Vec<u8>>, TableError>(None),
        after == dropped,
{
}

/// A value that was stored is the value that is read, until the key is
/// written again.
pub proof fn lemma_stored_value_is_read(
    before: RegistryView,
    name: Seq<char>,
    key: Seq<u8>,
    value: Seq<u8>,
    last_seq_id: Option<u64>,
    previous: Option<Vec<u8>>,
    stored: RegistryView,
    read: Result<Option<Vec<u8>>, TableError>,
)
    requires
        before.wf(),
        insert_outcome(before, name, key, value, last_seq_id, Ok(previous), stored),
        get_outcome(stored, name, key, read),
        read is Ok,
    ensures
        opt_bytes(read->Ok_0) == Some(value),
{
    let opened = before.opened(name, 0);
    assert(opened.tables.contains_key(name));
    assert(stored.tables.contains_key(name));
}

/// Removing from a table that is not open finds nothing, opens nothing and
/// leaves the catalog without a record that it did not have.
pub proof fn lemma_remove_opens_nothing(
    before: RegistryView,
    name: Seq<char>,
    key: Seq<u8>,
    removal: Result<Option<Vec<u8>>, TableError>,
    after: RegistryView,
)
    requires
        !before.tables.contains_key(name),
        remove_outcome(before, name, key, removal, after),
    ensures
        removal == Ok::<Option<Vec<u8>>, TableError>(None),
        !after.tables.contains_key(name),
        entry_at(after.entries, catalog_slot(name)) == entry_at(before.entries, catalog_slot(name)),
        after == before,
{
}

/// An id that was handed out is one above the id below it, and is itself
/// the id below the next one.
pub proof fn lemma_next_id_moves_floor(
    before: RegistryView,
    name: Seq<char>,
    step: u32,
    id: u64,
    after: RegistryView,
)
    requires
        before.wf(),
        next_outcome(before, name, step, Ok(id), after),
    ensures
        before.opened(name, step).floor_of(name) == Some((id - 1) as u64),
        id >= 1,
        after.tables.contains_key(name),
        after.floor_of(name) == Some(id),
{
    let opened = before.opened(name, step);
    let s = opened.sequence_of(name)->Some_0;
    assert(opened.tables.contains_key(name));
    if before.tables.contains_key(name) {
        assert(before.table_ok(name));
    }
    assert(s.wf() && s.in_sync(opened.entries));
    if !s.buffered() {
        let anchor = persisted_anchor(opened.entries, s.tree)->Some_0;
        lemma_anchor_written(opened.entries, s.tree, (anchor + s.step) as u64);
    }
}

/// Ids that one table hands out one after another go up by one each time:
/// no id comes twice, and a later id is the larger one.
pub proof fn lemma_ids_ascend(
    states: Seq<RegistryView>,
    name: Seq<char>,
    steps: Seq<u32>,
    ids: Seq<u64>,
)
    requires
        states.len() == ids.len() + 1,
        steps.len() == ids.len(),
        forall|i: int| 0 <= i < states.len() ==> (#[trigger] states[i]).wf(),
        forall|i: int|
            0 <= i < ids.len() ==> next_outcome(
                #[trigger] states[i],
                name,
                steps[i],
                Ok(ids[i]),
                states[i + 1],
            ),
    ensures
        forall|i: int| 0 <= i < ids.len() - 1 ==> #[trigger] ids[i + 1] == ids[i] + 1,
        forall|i: int, j: int| 0 <= i < j < ids.len() ==> #[trigger] ids[i] < #[trigger] ids[j],
{
    assert forall|i: int| 0 <= i < ids.len() - 1 implies #[trigger] ids[i + 1] == ids[i] + 1 by {
        assert(states[i].wf());
        assert(states[i + 1].wf());
        lemma_next_id_moves_floor(states[i], name, steps[i], ids[i], states[i + 1]);
        lemma_next_id_moves_floor(states[i + 1], name, steps[i + 1], ids[i + 1], states[i + 2]);
    }
    assert forall|i: int, j: int| 0 <= i < j < ids.len() implies #[trigger] ids[i]
        < #[trigger] ids[j] by {
        lemma_ids_apart(ids, i, j);
    }
}

/// In a run of numbers that go up by one each time, a later number is the
/// earlier one plus the distance between them.
proof fn lemma_ids_apart(ids: Seq<u64>, i: int, j: int)
    requires
        0 <= i <= j < ids.len(),
        forall|k: int| 0 <= k < ids.len() - 1 ==> #[trigger] ids[k + 1] == ids[k] + 1,
    ensures
        ids[j] == ids[i] + (j - i),
    decreases j - i,
{
    if i < j {
        lemma_ids_apart(ids, i, j - 1);
        assert(ids[(j - 1) + 1] == ids[j - 1] + 1);
    }
}

/// After a value was stored with an id to force, the next id of the table
/// is the one behind the forced id.
pub proof fn lemma_forced_id_is_passed(
    before: RegistryView,
    name: Seq<char>,
    key: Seq<u8>,
    value: Seq<u8>,
    forced: u64,
    previous: Option<Vec<u8>>,
    stored: RegistryView,
    step: u32,
    id: u64,
    after: RegistryView,
)
    requires
        before.wf(),
        insert_outcome(before, name, key, value, Some(forced), Ok(previous), stored),
        next_outcome(stored, name, step, Ok(id), after),
    ensures
        id == forced + 1,
        id > forced,
{
    let opened = before.opened(name, 0);
    assert(opened.tables.contains_key(name));
    if before.tables.contains_key(name) {
        assert(before.table_ok(name));
    }
    let forwarded = opened.with_anchor_forced(name, forced);
    assert(stored.tables.contains_key(name));
    assert(stored.opened(name, step) == stored);
    let s = opened.sequence_of(name)->Some_0;
    lemma_partition_names(name, name);
    lemma_anchor_written(opened.entries, s.tree, forced);
    assert(entry_at(stored.entries, (sequence_name(name), anchor_key())) == entry_at(
        forwarded.entries,
        (sequence_name(name), anchor_key()),
    ));
}

/// A table that was defined comes back when the registry is opened anew
/// over the same database: it is opened as it was defined, with a
/// sequence exactly where it was defined with a step other than zero.
pub proof fn lemma_defined_table_reloads(
    before: RegistryView,
    name: Seq<char>,
    step: u32,
    defined: RegistryView,
    records: Seq<(Seq<u8>, Seq<u8>)>,
)
    requires
        !before.tables.contains_key(name),
        catalog_keyed(before.entries),
        encode_utf8(name).len() <= u64::MAX,
        create_outcome(before, name, step, Ok(()), defined),
        is_scan(records, defined.entries, catalog_tree()),
    ensures
        loaded_tables(records).contains_key(name),
        loaded_tables(records)[name] == fresh_table(name, step),
        loaded_tables(records)[name].sequence is Some <==> step != 0,
{
    lemma_define_keeps_keyed(before.entries, name, step);
    lemma_catalog_reloads(records, defined.entries);
    assert(catalogued(defined.entries, name) is Some);
}

/// A table that was defined when it was first asked for an id comes back
/// with a sequence of the step that was asked for, when the registry is
/// opened anew over the same database.
pub proof fn lemma_table_created_by_id_reloads(
    before: RegistryView,
    name: Seq<char>,
    step: u32,
    id: u64,
    after: RegistryView,
    records: Seq<(Seq<u8>, Seq<u8>)>,
)
    requires
        before.wf(),
        !before.tables.contains_key(name),
        catalog_keyed(before.entries),
        encode_utf8(name).len() <= u64::MAX,
        next_outcome(before, name, step, Ok(id), after),
        is_scan(records, after.entries, catalog_tree()),
    ensures
        step != 0,
        loaded_tables(records).contains_key(name),
        loaded_tables(records)[name] == fresh_table(name, step),
        loaded_tables(records)[name].sequence is Some,
{
    let opened = before.with_table(name, step);
    lemma_define_keeps_keyed(before.entries, name, step);
    lemma_partition_names(name, name);
    assert(same_catalog(opened.entries, after.entries));
    lemma_keyed_with_same_catalog(opened.entries, after.entries);
    lemma_catalog_reloads(records, after.entries);
    assert(catalogued(after.entries, name) == catalogued(opened.entries, name));
}

/// A table that was defined when a value was first stored in it comes
/// back without a sequence, when the registry is opened anew over the
/// same database.
pub proof fn lemma_table_created_by_store_reloads(
    before: RegistryView,
    name: Seq<char>,
    key: Seq<u8>,
    value: Seq<u8>,
    last_seq_id: Option<u64>,
    previous: Option<Vec<u8>>,
    after: RegistryView,
    records: Seq<(Seq<u8>, Seq<u8>)>,
)
    requires
        before.wf(),
        !before.tables.contains_key(name),
        catalog_keyed(before.entries),
        encode_utf8(name).len() <= u64::MAX,
        insert_outcome(before, name, key, value, last_seq_id, Ok(previous), after),
        is_scan(records, after.entries, catalog_tree()),
    ensures
        loaded_tables(records).contains_key(name),
        loaded_tables(records)[name] == fresh_table(name, 0),
        loaded_tables(records)[name].sequence is None,
{
    let opened = before.with_table(name, 0);
    lemma_define_keeps_keyed(before.entries, name, 0);
    lemma_partition_names(name, name);
    assert(same_catalog(opened.entries, after.entries));
    lemma_keyed_with_same_catalog(opened.entries, after.entries);
    lemma_catalog_reloads(records, after.entries);
    assert(catalogued(after.entries, name) == catalogued(opened.entries, name));
}

/// Opening the registry anew over the same database opens every table
/// that was open, with a sequence of the same step where it had one and
/// with none where it had none.
pub proof fn lemma_reload_agrees(held: RegistryView, records: Seq<(Seq<u8>, Seq<u8>)>)
    requires
        held.wf(),
        held.durable(),
        is_scan(records, held.entries, catalog_tree()),
    ensures
        forall|name: Seq<char>| #[trigger]
            held.tables.contains_key(name) ==> {
                &&& loaded_tables(records).contains_key(name)
                &&& match (loaded_tables(records)[name].sequence, held.tables[name].sequence) {
                    (Some(s), Some(t)) => s.step == t.step && s.tree == t.tree && !s.buffered(),
                    (None, None) => true,
                    _ => false,
                }
            },
{
    lemma_catalog_reloads(records, held.entries);
    assert forall|name: Seq<char>| #[trigger] held.tables.contains_key(name) implies {
        &&& loaded_tables(records).contains_key(name)
        &&& match (loaded_tables(records)[name].sequence, held.tables[name].sequence) {
            (Some(s), Some(t)) => s.step == t.step && s.tree == t.tree && !s.buffered(),
            (None, None) => true,
            _ => false,
        }
    } by {
        assert(held.table_durable(name));
        assert(held.table_ok(name));
        assert(loaded_tables(records).contains_key(name));
    }
}

/// An id that was handed out is not handed out again after the registry
/// was opened anew over the same database: the first id of a table then
/// lies above the id below which the table stood, and so above every id
/// that it had handed out.
pub proof fn lemma_reload_passes_issued_ids(
    held: RegistryView,
    name: Seq<char>,
    records: Seq<(Seq<u8>, Seq<u8>)>,
    reloaded: RegistryView,
    step: u32,
    id: u64,
    after: RegistryView,
)
    requires
        held.wf(),
        held.durable(),
        held.floor_of(name) is Some,
        is_scan(records, held.entries, catalog_tree()),
        reloaded.tables == loaded_tables(records),
        reloaded.entries == held.entries,
        reloaded.wf(),
        next_outcome(reloaded, name, step, Ok(id), after),
    ensures
        id > held.floor_of(name)->Some_0,
{
    assert(held.tables.contains_key(name));
    assert(held.table_ok(name));
    lemma_reload_agrees(held, records);
    assert(reloaded.tables.contains_key(name));
    assert(reloaded.opened(name, step) == reloaded);
    assert(reloaded.table_ok(name));
}

/// After a value was stored with an id to force, the next id of the table
/// is the one behind the forced id also where the registry was opened
/// anew over the same database in between.
pub proof fn lemma_forced_id_survives_reload(
    before: RegistryView,
    name: Seq<char>,
    key: Seq<u8>,
    value: Seq<u8>,
    forced: u64,
    previous: Option<Vec<u8>>,
    stored: RegistryView,
    records: Seq<(Seq<u8>, Seq<u8>)>,
    reloaded: RegistryView,
    step: u32,
    id: u64,
    after: RegistryView,
)
    requires
        before.wf(),
        stored.wf(),
        stored.durable(),
        insert_outcome(before, name, key, value, Some(forced), Ok(previous), stored),
        is_scan(records, stored.entries, catalog_tree()),
        reloaded.tables == loaded_tables(records),
        reloaded.entries == stored.entries,
        reloaded.wf(),
        next_outcome(reloaded, name, step, Ok(id), after),
    ensures
        id == forced + 1,
        id > forced,
{
    let opened = before.opened(name, 0);
    assert(opened.tables.contains_key(name));
    if before.tables.contains_key(name) {
        assert(before.table_ok(name));
    }
    let forwarded = opened.with_anchor_forced(name, forced);
    assert(stored.tables.contains_key(name));
    lemma_reload_agrees(stored, records);
    assert(reloaded.tables.contains_key(name));
    assert(reloaded.opened(name, step) == reloaded);
    assert(reloaded.table_ok(name));
    lemma_partition_names(name, name);
    let s = opened.sequence_of(name)->Some_0;
    lemma_anchor_written(opened.entries, s.tree, forced);
    assert(entry_at(stored.entries, (sequence_name(name), anchor_key())) == entry_at(
        forwarded.entries,
        (sequence_name(name), anchor_key()),
    ));
}

/// A command changes nothing but what belongs to the table that it is
/// for: every other table, its data and the anchor of its sequence are as
/// they were.
pub proof fn lemma_command_stays_in_table(
    before: RegistryView,
    cmd: TableManageCmd,
    r: Result<TableManageResult, TableError>,
    after: RegistryView,
)
    requires
        before.wf(),
        handle_outcome(before, cmd, r, after),
    ensures
        before.only_table_changed(after, table_of(cmd)),
{
    let name = table_of(cmd);
    lemma_partition_names(name, name);
    if before.tables.contains_key(name) {
        assert(before.table_ok(name));
    }
    match cmd {
        TableManageCmd::SetValue { table_name, key, value, last_seq_id } => {
            let opened = before.opened(name, 0);
            assert(opened.tables.contains_key(name));
            assert(before.only_table_changed(opened, name));
        },
        TableManageCmd::Remove { table_name, key } => {},
        TableManageCmd::Drop(table_name) => {},
        TableManageCmd::NextId { table_name, seq_step } => {
            let opened = before.opened(name, step_of(seq_step));
            assert(opened.tables.contains_key(name));
            assert(before.only_table_changed(opened, name));
        },
        TableManageCmd::SetSeqId { table_name, last_seq_id } => {},
    }
}

/// The command asks for an id, or stores a value without an id to force.
pub open spec fn gives_id_or_stores(cmd: TableManageCmd) -> bool {
    match cmd {
        TableManageCmd::NextId { .. } => true,
        TableManageCmd::SetValue { last_seq_id, .. } => last_seq_id is None,
        _ => false,
    }
}

/// The command asked table `name` for an id and got `id`.
pub open spec fn gave_id(
    cmd: TableManageCmd,
    r: Result<TableManageResult, TableError>,
    name: Seq<char>,
    id: u64,
) -> bool {
    cmd is NextId && table_of(cmd) == name && r == Ok::<TableManageResult, TableError>(
        TableManageResult::NextId(id),
    )
}

/// A command that asks for an id or stores a value does not lower the id
/// below the next id of a table that has a sequence; and an id that the
/// table hands out is above it.
pub proof fn lemma_command_keeps_floor(
    before: RegistryView,
    cmd: TableManageCmd,
    r: Result<TableManageResult, TableError>,
    after: RegistryView,
    name: Seq<char>,
)
    requires
        before.wf(),
        after.wf(),
        gives_id_or_stores(cmd),
        handle_outcome(before, cmd, r, after),
        before.floor_of(name) is Some,
    ensures
        after.floor_of(name) is Some,
        after.floor_of(name)->Some_0 >= before.floor_of(name)->Some_0,
        forall|id: u64| gave_id(cmd, r, name, id) ==> id > before.floor_of(name)->Some_0,
{
    let target = table_of(cmd);
    lemma_command_stays_in_table(before, cmd, r, after);
    lemma_partition_names(name, target);
    lemma_partition_names(target, name);
    lemma_partition_names(name, name);
    assert(before.tables.contains_key(name));
    assert(before.table_ok(name));
    let slot = (sequence_name(name), anchor_key());
    if target != name {
        assert(slot != catalog_slot(target));
        assert(!table_slots(target).contains(slot));
        assert(entry_at(after.entries, slot) == entry_at(before.entries, slot));
        assert(after.tables.contains_key(name));
    } else {
        match cmd {
            TableManageCmd::SetValue { table_name, key, value, last_seq_id } => {
                assert(before.opened(name, 0) == before);
            },
            TableManageCmd::NextId { table_name, seq_step } => {
                let step = step_of(seq_step);
                assert(before.opened(name, step) == before);
                match r {
                    Ok(TableManageResult::NextId(id)) => {
                        lemma_next_id_moves_floor(before, name, step, id, after);
                    },
                    Ok(_) => {},
                    Err(e) => {
                        let s = before.sequence_of(name)->Some_0;
                        assert(after.tables.contains_key(name));
                        assert(after.sequence_of(name) == Some(s));
                        if !s.buffered() {
                            let anchor = persisted_anchor(before.entries, s.tree)->Some_0;
                            if anchor + s.step <= u64::MAX {
                                lemma_anchor_written(
                                    before.entries,
                                    s.tree,
                                    (anchor + s.step) as u64,
                                );
                            }
                        }
                    },
                }
            },
            _ => {},
        }
    }
}

/// Ids that one table hands out to commands are never handed out twice,
/// whatever commands that ask for ids or store values run in between, on
/// this table or on others, and whether they succeed or fail: of two ids
/// the later one is the larger.
pub proof fn lemma_interleaved_ids_ascend(
    states: Seq<RegistryView>,
    cmds: Seq<TableManageCmd>,
    results: Seq<Result<TableManageResult, TableError>>,
    name: Seq<char>,
)
    requires
        states.len() == cmds.len() + 1,
        results.len() == cmds.len(),
        forall|i: int| 0 <= i < states.len() ==> (#[trigger] states[i]).wf(),
        forall|i: int| 0 <= i < cmds.len() ==> gives_id_or_stores(#[trigger] cmds[i]),
        forall|i: int|
            0 <= i < cmds.len() ==> handle_outcome(
                #[trigger] states[i],
                cmds[i],
                results[i],
                states[i + 1],
            ),
    ensures
        forall|i: int, j: int, a: u64, b: u64|
            0 <= i < j < cmds.len() && gave_id(cmds[i], results[i], name, a) && gave_id(
                cmds[j],
                results[j],
                name,
                b,
            ) ==> a < b,
{
    assert forall|i: int, j: int, a: u64, b: u64|
        0 <= i < j < cmds.len() && gave_id(cmds[i], results[i], name, a) && gave_id(
            cmds[j],
            results[j],
            name,
            b,
        ) implies a < b by {
        assert(states[i].wf());
        let step = step_of(cmds[i]->NextId_seq_step);
        lemma_next_id_moves_floor(states[i], name, step, a, states[i + 1]);
        lemma_floor_carried(states, cmds, results, name, i + 1, j, a);
        assert(states[j].wf());
        assert(states[j + 1].wf());
        lemma_command_keeps_floor(states[j], cmds[j], results[j], states[j + 1], name);
    }
}

/// Once the id below the next id of a table is at least `low`, it stays
/// so through commands that ask for ids or store values.
proof fn lemma_floor_carried(
    states: Seq<RegistryView>,
    cmds: Seq<TableManageCmd>,
    results: Seq<Result<TableManageResult, TableError>>,
    name: Seq<char>,
    from: int,
    to: int,
    low: u64,
)
    requires
        states.len() == cmds.len() + 1,
        results.len() == cmds.len(),
        forall|i: int| 0 <= i < states.len() ==> (#[trigger] states[i]).wf(),
        forall|i: int| 0 <= i < cmds.len() ==> gives_id_or_stores(#[trigger] cmds[i]),
        forall|i: int|
            0 <= i < cmds.len() ==> handle_outcome(
                #[trigger] states[i],
                cmds[i],
                results[i],
                states[i + 1],
            ),
        0 <= from <= to <= cmds.len(),
        states[from].floor_of(name) is Some,
        states[from].floor_of(name)->Some_0 >= low,
    ensures
        states[to].floor_of(name) is Some,
        states[to].floor_of(name)->Some_0 >= low,
    decreases to - from,
{
    if from < to {
        lemma_floor_carried(states, cmds, results, name, from, to - 1, low);
        assert(states[to - 1].wf());
        assert(states[to].wf());
        assert(gives_id_or_stores(cmds[to - 1]));
        assert(handle_outcome(states[to - 1], cmds[to - 1], results[to - 1], states[to - 1 + 1]));
        lemma_command_keeps_floor(states[to - 1], cmds[to - 1], results[to - 1], states[to], name);
    }
}

/// The slot that keeps the anchor of the sequence of table `name`.
pub open spec fn anchor_slot(name: Seq<char>) -> (Seq<char>, Seq<u8>) {
    (sequence_name(name), anchor_key())
}

/// An open table without a sequence gives no id: the failure names the
/// table, and the registry and the database are as they were.
pub proof fn lemma_id_of_table_without_sequence(
    before: RegistryView,
    name: Seq<char>,
    step: u32,
    r: Result<u64, TableError>,
    after: RegistryView,
)
    requires
        before.tables.contains_key(name),
        before.sequence_of(name) is None,
        next_outcome(before, name, step, r, after),
    ensures
        r matches Err(TableError::SequenceDisabled { table }) && table@ == name,
        after == before,
{
}

/// A command for an id on an open table without a sequence gives nothing
/// and changes nothing: no table, no record of the catalog, no data.
pub proof fn lemma_id_command_without_sequence(
    before: RegistryView,
    cmd: TableManageCmd,
    r: Result<TableManageResult, TableError>,
    after: RegistryView,
)
    requires
        cmd is NextId,
        before.tables.contains_key(table_of(cmd)),
        before.sequence_of(table_of(cmd)) is None,
        handle_outcome(before, cmd, r, after),
    ensures
        r == Ok::<TableManageResult, TableError>(TableManageResult::NoValue),
        after == before,
{
}

/// While the sequence of an open table has ids left in memory, the next id
/// is handed out without fail and the database is left alone.
pub proof fn lemma_id_from_memory(
    before: RegistryView,
    name: Seq<char>,
    step: u32,
    r: Result<u64, TableError>,
    after: RegistryView,
)
    requires
        before.sequence_of(name) is Some,
        before.sequence_of(name)->Some_0.buffered(),
        next_outcome(before, name, step, r, after),
    ensures
        r == Ok::<u64, TableError>((before.sequence_of(name)->Some_0.last_id + 1) as u64),
        after.entries == before.entries,
{
    assert(before.tables.contains_key(name));
}

/// Asking a table for an id, with whatever outcome, leaves all data as it
/// is, and every record of the catalog but that of a table that had to be
/// opened: of the database only the anchor of the table's sequence may
/// move. The tables that were open are open, and where the table was open
/// no table is opened.
pub proof fn lemma_id_request_keeps_rest(
    before: RegistryView,
    name: Seq<char>,
    step: u32,
    r: Result<u64, TableError>,
    after: RegistryView,
)
    requires
        before.wf(),
        next_outcome(before, name, step, r, after),
    ensures
        forall|slot: (Seq<char>, Seq<u8>)|
            slot != anchor_slot(name) && slot != catalog_slot(name) ==> #[trigger] entry_at(
                after.entries,
                slot,
            ) == entry_at(before.entries, slot),
        before.tables.contains_key(name) ==> entry_at(after.entries, catalog_slot(name))
            == entry_at(before.entries, catalog_slot(name)),
        forall|n: Seq<char>| #[trigger]
            before.tables.contains_key(n) ==> after.tables.contains_key(n),
        before.tables.contains_key(name) ==> forall|n: Seq<char>| #[trigger]
            after.tables.contains_key(n) ==> before.tables.contains_key(n),
{
    let opened = before.opened(name, step);
    assert(opened.tables.contains_key(name) || opening_failed(before, name, step, after));
    if before.tables.contains_key(name) {
        assert(before.table_ok(name));
    }
    lemma_partition_names(name, name);
}

/// Storing a value, with whatever outcome, leaves every other key as it
/// is, in this table and in every other. The key itself holds the value
/// where the store succeeded, and its old value or the new one where the
/// database failed. The anchor of the table's sequence is kept where no id
/// was given to force, and the table's record in the catalog where the
/// table was open.
pub proof fn lemma_store_keeps_rest(
    before: RegistryView,
    name: Seq<char>,
    key: Seq<u8>,
    value: Seq<u8>,
    last_seq_id: Option<u64>,
    r: Result<Option<Vec<u8>>, TableError>,
    after: RegistryView,
)
    requires
        before.wf(),
        insert_outcome(before, name, key, value, last_seq_id, r, after),
    ensures
        forall|slot: (Seq<char>, Seq<u8>)|
            slot != anchor_slot(name) && slot != catalog_slot(name) && slot != data_slot(name, key)
                ==> #[trigger] entry_at(after.entries, slot) == entry_at(before.entries, slot),
        r is Ok ==> entry_at(after.entries, data_slot(name, key)) == Some(value),
        r is Err ==> entry_at(after.entries, data_slot(name, key)) == entry_at(
            before.entries,
            data_slot(name, key),
        ) || entry_at(after.entries, data_slot(name, key)) == Some(value),
        last_seq_id is None ==> entry_at(after.entries, anchor_slot(name)) == entry_at(
            before.entries,
            anchor_slot(name),
        ),
        last_seq_id is None && before.tables.contains_key(name) ==> after.sequence_of(name)
            == before.sequence_of(name),
        before.tables.contains_key(name) ==> entry_at(after.entries, catalog_slot(name))
            == entry_at(before.entries, catalog_slot(name)),
        forall|n: Seq<char>| #[trigger]
            before.tables.contains_key(n) ==> after.tables.contains_key(n),
{
    let opened = before.opened(name, 0);
    if before.tables.contains_key(name) {
        assert(before.table_ok(name));
    }
    lemma_partition_names(name, name);
    assert(opened.tables.contains_key(name));
}

/// The command stores a value under `key` in table `name`.
pub open spec fn stores_at(cmd: TableManageCmd, name: Seq<char>, key: Seq<u8>) -> bool {
    cmd matches TableManageCmd::SetValue { table_name, key: k, .. } && table_name@ == name && k@
        == key
}

/// The value that a command that stores carries.
pub open spec fn value_of(cmd: TableManageCmd) -> Seq<u8> {
    match cmd {
        TableManageCmd::SetValue { value, .. } => value@,
        _ => Seq::empty(),
    }
}

/// A command leaves the value under a key alone unless it stores under
/// that key. A store that succeeds leaves its whole value there and gives
/// back the whole value that was there; a store on which the database
/// failed leaves the old value or the new one, never a mix. A command for
/// an id, whether it succeeds or fails, leaves every value as it is.
pub proof fn lemma_command_keeps_value(
    before: RegistryView,
    cmd: TableManageCmd,
    r: Result<TableManageResult, TableError>,
    after: RegistryView,
    name: Seq<char>,
    key: Seq<u8>,
)
    requires
        before.wf(),
        cmd is NextId || cmd is SetValue,
        handle_outcome(before, cmd, r, after),
    ensures
        !stores_at(cmd, name, key) ==> entry_at(after.entries, data_slot(name, key)) == entry_at(
            before.entries,
            data_slot(name, key),
        ),
        stores_at(cmd, name, key) && r is Ok ==> {
            &&& entry_at(after.entries, data_slot(name, key)) == Some(value_of(cmd))
            &&& opt_bytes(as_stored(r)->Ok_0) == entry_at(before.entries, data_slot(name, key))
        },
        stores_at(cmd, name, key) && r is Err ==> {
            ||| entry_at(after.entries, data_slot(name, key)) == entry_at(
                before.entries,
                data_slot(name, key),
            )
            ||| entry_at(after.entries, data_slot(name, key)) == Some(value_of(cmd))
        },
{
    let target = table_of(cmd);
    lemma_partition_names(name, target);
    lemma_partition_names(target, name);
    let slot = data_slot(name, key);
    match cmd {
        TableManageCmd::SetValue { table_name, key: k, value, last_seq_id } => {
            lemma_store_keeps_rest(before, target, k@, value@, last_seq_id, as_stored(r), after);
            if !stores_at(cmd, name, key) {
                assert(slot != data_slot(target, k@));
                assert(slot != anchor_slot(target));
                assert(slot != catalog_slot(target));
            }
        },
        TableManageCmd::NextId { table_name, seq_step } => {
            assert(slot != anchor_slot(target));
            assert(slot != catalog_slot(target));
            match r {
                Ok(TableManageResult::NextId(id)) => {
                    lemma_id_request_keeps_rest(before, target, step_of(seq_step), Ok(id), after);
                },
                Ok(_) => {
                    let opened = before.opened(target, step_of(seq_step));
                    assert(entry_at(opened.entries, slot) == entry_at(before.entries, slot));
                },
                Err(e) => {
                    lemma_id_request_keeps_rest(before, target, step_of(seq_step), Err(e), after);
                },
            }
        },
        _ => {},
    }
}

/// Through commands that ask for ids or store values, from whatever
/// producers and in whatever order they arrive, the value under a key is
/// the value of the last store under that key that succeeded, as long as
/// no later command stores under the key.
pub proof fn lemma_value_is_last_stored(
    states: Seq<RegistryView>,
    cmds: Seq<TableManageCmd>,
    results: Seq<Result<TableManageResult, TableError>>,
    name: Seq<char>,
    key: Seq<u8>,
    stored: int,
    seen: int,
)
    requires
        states.len() == cmds.len() + 1,
        results.len() == cmds.len(),
        forall|i: int| 0 <= i < states.len() ==> (#[trigger] states[i]).wf(),
        forall|i: int| 0 <= i < cmds.len() ==> (#[trigger] cmds[i]) is NextId || cmds[i] is SetValue,
        forall|i: int|
            0 <= i < cmds.len() ==> handle_outcome(
                #[trigger] states[i],
                cmds[i],
                results[i],
                states[i + 1],
            ),
        0 <= stored < seen <= cmds.len(),
        stores_at(cmds[stored], name, key),
        results[stored] is Ok,
        forall|m: int| stored < m < seen ==> !stores_at(#[trigger] cmds[m], name, key),
    ensures
        entry_at(states[seen].entries, data_slot(name, key)) == Some(value_of(cmds[stored])),
    decreases seen - stored,
{
    assert(states[seen - 1].wf());
    assert(cmds[seen - 1] is NextId || cmds[seen - 1] is SetValue);
    assert(handle_outcome(states[seen - 1], cmds[seen - 1], results[seen - 1], states[seen - 1 + 1]));
    lemma_command_keeps_value(
        states[seen - 1],
        cmds[seen - 1],
        results[seen - 1],
        states[seen],
        name,
        key,
    );
    if stored < seen - 1 {
        lemma_value_is_last_stored(states, cmds, results, name, key, stored, seen - 1);
        assert(!stores_at(cmds[seen - 1], name, key));
    }
}

/// Through commands that ask for ids or store values, the value under a
/// key is at every moment one whole value: the one that was there at the
/// start, or the value of one of the stores under that key so far.
pub proof fn lemma_value_is_whole(
    states: Seq<RegistryView>,
    cmds: Seq<TableManageCmd>,
    results: Seq<Result<TableManageResult, TableError>>,
    name: Seq<char>,
    key: Seq<u8>,
    seen: int,
)
    requires
        states.len() == cmds.len() + 1,
        results.len() == cmds.len(),
        forall|i: int| 0 <= i < states.len() ==> (#[trigger] states[i]).wf(),
        forall|i: int| 0 <= i < cmds.len() ==> (#[trigger] cmds[i]) is NextId || cmds[i] is SetValue,
        forall|i: int|
            0 <= i < cmds.len() ==> handle_outcome(
                #[trigger] states[i],
                cmds[i],
                results[i],
                states[i + 1],
            ),
        0 <= seen <= cmds.len(),
    ensures
        entry_at(states[seen].entries, data_slot(name, key)) == entry_at(
            states[0].entries,
            data_slot(name, key),
        ) || exists|j: int|
            0 <= j < seen && stores_at(#[trigger] cmds[j], name, key) && entry_at(
                states[seen].entries,
                data_slot(name, key),
            ) == Some(value_of(cmds[j])),
    decreases seen,
{
    if seen > 0 {
        lemma_value_is_whole(states, cmds, results, name, key, seen - 1);
        assert(states[seen - 1].wf());
        assert(cmds[seen - 1] is NextId || cmds[seen - 1] is SetValue);
        assert(handle_outcome(
            states[seen - 1],
            cmds[seen - 1],
            results[seen - 1],
            states[seen - 1 + 1],
        ));
        lemma_command_keeps_value(
            states[seen - 1],
            cmds[seen - 1],
            results[seen - 1],
            states[seen],
            name,
            key,
        );
        let slot = data_slot(name, key);
        if entry_at(states[seen].entries, slot) != entry_at(states[0].entries, slot) {
            if entry_at(states[seen].entries, slot) == entry_at(states[seen - 1].entries, slot) {
                let j = choose|j: int|
                    0 <= j < seen - 1 && stores_at(#[trigger] cmds[j], name, key) && entry_at(
                        states[seen - 1].entries,
                        slot,
                    ) == Some(value_of(cmds[j]));
                assert(stores_at(cmds[j], name, key));
            } else {
                assert(stores_at(cmds[seen - 1], name, key));
            }
        }
    }
}

} // verus!
