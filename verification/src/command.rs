//! The commands that drive the registry, one at a time.
//!
//! Whoever holds the registry holds it alone: a command runs to its end
//! before the next one starts, so that opening a table and then writing to
//! it, or claiming a block of ids and then handing one out, is one step to
//! every caller.

use crate::error::TableError;
use crate::model::{
    drop_outcome, insert_outcome, next_outcome, remove_outcome, set_seq_outcome, RegistryView,
};
use crate::table::TableManage;
use std::sync::Arc;
use vstd::prelude::*;

verus! {

/// The step of a sequence where a command names none.
pub const DEFAULT_SEQ_STEP: u32 = 100;

/// A command to the registry.
#[derive(Debug)]
#[allow(inconsistent_fields)]
pub enum TableManageCmd {
    /// Store a value under a key, and force the anchor where an id is given.
    SetValue { table_name: Arc<String>, key: Vec<u8>, value: Vec<u8>, last_seq_id: Option<u64> },
    /// Remove a key.
    Remove { table_name: Arc<String>, key: Vec<u8> },
    /// Drop a table.
    Drop(Arc<String>),
    /// Hand out the next id of a table.
    NextId { table_name: Arc<String>, seq_step: Option<u32> },
    /// Force the anchor of a table's sequence.
    SetSeqId { table_name: Arc<String>, last_seq_id: u64 },
}

/// A command that its sender does not wait for.
#[derive(Debug)]
pub enum TableManageAsyncCmd {
    /// Store a value under a key.
    Insert { table_name: Arc<String>, key: Vec<u8>, value: Vec<u8> },
    /// Remove a key.
    Remove { table_name: Arc<String>, key: Vec<u8> },
    /// Drop a table.
    Drop(Arc<String>),
}

/// What a command gives back.
#[derive(Debug, Clone, PartialEq, Eq)]
pub enum TableManageResult {
    /// Nothing: no value was there, or the command gives none.
    NoValue,
    /// The value that a key held.
    Value(Vec<u8>),
    /// The id that was handed out.
    NextId(u64),
}

/// The name of the table that a command is for.
pub open spec fn table_of(cmd: TableManageCmd) -> Seq<char> {
    match cmd {
        TableManageCmd::SetValue { table_name, .. } => table_name@,
        TableManageCmd::Remove { table_name, .. } => table_name@,
        TableManageCmd::Drop(table_name) => table_name@,
        TableManageCmd::NextId { table_name, .. } => table_name@,
        TableManageCmd::SetSeqId { table_name, .. } => table_name@,
    }
}

/// The step that a command for an id asks for.
pub open spec fn step_of(seq_step: Option<u32>) -> u32 {
    match seq_step {
        Some(step) => step,
        None => DEFAULT_SEQ_STEP,
    }
}

/// What a command that stores or removes gave back, as the registry's
/// operation returned it.
pub open spec fn as_stored(r: Result<TableManageResult, TableError>) -> Result<
    Option<Vec<u8>>,
    TableError,
> {
    match r {
        Ok(TableManageResult::Value(v)) => Ok(Some(v)),
        Ok(_) => Ok(None),
        Err(e) => Err(e),
    }
}

/// What a command that gives nothing back gave back, as the registry's
/// operation returned it.
pub open spec fn as_done(r: Result<TableManageResult, TableError>) -> Result<(), TableError> {
    match r {
        Ok(_) => Ok(()),
        Err(e) => Err(e),
    }
}

/// What a command does: what the registry's operation of that kind does,
/// with the operation's result in the shape of the command's kind. A
/// command for an id on a table without a sequence gives nothing; every
/// other failure is handed on as it is.
pub open spec fn handle_outcome(
    pre: RegistryView,
    cmd: TableManageCmd,
    r: Result<TableManageResult, TableError>,
    post: RegistryView,
) -> bool {
    match cmd {
        TableManageCmd::SetValue { table_name, key, value, last_seq_id } => {
            &&& !(r matches Ok(TableManageResult::NextId(_)))
            &&& insert_outcome(pre, table_name@, key@, value@, last_seq_id, as_stored(r), post)
        },
        TableManageCmd::Remove { table_name, key } => {
            &&& !(r matches Ok(TableManageResult::NextId(_)))
            &&& remove_outcome(pre, table_name@, key@, as_stored(r), post)
        },
        TableManageCmd::Drop(table_name) => {
            &&& r is Ok ==> r == Ok::<TableManageResult, TableError>(TableManageResult::NoValue)
            &&& drop_outcome(pre, table_name@, as_done(r), post)
        },
        TableManageCmd::NextId { table_name, seq_step } => match r {
            Ok(TableManageResult::NextId(id)) => next_outcome(
                pre,
                table_name@,
                step_of(seq_step),
                Ok(id),
                post,
            ),
            Ok(TableManageResult::NoValue) => {
                &&& pre.opened(table_name@, step_of(seq_step)).sequence_of(table_name@) is None
                &&& post == pre.opened(table_name@, step_of(seq_step))
            },
            Ok(TableManageResult::Value(_)) => false,
            Err(e) => {
                &&& !(e is SequenceDisabled)
                &&& next_outcome(pre, table_name@, step_of(seq_step), Err(e), post)
            },
        },
        TableManageCmd::SetSeqId { table_name, last_seq_id } => {
            &&& r is Ok ==> r == Ok::<TableManageResult, TableError>(TableManageResult::NoValue)
            &&& set_seq_outcome(pre, table_name@, last_seq_id, as_done(r), post)
        },
    }
}

/// The command that does what `cmd` asks for, without an id to force.
pub open spec fn waited_for(cmd: TableManageAsyncCmd) -> TableManageCmd {
    match cmd {
        TableManageAsyncCmd::Insert { table_name, key, value } => TableManageCmd::SetValue {
            table_name,
            key,
            value,
            last_seq_id: None,
        },
        TableManageAsyncCmd::Remove { table_name, key } => TableManageCmd::Remove {
            table_name,
            key,
        },
        TableManageAsyncCmd::Drop(table_name) => TableManageCmd::Drop(table_name),
    }
}

impl TableManage {
    /// Runs one command to its end.
    pub fn handle(&mut self, msg: TableManageCmd) -> (r: Result<TableManageResult, TableError>)
        requires
            old(self)@.wf(),
        ensures
            final(self)@.wf(),
            handle_outcome(old(self)@, msg, r, final(self)@),
            old(self)@.durable() ==> final(self)@.durable(),
    {
        match msg {
            TableManageCmd::SetValue { table_name, key, value, last_seq_id } => {
                match self.insert(table_name, key.as_slice(), value, last_seq_id) {
                    Ok(Some(v)) => Ok(TableManageResult::Value(v)),
                    Ok(None) => Ok(TableManageResult::NoValue),
                    Err(e) => Err(e),
                }
            },
            TableManageCmd::Remove { table_name, key } => {
                match self.remove(table_name, key.as_slice()) {
                    Ok(Some(v)) => Ok(TableManageResult::Value(v)),
                    Ok(None) => Ok(TableManageResult::NoValue),
                    Err(e) => Err(e),
                }
            },
            TableManageCmd::Drop(name) => {
                match self.drop_table(&name) {
                    Ok(_) => Ok(TableManageResult::NoValue),
                    Err(e) => Err(e),
                }
            },
            TableManageCmd::NextId { table_name, seq_step } => {
                let step: u32 = match seq_step {
                    Some(step) => step,
                    None => DEFAULT_SEQ_STEP,
                };
                match self.next_id(table_name, step) {
                    Ok(v) => Ok(TableManageResult::NextId(v)),
                    Err(TableError::SequenceDisabled { .. }) => Ok(TableManageResult::NoValue),
                    Err(e) => Err(e),
                }
            },
            TableManageCmd::SetSeqId { table_name, last_seq_id } => {
                match self.set_last_seq_id(table_name, last_seq_id) {
                    Ok(_) => Ok(TableManageResult::NoValue),
                    Err(e) => Err(e),
                }
            },
        }
    }

    /// Runs one command that its sender does not wait for: as the command
    /// of the same kind that is waited for, without an id to force.
    pub fn handle_async(&mut self, msg: TableManageAsyncCmd) -> (r: Result<
        TableManageResult,
        TableError,
    >)
        requires
            old(self)@.wf(),
        ensures
            final(self)@.wf(),
            handle_outcome(old(self)@, waited_for(msg), r, final(self)@),
            old(self)@.durable() ==> final(self)@.durable(),
    {
        let cmd = match msg {
            TableManageAsyncCmd::Insert { table_name, key, value } => TableManageCmd::SetValue {
                table_name,
                key,
                value,
                last_seq_id: None,
            },
            TableManageAsyncCmd::Remove { table_name, key } => TableManageCmd::Remove {
                table_name,
                key,
            },
            TableManageAsyncCmd::Drop(table_name) => TableManageCmd::Drop(table_name),
        };
        self.handle(cmd)
    }
}

} // verus!
