//! A persisted id sequence that hands out ids in buffered blocks.
//!
//! The sequence keeps one number in the database, its anchor: every id that
//! was handed out is at most the anchor. A block of `step` ids is claimed by
//! moving the anchor forward by `step` in one durable write; the ids of the
//! block are then handed out from memory. A sequence that is set up anew
//! over the same database starts behind the anchor, so that it may pass
//! over ids of a block that was never used up, but repeats none.

use crate::error::TableError;
use crate::store::{db_entries, entry_at, storage_failure, store_get, store_insert, Slot};
use vstd::bytes::*;
use vstd::prelude::*;
use vstd::string::*;
use vstd::utf8::*;

verus! {

/// The key under which a sequence keeps its anchor in its own partition.
pub open spec fn anchor_key() -> Seq<u8> {
    encode_utf8("last_id"@)
}

/// The bytes that persist an anchor: eight bytes, least significant first.
pub open spec fn anchor_bytes(anchor: u64) -> Seq<u8> {
    spec_u64_to_le_bytes(anchor)
}

/// The anchor that the database holds for the sequence in partition
/// `tree`: zero where none was written, `None` where what is there is not
/// eight bytes long.
pub open spec fn persisted_anchor(entries: Map<Slot, Seq<u8>>, tree: Seq<char>) -> Option<u64> {
    match entry_at(entries, (tree, anchor_key())) {
        None => Some(0u64),
        Some(bytes) => if bytes.len() == 8 {
            Some(spec_u64_from_le_bytes(bytes))
        } else {
            None
        },
    }
}

/// A sequence as a mathematical value.
pub ghost struct SequenceView {
    /// The partition that keeps the anchor.
    pub tree: Seq<char>,
    /// How many ids one durable write claims.
    pub step: u64,
    /// The id that was handed out last from the block in memory.
    pub last_id: u64,
    /// The last id of the block in memory.
    pub limit: u64,
}

impl SequenceView {
    /// The step is positive and the block in memory is not overrun.
    pub open spec fn wf(self) -> bool {
        self.step > 0 && self.last_id <= self.limit
    }

    /// The slot that keeps the anchor.
    pub open spec fn slot(self) -> Slot {
        (self.tree, anchor_key())
    }

    /// Ids of the block in memory are left.
    pub open spec fn buffered(self) -> bool {
        self.last_id < self.limit
    }

    /// While ids of the block in memory are left, the anchor in the
    /// database is the block's last id.
    pub open spec fn in_sync(self, entries: Map<Slot, Seq<u8>>) -> bool {
        self.buffered() ==> persisted_anchor(entries, self.tree) == Some(self.limit)
    }

    /// The id below the next one: the id handed out last while the block
    /// in memory lasts, else the anchor in the database.
    pub open spec fn floor(self, entries: Map<Slot, Seq<u8>>) -> Option<u64> {
        if self.buffered() {
            Some(self.last_id)
        } else {
            persisted_anchor(entries, self.tree)
        }
    }

    /// The sequence with no block in memory.
    pub open spec fn drained(self) -> SequenceView {
        SequenceView { tree: self.tree, step: self.step, last_id: 0, limit: 0 }
    }

    /// The sequence after it handed out `id` from a block that ends at
    /// `limit`.
    pub open spec fn advanced(self, id: u64, limit: u64) -> SequenceView {
        SequenceView { tree: self.tree, step: self.step, last_id: id, limit }
    }
}

/// A sequence that was just set up: no block in memory.
pub open spec fn fresh_sequence(tree: Seq<char>, step: u64) -> SequenceView {
    SequenceView { tree, step, last_id: 0, limit: 0 }
}

/// The database after the anchor in partition `tree` was set to `anchor`.
pub open spec fn with_anchor(entries: Map<Slot, Seq<u8>>, tree: Seq<char>, anchor: u64) -> Map<
    Slot,
    Seq<u8>,
> {
    entries.insert((tree, anchor_key()), anchor_bytes(anchor))
}

/// What asking for the next id does. While the block in memory lasts, the
/// next id is handed out and the database is left alone. Else a block is
/// claimed: the anchor moves forward by the step and the first id behind
/// the old anchor is handed out. A failure leaves the sequence as it was;
/// where the database failed, the anchor is as before or has moved.
pub open spec fn next_id_outcome(
    pre: SequenceView,
    pre_entries: Map<Slot, Seq<u8>>,
    r: Result<u64, TableError>,
    post: SequenceView,
    post_entries: Map<Slot, Seq<u8>>,
) -> bool {
    let anchor = persisted_anchor(pre_entries, pre.tree);
    match r {
        Ok(id) => if pre.buffered() {
            &&& id == pre.last_id + 1
            &&& post == pre.advanced(id, pre.limit)
            &&& post_entries == pre_entries
        } else {
            &&& anchor is Some
            &&& anchor->Some_0 + pre.step <= u64::MAX
            &&& id == anchor->Some_0 + 1
            &&& post == pre.advanced(id, (anchor->Some_0 + pre.step) as u64)
            &&& post_entries == with_anchor(
                pre_entries,
                pre.tree,
                (anchor->Some_0 + pre.step) as u64,
            )
        },
        Err(TableError::SequenceCorrupt) => {
            &&& !pre.buffered()
            &&& anchor is None
            &&& post == pre
            &&& post_entries == pre_entries
        },
        Err(TableError::SequenceExhausted) => {
            &&& !pre.buffered()
            &&& anchor is Some
            &&& anchor->Some_0 + pre.step > u64::MAX
            &&& post == pre
            &&& post_entries == pre_entries
        },
        Err(TableError::Storage(_)) => {
            &&& !pre.buffered()
            &&& post == pre
            &&& {
                ||| post_entries == pre_entries
                ||| {
                    &&& anchor is Some
                    &&& anchor->Some_0 + pre.step <= u64::MAX
                    &&& post_entries == with_anchor(
                        pre_entries,
                        pre.tree,
                        (anchor->Some_0 + pre.step) as u64,
                    )
                }
            }
        },
        Err(_) => false,
    }
}

/// What forcing the anchor to `value` does. The block in memory is given
/// up. On success the anchor is `value`; where the database failed, the
/// anchor is as before or is `value`.
pub open spec fn set_anchor_outcome(
    pre: SequenceView,
    pre_entries: Map<Slot, Seq<u8>>,
    value: u64,
    r: Result<(), TableError>,
    post: SequenceView,
    post_entries: Map<Slot, Seq<u8>>,
) -> bool {
    &&& post == pre.drained()
    &&& match r {
        Ok(_) => post_entries == with_anchor(pre_entries, pre.tree, value),
        Err(TableError::Storage(_)) => post_entries == pre_entries || post_entries == with_anchor(
            pre_entries,
            pre.tree,
            value,
        ),
        Err(_) => false,
    }
}

/// An anchor that was written is the anchor that is read.
pub proof fn lemma_anchor_written(entries: Map<Slot, Seq<u8>>, tree: Seq<char>, anchor: u64)
    ensures
        persisted_anchor(with_anchor(entries, tree, anchor), tree) == Some(anchor),
{
    lemma_auto_spec_u64_to_from_le_bytes();
}

/// The id sequence of one table.
#[derive(Debug)]
pub struct TableSequence {
    tree: String,
    step: u64,
    last_id: u64,
    limit: u64,
}

impl View for TableSequence {
    type V = SequenceView;

    closed spec fn view(&self) -> SequenceView {
        SequenceView {
            tree: self.tree@,
            step: self.step,
            last_id: self.last_id,
            limit: self.limit,
        }
    }
}

impl TableSequence {
    /// Sets up the sequence that keeps its anchor in partition
    /// `sequence_name` and claims `step` ids at a time. Nothing is read or
    /// written yet.
    pub fn new(sequence_name: String, step: u64) -> (s: TableSequence)
        requires
            step > 0,
        ensures
            s@ == fresh_sequence(sequence_name@, step),
    {
        TableSequence { tree: sequence_name, step, last_id: 0, limit: 0 }
    }

    /// The partition that keeps the anchor.
    pub fn sequence_name(&self) -> (name: &str)
        ensures
            name@ == self@.tree,
    {
        self.tree.as_str()
    }

    /// How many ids one durable write claims.
    pub fn step(&self) -> (step: u64)
        ensures
            step == self@.step,
    {
        self.step
    }

    /// Hands out the next id.
    pub fn next_id(&mut self, db: &mut sled::Db) -> (r: Result<u64, TableError>)
        requires
            old(self)@.wf(),
            old(self)@.in_sync(db_entries(*old(db))),
        ensures
            next_id_outcome(
                old(self)@,
                db_entries(*old(db)),
                r,
                final(self)@,
                db_entries(*final(db)),
            ),
            final(self)@.wf(),
            final(self)@.in_sync(db_entries(*final(db))),
    {
        if self.last_id < self.limit {
            self.last_id = self.last_id + 1;
            return Ok(self.last_id);
        }
        let key = "last_id".as_bytes();
        let stored = match store_get(db, self.tree.as_str(), key) {
            Ok(found) => found,
            Err(e) => {
                return Err(storage_failure(&e));
            },
        };
        let anchor: u64 = match stored {
            None => 0,
            Some(bytes) => {
                if bytes.len() != 8 {
                    return Err(TableError::SequenceCorrupt);
                }
                u64_from_le_bytes(bytes.as_slice())
            },
        };
        if anchor > u64::MAX - self.step {
            return Err(TableError::SequenceExhausted);
        }
        let end: u64 = anchor + self.step;
        let bytes = u64_to_le_bytes(end);
        match store_insert(db, self.tree.as_str(), key, bytes.as_slice()) {
            Ok(_) => {},
            Err(e) => {
                return Err(storage_failure(&e));
            },
        }
        proof {
            lemma_anchor_written(db_entries(*old(db)), self.tree@, end);
        }
        self.last_id = anchor + 1;
        self.limit = end;
        Ok(self.last_id)
    }

    /// Forces the anchor to `value` and gives up the block in memory, so
    /// that the next id is the one behind `value`.
    pub fn set_table_last_id(&mut self, db: &mut sled::Db, value: u64) -> (r: Result<
        (),
        TableError,
    >)
        ensures
            set_anchor_outcome(
                old(self)@,
                db_entries(*old(db)),
                value,
                r,
                final(self)@,
                db_entries(*final(db)),
            ),
    {
        self.last_id = 0;
        self.limit = 0;
        let key = "last_id".as_bytes();
        let bytes = u64_to_le_bytes(value);
        match store_insert(db, self.tree.as_str(), key, bytes.as_slice()) {
            Ok(_) => Ok(()),
            Err(e) => Err(storage_failure(&e)),
        }
    }
}

impl Clone for TableSequence {
    /// A sequence with the same partition, step and block in memory.
    fn clone(&self) -> (s: TableSequence)
        ensures
            s@ == self@,
    {
        TableSequence {
            tree: self.tree.clone(),
            step: self.step,
            last_id: self.last_id,
            limit: self.limit,
        }
    }
}

} // verus!
