//! The registry as a mathematical value, and what each of its operations
//! does to that value.
//!
//! The database holds a catalog, one partition of data for each table, and
//! one partition for the anchor of each sequence. The registry keeps the
//! open tables in memory. The contracts of the operations are stated over
//! the functions of this module.

use crate::definition::{record_bytes, DefinitionView};
use crate::error::TableError;
use crate::sequence::{anchor_key, fresh_sequence, with_anchor, SequenceView};
use crate::store::{
    bytes_before, entry_at, is_scan, lemma_bytes_before_irreflexive, opt_bytes, slots_of, Slot,
};
use vstd::prelude::*;
use vstd::utf8::*;

verus! {

/// The name of the partition that holds the catalog.
pub open spec fn catalog_tree() -> Seq<char> {
    "tables"@
}

/// The name of the partition that holds the data of table `name`.
pub open spec fn partition_name(name: Seq<char>) -> Seq<char> {
    "t_"@ + name
}

/// The name of the partition that holds the anchor of the sequence of
/// table `name`.
pub open spec fn sequence_name(name: Seq<char>) -> Seq<char> {
    "seq_"@ + name
}

/// The slot of the catalog that holds the record of table `name`.
pub open spec fn catalog_slot(name: Seq<char>) -> Slot {
    (catalog_tree(), encode_utf8(name))
}

/// The slot that holds the value of `key` in table `name`.
pub open spec fn data_slot(name: Seq<char>, key: Seq<u8>) -> Slot {
    (partition_name(name), key)
}

/// The slots that belong to table `name`: its record in the catalog, its
/// data and the anchor of its sequence.
pub open spec fn table_slots(name: Seq<char>) -> Set<Slot> {
    Set::new(
        |s: Slot|
            s == catalog_slot(name) || s.0 == partition_name(name) || s.0 == sequence_name(name),
    )
}

/// The definition of table `name` with a sequence of step `step`.
pub open spec fn definition_of(name: Seq<char>, step: u32) -> DefinitionView {
    DefinitionView { name, sequence_step: step }
}

/// An open table as a mathematical value.
pub ghost struct TableView {
    pub name: Seq<char>,
    pub partition: Seq<char>,
    pub sequence: Option<SequenceView>,
}

impl TableView {
    /// This table with `sequence` in place of its own.
    pub open spec fn with_sequence(self, sequence: SequenceView) -> TableView {
        TableView { name: self.name, partition: self.partition, sequence: Some(sequence) }
    }
}

/// Table `name` as it is when it was just opened with a step of `step`: it
/// has a sequence exactly when the step is not zero, and the sequence has
/// no block in memory.
pub open spec fn fresh_table(name: Seq<char>, step: u32) -> TableView {
    TableView {
        name,
        partition: partition_name(name),
        sequence: if step == 0 {
            None
        } else {
            Some(fresh_sequence(sequence_name(name), step as u64))
        },
    }
}

/// The registry as a mathematical value: the open tables by name, and what
/// the database holds.
pub ghost struct RegistryView {
    pub tables: Map<Seq<char>, TableView>,
    pub entries: Map<Slot, Seq<u8>>,
}

impl RegistryView {
    /// The open table `name` is filed under its own name, its partition is
    /// named after it, and its sequence, if it has one, keeps its anchor
    /// in the partition named after the table and agrees with the
    /// database.
    pub open spec fn table_ok(self, name: Seq<char>) -> bool {
        let t = self.tables[name];
        &&& t.name == name
        &&& t.partition == partition_name(name)
        &&& match t.sequence {
            Some(s) => s.tree == sequence_name(name) && s.wf() && s.in_sync(self.entries),
            None => true,
        }
    }

    /// Every open table is in order.
    pub open spec fn wf(self) -> bool {
        forall|name: Seq<char>| #[trigger] self.tables.contains_key(name) ==> self.table_ok(name)
    }

    /// The registry after table `name` was defined with a step of `step`
    /// and opened.
    pub open spec fn with_table(self, name: Seq<char>, step: u32) -> RegistryView {
        RegistryView {
            tables: self.tables.insert(name, fresh_table(name, step)),
            entries: self.entries.insert(
                catalog_slot(name),
                record_bytes(definition_of(name, step)),
            ),
        }
    }

    /// From this registry to `post`, nothing changed but what belongs to
    /// table `name`.
    pub open spec fn only_table_changed(self, post: RegistryView, name: Seq<char>) -> bool {
        &&& forall|n: Seq<char>|
            n != name ==> (#[trigger] post.tables.contains_key(n) == self.tables.contains_key(n))
                && (self.tables.contains_key(n) ==> post.tables[n] == self.tables[n])
        &&& forall|s: Slot|
            !table_slots(name).contains(s) ==> #[trigger] entry_at(post.entries, s) == entry_at(
                self.entries,
                s,
            )
    }

    /// The id below the next id of table `name`, where the table is open
    /// with a sequence whose anchor can be read.
    pub open spec fn floor_of(self, name: Seq<char>) -> Option<u64> {
        match self.sequence_of(name) {
            Some(s) => s.floor(self.entries),
            None => None,
        }
    }

    /// The sequence of table `name`, where the table is open and has one.
    pub open spec fn sequence_of(self, name: Seq<char>) -> Option<SequenceView> {
        if self.tables.contains_key(name) {
            self.tables[name].sequence
        } else {
            None
        }
    }
}

/// The names of the partitions tell the catalog, the data of each table
/// and the anchor of each sequence apart.
pub proof fn lemma_partition_names(a: Seq<char>, b: Seq<char>)
    ensures
        partition_name(a) != catalog_tree(),
        sequence_name(a) != catalog_tree(),
        partition_name(a) != sequence_name(b),
        partition_name(a) == partition_name(b) ==> a == b,
        sequence_name(a) == sequence_name(b) ==> a == b,
{
    reveal_strlit("tables");
    reveal_strlit("t_");
    reveal_strlit("seq_");
    assert(partition_name(a)[1] == '_');
    assert(catalog_tree()[1] == 'a');
    assert(sequence_name(a)[0] == 's');
    assert(catalog_tree()[0] == 't');
    assert(partition_name(a)[0] == 't');
    assert(sequence_name(b)[0] == 's');
    assert(partition_name(a).skip(2) =~= a);
    assert(partition_name(b).skip(2) =~= b);
    assert(sequence_name(a).skip(4) =~= a);
    assert(sequence_name(b).skip(4) =~= b);
}

/// A change to what belongs to one table leaves every other open table in
/// order.
pub proof fn lemma_other_tables_kept(pre: RegistryView, post: RegistryView, name: Seq<char>)
    requires
        pre.wf(),
        pre.only_table_changed(post, name),
    ensures
        forall|n: Seq<char>| n != name && #[trigger] post.tables.contains_key(n) ==> post.table_ok(n),
{
    assert forall|n: Seq<char>| n != name && #[trigger] post.tables.contains_key(n) implies post.table_ok(
        n,
    ) by {
        assert(pre.tables.contains_key(n));
        assert(pre.table_ok(n));
        lemma_partition_names(name, n);
        lemma_partition_names(n, name);
        let slot = (sequence_name(n), anchor_key());
        assert(!table_slots(name).contains(slot));
        assert(entry_at(post.entries, slot) == entry_at(pre.entries, slot));
    }
}

impl RegistryView {
    /// The registry with table `name` open: as it is where the table is
    /// open already, else with the table defined with a step of `step`.
    pub open spec fn opened(self, name: Seq<char>, step: u32) -> RegistryView {
        if self.tables.contains_key(name) {
            self
        } else {
            self.with_table(name, step)
        }
    }

    /// The registry after the anchor of the sequence of table `name` was
    /// forced to `value`: as it is where the table is not open or has no
    /// sequence.
    pub open spec fn with_anchor_forced(self, name: Seq<char>, value: u64) -> RegistryView {
        match self.sequence_of(name) {
            Some(s) => RegistryView {
                tables: self.tables.insert(name, self.tables[name].with_sequence(s.drained())),
                entries: with_anchor(self.entries, s.tree, value),
            },
            None => self,
        }
    }

    /// The registry after `value` was stored under `key` in table `name`.
    pub open spec fn with_value(self, name: Seq<char>, key: Seq<u8>, value: Seq<u8>) -> RegistryView {
        RegistryView { tables: self.tables, entries: self.entries.insert(data_slot(name, key), value) }
    }

    /// The registry after `key` was removed from table `name`.
    pub open spec fn without_value(self, name: Seq<char>, key: Seq<u8>) -> RegistryView {
        RegistryView { tables: self.tables, entries: self.entries.remove(data_slot(name, key)) }
    }
}

/// Opening table `name` failed on the database: no table was opened, and
/// the catalog holds the table's record or does not. This can be only
/// where the table was not open.
pub open spec fn opening_failed(pre: RegistryView, name: Seq<char>, step: u32, post: RegistryView) -> bool {
    &&& !pre.tables.contains_key(name)
    &&& post.tables == pre.tables
    &&& (post.entries == pre.entries || post.entries == pre.with_table(name, step).entries)
}

/// What opening table `name` does. A table that is open is left as it is,
/// whatever `step` says. Else the table is defined in the catalog and
/// opened with a step of `step`. Where the database fails, no table is
/// opened, and the catalog holds the record or does not.
pub open spec fn create_outcome(
    pre: RegistryView,
    name: Seq<char>,
    step: u32,
    r: Result<(), TableError>,
    post: RegistryView,
) -> bool {
    if pre.tables.contains_key(name) {
        r is Ok && post == pre
    } else {
        match r {
            Ok(_) => post == pre.with_table(name, step),
            Err(TableError::Storage(_)) => opening_failed(pre, name, step, post),
            Err(_) => false,
        }
    }
}

/// What forcing the anchor of table `name` to `value` does. Nothing where
/// the table is not open or has no sequence. Else the block in memory is
/// given up and the anchor is `value`; where the database fails, the
/// anchor is as before or is `value`.
pub open spec fn set_seq_outcome(
    pre: RegistryView,
    name: Seq<char>,
    value: u64,
    r: Result<(), TableError>,
    post: RegistryView,
) -> bool {
    match r {
        Ok(_) => post == pre.with_anchor_forced(name, value),
        Err(TableError::Storage(_)) => {
            &&& pre.sequence_of(name) is Some
            &&& post.tables == pre.with_anchor_forced(name, value).tables
            &&& (post.entries == pre.entries || post.entries == pre.with_anchor_forced(
                name,
                value,
            ).entries)
        },
        Err(_) => false,
    }
}

/// What storing `value` under `key` in table `name` does. The table is
/// opened, without a sequence where it is defined now. Where an id is
/// given and the table has a sequence, the anchor is forced to that id.
/// Then the value is stored, and the value that the key held before is
/// returned. The database may fail at each of the three steps: the steps
/// before it are done, the step at which it failed is done or not, and
/// nothing else has changed.
pub open spec fn insert_outcome(
    pre: RegistryView,
    name: Seq<char>,
    key: Seq<u8>,
    value: Seq<u8>,
    last_seq_id: Option<u64>,
    r: Result<Option<Vec<u8>>, TableError>,
    post: RegistryView,
) -> bool {
    let opened = pre.opened(name, 0);
    let forwarded = match last_seq_id {
        Some(id) => opened.with_anchor_forced(name, id),
        None => opened,
    };
    match r {
        Ok(previous) => {
            &&& post == forwarded.with_value(name, key, value)
            &&& opt_bytes(previous) == entry_at(pre.entries, data_slot(name, key))
        },
        Err(TableError::Storage(_)) => {
            ||| opening_failed(pre, name, 0, post)
            ||| {
                &&& last_seq_id is Some
                &&& opened.sequence_of(name) is Some
                &&& post.tables == forwarded.tables
                &&& (post.entries == opened.entries || post.entries == forwarded.entries)
            }
            ||| {
                &&& post.tables == forwarded.tables
                &&& (post.entries == forwarded.entries || post.entries == forwarded.with_value(
                    name,
                    key,
                    value,
                ).entries)
            }
        },
        Err(_) => false,
    }
}

/// What removing `key` from table `name` does. Nothing where the table is
/// not open: no table is opened and nothing is written. Else the key is
/// removed and the value that it held is returned; where the database
/// fails, the key is as before or is removed.
pub open spec fn remove_outcome(
    pre: RegistryView,
    name: Seq<char>,
    key: Seq<u8>,
    r: Result<Option<Vec<u8>>, TableError>,
    post: RegistryView,
) -> bool {
    if !pre.tables.contains_key(name) {
        r == Ok::<Option<Vec<u8>>, TableError>(None) && post == pre
    } else {
        match r {
            Ok(previous) => {
                &&& post == pre.without_value(name, key)
                &&& opt_bytes(previous) == entry_at(pre.entries, data_slot(name, key))
            },
            Err(TableError::Storage(_)) => post == pre || post == pre.without_value(name, key),
            Err(_) => false,
        }
    }
}

/// What asking table `name` for its next id does. The table is opened,
/// with a sequence of step `step` where it is defined now. A table without
/// a sequence gives no id: the failure names the table, and nothing else
/// is done. Else the table's sequence hands out its next id, as
/// `crate::sequence::next_id_outcome` says, whether it succeeds or fails.
/// So the database can fail only where the table had to be opened, or
/// where the sequence has no id left in memory; an open table is then as
/// it was, and of the database only the anchor may have moved.
pub open spec fn next_outcome(
    pre: RegistryView,
    name: Seq<char>,
    step: u32,
    r: Result<u64, TableError>,
    post: RegistryView,
) -> bool {
    let opened = pre.opened(name, step);
    ||| {
        &&& r matches Err(TableError::Storage(_))
        &&& opening_failed(pre, name, step, post)
    }
    ||| {
        &&& r matches Err(TableError::SequenceDisabled { table })
        &&& table@ == name
        &&& opened.sequence_of(name) is None
        &&& post == opened
    }
    ||| {
        &&& !(r matches Err(TableError::SequenceDisabled { .. }))
        &&& opened.sequence_of(name) is Some
        &&& post.sequence_of(name) is Some
        &&& crate::sequence::next_id_outcome(
            opened.sequence_of(name)->Some_0,
            opened.entries,
            r,
            post.sequence_of(name)->Some_0,
            post.entries,
        )
        &&& post.tables == opened.tables.insert(
            name,
            opened.tables[name].with_sequence(post.sequence_of(name)->Some_0),
        )
    }
}

/// What dropping the partition of a table does to the database, where
/// `reset` is the database after the attempt to set the anchor back.
pub open spec fn partition_dropped(
    reset: Map<Slot, Seq<u8>>,
    partition: Seq<char>,
    r: Result<(), TableError>,
    post_entries: Map<Slot, Seq<u8>>,
) -> bool {
    match r {
        Ok(_) => post_entries == reset.remove_keys(slots_of(partition)),
        Err(TableError::Storage(_)) => crate::store::same_outside(reset, post_entries, partition),
        Err(_) => false,
    }
}

/// What dropping table `name` does. Nothing where the table is not open.
/// Else the table is closed, the anchor of its sequence is set back to
/// zero where that write succeeds, and the table's partition is dropped
/// with all that it holds. The table's record stays in the catalog. Only a
/// failure to drop the partition is reported.
pub open spec fn drop_outcome(
    pre: RegistryView,
    name: Seq<char>,
    r: Result<(), TableError>,
    post: RegistryView,
) -> bool {
    if !pre.tables.contains_key(name) {
        r is Ok && post == pre
    } else {
        &&& post.tables == pre.tables.remove(name)
        &&& {
            ||| partition_dropped(pre.entries, partition_name(name), r, post.entries)
            ||| {
                &&& pre.tables[name].sequence is Some
                &&& partition_dropped(
                    with_anchor(pre.entries, sequence_name(name), 0),
                    partition_name(name),
                    r,
                    post.entries,
                )
            }
        }
    }
}

/// The definition that the catalog holds of table `name`: what the record
/// in the table's slot of the catalog reads as, where it names the table.
pub open spec fn catalogued(entries: Map<Slot, Seq<u8>>, name: Seq<char>) -> Option<DefinitionView> {
    match entry_at(entries, catalog_slot(name)) {
        Some(bytes) => match crate::definition::decoded(bytes) {
            Some(d) => if d.name == name {
                Some(d)
            } else {
                None
            },
            None => None,
        },
        None => None,
    }
}

/// The record holds no definition, or it is filed under the name that its
/// definition gives.
pub open spec fn record_keyed(key: Seq<u8>, record: Seq<u8>) -> bool {
    match crate::definition::decoded(record) {
        Some(d) => key == encode_utf8(d.name),
        None => true,
    }
}

/// Every record of the catalog that holds a definition is filed under the
/// name that the definition gives. This holds of a catalog that only this
/// registry wrote.
pub open spec fn catalog_keyed(entries: Map<Slot, Seq<u8>>) -> bool {
    forall|k: Seq<u8>| #[trigger]
        entries.contains_key((catalog_tree(), k)) ==> record_keyed(k, entries[(catalog_tree(), k)])
}

/// The catalog holds the same in both states of the database.
pub open spec fn same_catalog(a: Map<Slot, Seq<u8>>, b: Map<Slot, Seq<u8>>) -> bool {
    forall|k: Seq<u8>|
        #![trigger entry_at(a, (catalog_tree(), k))]
        #![trigger entry_at(b, (catalog_tree(), k))]
        entry_at(a, (catalog_tree(), k)) == entry_at(b, (catalog_tree(), k))
}

impl RegistryView {
    /// What is in memory agrees with what is durable: the catalog is filed
    /// by name, and it defines every open table, with a sequence of the
    /// step that the table has in memory, or with none where the table has
    /// none.
    pub open spec fn durable(self) -> bool {
        &&& catalog_keyed(self.entries)
        &&& forall|name: Seq<char>| #[trigger]
            self.tables.contains_key(name) ==> self.table_durable(name)
    }

    /// The catalog defines the open table `name` as it is in memory.
    pub open spec fn table_durable(self, name: Seq<char>) -> bool {
        match catalogued(self.entries, name) {
            Some(d) => match self.tables[name].sequence {
                Some(s) => d.sequence_step != 0 && s.step == d.sequence_step,
                None => d.sequence_step == 0,
            },
            None => false,
        }
    }
}

/// Two names with the same bytes are one name.
pub proof fn lemma_name_bytes_injective(a: Seq<char>, b: Seq<char>)
    requires
        encode_utf8(a) == encode_utf8(b),
    ensures
        a == b,
{
    encode_utf8_decode_utf8(a);
    encode_utf8_decode_utf8(b);
}

/// The record of a table that was defined reads back as the definition:
/// what a later scan of the catalog finds in the table's slot is the name
/// and the step that the table was defined with.
pub proof fn lemma_defined_record_reads_back(
    entries: Map<Slot, Seq<u8>>,
    name: Seq<char>,
    step: u32,
)
    requires
        encode_utf8(name).len() <= u64::MAX,
    ensures
        catalogued(
            entries.insert(catalog_slot(name), record_bytes(definition_of(name, step))),
            name,
        ) == Some(definition_of(name, step)),
{
    crate::definition::lemma_record_round_trip(definition_of(name, step));
}

/// A scan of the catalog shows whether the catalog is filed by name: it is
/// exactly where every record of the scan is.
pub proof fn lemma_scan_shows_keyed(records: Seq<(Seq<u8>, Seq<u8>)>, entries: Map<Slot, Seq<u8>>)
    requires
        is_scan(records, entries, catalog_tree()),
    ensures
        catalog_keyed(entries) <==> forall|j: int|
            0 <= j < records.len() ==> record_keyed((#[trigger] records[j]).0, records[j].1),
{
    if catalog_keyed(entries) {
        assert forall|j: int| 0 <= j < records.len() implies record_keyed(
            (#[trigger] records[j]).0,
            records[j].1,
        ) by {
            assert(entry_at(entries, (catalog_tree(), records[j].0)) == Some(records[j].1));
            assert(entries.contains_key((catalog_tree(), records[j].0)));
        }
    }
    if forall|j: int| 0 <= j < records.len() ==> record_keyed((#[trigger] records[j]).0, records[j].1) {
        assert forall|k: Seq<u8>| #[trigger]
            entries.contains_key((catalog_tree(), k)) implies record_keyed(
            k,
            entries[(catalog_tree(), k)],
        ) by {
            let j = choose|j: int| 0 <= j < records.len() && (#[trigger] records[j]).0 == k;
            assert(entry_at(entries, (catalog_tree(), records[j].0)) == Some(records[j].1));
            assert(record_keyed(records[j].0, records[j].1));
        }
    }
}

/// A catalog that is filed by name stays so when a table is defined.
pub proof fn lemma_define_keeps_keyed(entries: Map<Slot, Seq<u8>>, name: Seq<char>, step: u32)
    requires
        catalog_keyed(entries),
        encode_utf8(name).len() <= u64::MAX,
    ensures
        catalog_keyed(entries.insert(catalog_slot(name), record_bytes(definition_of(name, step)))),
        catalogued(
            entries.insert(catalog_slot(name), record_bytes(definition_of(name, step))),
            name,
        ) == Some(definition_of(name, step)),
{
    let after = entries.insert(catalog_slot(name), record_bytes(definition_of(name, step)));
    lemma_defined_record_reads_back(entries, name, step);
    assert forall|k: Seq<u8>| #[trigger] after.contains_key((catalog_tree(), k)) implies record_keyed(
        k,
        after[(catalog_tree(), k)],
    ) by {
        if k != encode_utf8(name) {
            assert(entries.contains_key((catalog_tree(), k)));
        }
    }
}

/// Where the catalog holds the same, and every open table was open
/// before with the same step or the same lack of a sequence, what is in
/// memory still agrees with what is durable.
pub proof fn lemma_catalog_kept(pre: RegistryView, post: RegistryView)
    requires
        pre.durable(),
        same_catalog(pre.entries, post.entries),
        forall|n: Seq<char>| #[trigger]
            post.tables.contains_key(n) ==> pre.tables.contains_key(n) && match (
                post.tables[n].sequence,
                pre.tables[n].sequence,
            ) {
                (Some(s), Some(t)) => s.step == t.step,
                (None, None) => true,
                _ => false,
            },
    ensures
        post.durable(),
{
    assert forall|k: Seq<u8>| #[trigger] post.entries.contains_key((catalog_tree(), k)) implies record_keyed(
        k,
        post.entries[(catalog_tree(), k)],
    ) by {
        assert(entry_at(pre.entries, (catalog_tree(), k)) == entry_at(
            post.entries,
            (catalog_tree(), k),
        ));
        assert(pre.entries.contains_key((catalog_tree(), k)));
    }
    assert forall|n: Seq<char>| #[trigger] post.tables.contains_key(n) implies post.table_durable(
        n,
    ) by {
        assert(pre.tables.contains_key(n));
        assert(pre.table_durable(n));
        assert(entry_at(pre.entries, catalog_slot(n)) == entry_at(post.entries, catalog_slot(n)));
    }
}

/// Two states of the database with the same catalog are filed by name
/// together, and define the same tables.
pub proof fn lemma_keyed_with_same_catalog(a: Map<Slot, Seq<u8>>, b: Map<Slot, Seq<u8>>)
    requires
        catalog_keyed(a),
        same_catalog(a, b),
    ensures
        catalog_keyed(b),
        forall|n: Seq<char>| #[trigger] catalogued(b, n) == catalogued(a, n),
{
    assert forall|k: Seq<u8>| #[trigger] b.contains_key((catalog_tree(), k)) implies record_keyed(
        k,
        b[(catalog_tree(), k)],
    ) by {
        assert(entry_at(a, (catalog_tree(), k)) == entry_at(b, (catalog_tree(), k)));
        assert(a.contains_key((catalog_tree(), k)));
    }
    assert forall|n: Seq<char>| #[trigger] catalogued(b, n) == catalogued(a, n) by {
        assert(entry_at(a, (catalog_tree(), encode_utf8(n))) == entry_at(
            b,
            (catalog_tree(), encode_utf8(n)),
        ));
    }
}

/// A change that leaves the catalog alone, made to what belongs to one
/// table, leaves the catalog the same.
pub proof fn lemma_same_catalog(pre: RegistryView, post: RegistryView, name: Seq<char>)
    requires
        pre.only_table_changed(post, name),
        entry_at(post.entries, catalog_slot(name)) == entry_at(pre.entries, catalog_slot(name)),
    ensures
        same_catalog(pre.entries, post.entries),
{
    assert forall|k: Seq<u8>|
        #![trigger entry_at(pre.entries, (catalog_tree(), k))]
        #![trigger entry_at(post.entries, (catalog_tree(), k))]
        entry_at(pre.entries, (catalog_tree(), k)) == entry_at(
            post.entries,
            (catalog_tree(), k),
        ) by {
        lemma_partition_names(name, name);
        let slot = (catalog_tree(), k);
        if slot != catalog_slot(name) {
            assert(!table_slots(name).contains(slot));
            assert(entry_at(post.entries, slot) == entry_at(pre.entries, slot));
        }
    }
}

/// The tables that a scan of the catalog opens: each record that holds a
/// definition opens the table that the definition names, bytes that hold
/// none are passed over, and of two records that name one table the later
/// counts.
pub open spec fn loaded_tables(records: Seq<(Seq<u8>, Seq<u8>)>) -> Map<Seq<char>, TableView>
    decreases records.len(),
{
    if records.len() == 0 {
        Map::empty()
    } else {
        let before = loaded_tables(records.drop_last());
        match crate::definition::decoded(records.last().1) {
            Some(d) => before.insert(d.name, fresh_table(d.name, d.sequence_step)),
            None => before,
        }
    }
}

/// No two records hold definitions of one name.
pub open spec fn names_distinct(records: Seq<(Seq<u8>, Seq<u8>)>) -> bool {
    forall|i: int, j: int|
        0 <= i < j < records.len() && crate::definition::decoded((#[trigger] records[i]).1) is Some
            && crate::definition::decoded((#[trigger] records[j]).1) is Some
            ==> crate::definition::decoded(records[i].1)->Some_0.name
            != crate::definition::decoded(records[j].1)->Some_0.name
}

/// In a scan of a catalog that is filed by name, no two records hold
/// definitions of one name.
pub proof fn lemma_keyed_names_distinct(
    records: Seq<(Seq<u8>, Seq<u8>)>,
    entries: Map<Slot, Seq<u8>>,
)
    requires
        is_scan(records, entries, catalog_tree()),
        catalog_keyed(entries),
    ensures
        names_distinct(records),
{
    lemma_scan_shows_keyed(records, entries);
    assert forall|i: int, j: int|
        0 <= i < j < records.len() && crate::definition::decoded((#[trigger] records[i]).1) is Some
            && crate::definition::decoded(
            (#[trigger] records[j]).1,
        ) is Some implies crate::definition::decoded(records[i].1)->Some_0.name
        != crate::definition::decoded(records[j].1)->Some_0.name by {
        assert(record_keyed(records[i].0, records[i].1));
        assert(record_keyed(records[j].0, records[j].1));
        assert(bytes_before(records[i].0, records[j].0));
        lemma_bytes_before_irreflexive(records[i].0);
    }
}

/// Where no two records hold definitions of one name, the first `upto`
/// records open exactly the tables that they define, each as its own
/// record says.
proof fn lemma_loaded_prefix(records: Seq<(Seq<u8>, Seq<u8>)>, upto: int)
    requires
        names_distinct(records),
        0 <= upto <= records.len(),
    ensures
        forall|j: int|
            0 <= j < upto && crate::definition::decoded((#[trigger] records[j]).1) is Some ==> {
                let d = crate::definition::decoded(records[j].1)->Some_0;
                &&& loaded_tables(records.take(upto)).contains_key(d.name)
                &&& loaded_tables(records.take(upto))[d.name] == fresh_table(
                    d.name,
                    d.sequence_step,
                )
            },
        forall|n: Seq<char>| #[trigger]
            loaded_tables(records.take(upto)).contains_key(n) ==> exists|j: int|
                0 <= j < upto && crate::definition::decoded((#[trigger] records[j]).1) is Some
                    && crate::definition::decoded(records[j].1)->Some_0.name == n,
    decreases upto,
{
    let now = records.take(upto);
    if upto > 0 {
        lemma_loaded_prefix(records, upto - 1);
        let earlier = records.take(upto - 1);
        let last = records[upto - 1];
        assert(now.drop_last() =~= earlier);
        assert(now.last() == last);
        match crate::definition::decoded(last.1) {
            Some(d) => {
                assert(loaded_tables(now) == loaded_tables(earlier).insert(
                    d.name,
                    fresh_table(d.name, d.sequence_step),
                ));
                assert forall|n: Seq<char>| #[trigger]
                    loaded_tables(now).contains_key(n) implies exists|j: int|
                    0 <= j < upto && crate::definition::decoded((#[trigger] records[j]).1) is Some
                        && crate::definition::decoded(records[j].1)->Some_0.name == n by {
                    if n == d.name {
                        assert(crate::definition::decoded(records[upto - 1].1) is Some);
                    } else {
                        assert(loaded_tables(earlier).contains_key(n));
                    }
                }
            },
            None => {
                assert(loaded_tables(now) == loaded_tables(earlier));
            },
        }
    } else {
        assert(now =~= Seq::empty());
    }
}

/// Where no two records hold definitions of one name, the tables that the
/// records open are exactly the tables that they define: each is opened
/// under the name of its definition, with the partition named after it,
/// and with a sequence exactly where the step of its definition is not
/// zero.
pub proof fn lemma_distinct_names_load(records: Seq<(Seq<u8>, Seq<u8>)>)
    requires
        names_distinct(records),
    ensures
        forall|j: int|
            0 <= j < records.len() && crate::definition::decoded((#[trigger] records[j]).1) is Some
                ==> {
                let d = crate::definition::decoded(records[j].1)->Some_0;
                &&& loaded_tables(records).contains_key(d.name)
                &&& loaded_tables(records)[d.name] == fresh_table(d.name, d.sequence_step)
                &&& loaded_tables(records)[d.name].partition == partition_name(d.name)
                &&& loaded_tables(records)[d.name].sequence is Some <==> d.sequence_step != 0
            },
        forall|n: Seq<char>| #[trigger]
            loaded_tables(records).contains_key(n) ==> exists|j: int|
                0 <= j < records.len() && crate::definition::decoded((#[trigger] records[j]).1) is Some
                    && crate::definition::decoded(records[j].1)->Some_0.name == n,
{
    lemma_loaded_prefix(records, records.len() as int);
    assert(records.take(records.len() as int) =~= records);
}

/// Of a catalog that is filed by name, a scan opens exactly the tables
/// that the catalog defines, each as its definition says.
pub proof fn lemma_catalog_reloads(records: Seq<(Seq<u8>, Seq<u8>)>, entries: Map<Slot, Seq<u8>>)
    requires
        is_scan(records, entries, catalog_tree()),
        catalog_keyed(entries),
    ensures
        forall|n: Seq<char>| #[trigger]
            loaded_tables(records).contains_key(n) <==> catalogued(entries, n) is Some,
        forall|n: Seq<char>| #[trigger]
            loaded_tables(records).contains_key(n) ==> loaded_tables(records)[n] == fresh_table(
                n,
                catalogued(entries, n)->Some_0.sequence_step,
            ),
{
    lemma_keyed_names_distinct(records, entries);
    lemma_scan_shows_keyed(records, entries);
    lemma_distinct_names_load(records);
    assert forall|n: Seq<char>| #[trigger] loaded_tables(records).contains_key(n) implies catalogued(
        entries,
        n,
    ) is Some && loaded_tables(records)[n] == fresh_table(
        n,
        catalogued(entries, n)->Some_0.sequence_step,
    ) by {
        let j = choose|j: int|
            0 <= j < records.len() && crate::definition::decoded((#[trigger] records[j]).1) is Some
                && crate::definition::decoded(records[j].1)->Some_0.name == n;
        assert(record_keyed(records[j].0, records[j].1));
        assert(entry_at(entries, (catalog_tree(), records[j].0)) == Some(records[j].1));
    }
    assert forall|n: Seq<char>| catalogued(entries, n) is Some implies #[trigger] loaded_tables(
        records,
    ).contains_key(n) by {
        assert(entries.contains_key((catalog_tree(), encode_utf8(n))));
        let j = choose|j: int| 0 <= j < records.len() && (#[trigger] records[j]).0 == encode_utf8(n);
        assert(entry_at(entries, (catalog_tree(), records[j].0)) == Some(records[j].1));
    }
}

/// What reading the value of `key` in table `name` gives: nothing where
/// the table is not open, else what the key holds.
pub open spec fn get_outcome(
    pre: RegistryView,
    name: Seq<char>,
    key: Seq<u8>,
    r: Result<Option<Vec<u8>>, TableError>,
) -> bool {
    match r {
        Ok(found) => opt_bytes(found) == if pre.tables.contains_key(name) {
            entry_at(pre.entries, data_slot(name, key))
        } else {
            None
        },
        Err(TableError::Storage(_)) => pre.tables.contains_key(name),
        Err(_) => false,
    }
}

} // verus!
