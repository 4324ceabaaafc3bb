//! The table registry: the tables that are open, over one database.
//!
//! A table is defined the first time that a command writes to it: its
//! record goes into the catalog first, then the table is kept in memory.

use crate::definition::TableDefinition;
use crate::error::TableError;
use crate::model::{
    catalog_keyed, catalog_tree, catalogued, create_outcome, data_slot, definition_of,
    drop_outcome, fresh_table, get_outcome, insert_outcome, lemma_catalog_kept,
    lemma_catalog_reloads, lemma_define_keeps_keyed, lemma_defined_record_reads_back,
    lemma_name_bytes_injective, lemma_other_tables_kept, lemma_partition_names,
    lemma_same_catalog, lemma_scan_shows_keyed, loaded_tables, next_outcome, record_keyed,
    remove_outcome, sequence_name, set_seq_outcome, RegistryView, TableView,
};
use crate::sequence::{anchor_key, TableSequence};
use crate::wire::same_bytes;
use crate::store::{
    db_entries, entry_at, is_scan, records_view, settled, storage_failure, store_drop, store_get,
    store_insert, store_remove, store_scan,
};
use std::sync::Arc;
use vstd::hash_map::*;
use vstd::prelude::*;
use vstd::string::*;
use vstd::utf8::*;

verus! {

/// An open table.
#[derive(Debug)]
pub struct TableInfo {
    pub name: Arc<String>,
    pub table_db_name: String,
    pub seq: Option<TableSequence>,
}

impl View for TableInfo {
    type V = TableView;

    open spec fn view(&self) -> TableView {
        TableView {
            name: self.name@,
            partition: self.table_db_name@,
            sequence: match self.seq {
                Some(s) => Some(s@),
                None => None,
            },
        }
    }
}

impl TableInfo {
    /// Opens table `name`, with a sequence of step `sequence_step` unless
    /// the step is zero. Nothing is read or written.
    pub fn new(name: Arc<String>, sequence_step: u32) -> (info: TableInfo)
        ensures
            info@ == fresh_table(name@, sequence_step),
    {
        let table_db_name = String::from_str("t_").concat(name.as_str());
        let seq = if sequence_step == 0 {
            None
        } else {
            Some(
                TableSequence::new(
                    String::from_str("seq_").concat(name.as_str()),
                    sequence_step as u64,
                ),
            )
        };
        TableInfo { name, table_db_name, seq }
    }
}

/// The registry of tables over one database.
pub struct TableManage {
    db: sled::Db,
    table_map: StringHashMap<TableInfo>,
}

impl View for TableManage {
    type V = RegistryView;

    closed spec fn view(&self) -> RegistryView {
        RegistryView {
            tables: self.table_map@.map_values(|info: TableInfo| info@),
            entries: db_entries(self.db),
        }
    }
}

impl TableManage {
    /// Opens the registry over `db`: every table that the catalog defines
    /// is opened, with a sequence where its record holds a step other than
    /// zero. Fails where the catalog cannot be read. Of a catalog that is
    /// filed by name, which `catalog_filed_by_name` tells, what is in
    /// memory then agrees with what is durable, and every operation keeps
    /// it so.
    pub fn new(db: sled::Db) -> (r: Result<TableManage, TableError>)
        ensures
            match r {
                Ok(m) => {
                    &&& m@.wf()
                    &&& m@.entries == db_entries(db)
                    &&& exists|records: Seq<(Seq<u8>, Seq<u8>)>|
                        is_scan(records, db_entries(db), catalog_tree()) && m@.tables
                            == #[trigger] loaded_tables(records)
                    &&& catalog_keyed(db_entries(db)) ==> m@.durable()
                },
                Err(e) => e is Storage,
            },
    {
        let mut s = TableManage { db, table_map: StringHashMap::new() };
        assert(s@.tables =~= Map::empty());
        match s.load_tables() {
            Ok(_) => Ok(s),
            Err(e) => Err(e),
        }
    }

    /// Gives up the registry and hands the database back, as it is.
    pub fn into_db(self) -> (db: sled::Db)
        ensures
            db_entries(db) == self@.entries,
    {
        self.db
    }

    /// Tells whether the catalog is filed by name: whether every record of
    /// it that holds a definition stands under the name that the
    /// definition gives. A catalog that only this registry wrote is; of
    /// such a catalog the registry keeps what is in memory in agreement
    /// with what is durable.
    pub fn catalog_filed_by_name(&self) -> (r: Result<bool, TableError>)
        ensures
            match r {
                Ok(filed) => filed == catalog_keyed(self@.entries),
                Err(e) => e is Storage,
            },
    {
        let records = match store_scan(&self.db, "tables") {
            Ok(records) => records,
            Err(e) => {
                return Err(storage_failure(&e));
            },
        };
        let ghost listed = records_view(records);
        let mut i: usize = 0;
        while i < records.len()
            invariant
                i <= records.len(),
                listed == records_view(records),
                is_scan(listed, self@.entries, catalog_tree()),
                forall|j: int| 0 <= j < i ==> record_keyed((#[trigger] listed[j]).0, listed[j].1),
            decreases records.len() - i,
        {
            match TableDefinition::from_bytes(records[i].1.as_slice()) {
                Ok(definition) => {
                    let filed = same_bytes(
                        records[i].0.as_slice(),
                        definition.name.as_str().as_bytes(),
                    );
                    if !filed {
                        proof {
                            assert(!record_keyed(listed[i as int].0, listed[i as int].1));
                            lemma_scan_shows_keyed(listed, self@.entries);
                        }
                        return Ok(false);
                    }
                },
                Err(_) => {},
            }
            assert(record_keyed(listed[i as int].0, listed[i as int].1));
            i = i + 1;
        }
        proof {
            lemma_scan_shows_keyed(listed, self@.entries);
        }
        Ok(true)
    }

    /// Opens every table that the catalog defines.
    fn load_tables(&mut self) -> (r: Result<(), TableError>)
        requires
            old(self)@.tables == Map::<Seq<char>, TableView>::empty(),
        ensures
            final(self)@.entries == old(self)@.entries,
            match r {
                Ok(_) => {
                    &&& final(self)@.wf()
                    &&& exists|records: Seq<(Seq<u8>, Seq<u8>)>|
                        is_scan(records, old(self)@.entries, catalog_tree()) && final(self)@.tables
                            == #[trigger] loaded_tables(records)
                    &&& catalog_keyed(old(self)@.entries) ==> final(self)@.durable()
                },
                Err(e) => e is Storage,
            },
    {
        let records = match store_scan(&self.db, "tables") {
            Ok(records) => records,
            Err(e) => {
                return Err(storage_failure(&e));
            },
        };
        let ghost listed = records_view(records);
        let mut i: usize = 0;
        assert(listed.take(0) =~= Seq::empty());
        while i < records.len()
            invariant
                i <= records.len(),
                listed == records_view(records),
                self@.entries == old(self)@.entries,
                self@.tables == loaded_tables(listed.take(i as int)),
                self@.wf(),
            decreases records.len() - i,
        {
            let ghost before = self@;
            proof {
                assert(listed.take(i + 1).drop_last() =~= listed.take(i as int));
                assert(listed.take(i + 1).last() == listed[i as int]);
            }
            match TableDefinition::from_bytes(records[i].1.as_slice()) {
                Ok(definition) => {
                    let name = Arc::new(definition.name.clone());
                    let info = TableInfo::new(name, definition.sequence_step);
                    self.table_map.insert(definition.name, info);
                    proof {
                        let n = definition@.name;
                        assert(self@.tables =~= before.tables.insert(
                            n,
                            fresh_table(n, definition@.sequence_step),
                        ));
                        assert forall|m: Seq<char>| #[trigger]
                            self@.tables.contains_key(m) implies self@.table_ok(m) by {
                            if m != n {
                                assert(before.tables.contains_key(m));
                                assert(before.table_ok(m));
                            }
                        }
                    }
                },
                Err(_) => {},
            }
            i = i + 1;
        }
        proof {
            assert(listed.take(i as int) =~= listed);
            if catalog_keyed(self@.entries) {
                lemma_catalog_reloads(listed, self@.entries);
                assert forall|n: Seq<char>| #[trigger]
                    self@.tables.contains_key(n) implies self@.table_durable(n) by {
                    assert(loaded_tables(listed).contains_key(n));
                }
            }
        }
        Ok(())
    }

    /// Reads the value of `key` in table `name`. A table that is not open
    /// is not opened and holds nothing.
    pub fn get(&self, name: &str, key: &[u8]) -> (r: Result<Option<Vec<u8>>, TableError>)
        requires
            self@.wf(),
        ensures
            get_outcome(self@, name@, key@, r),
    {
        match self.table_map.get(name) {
            None => Ok(None),
            Some(info) => {
                assert(self@.tables.contains_key(name@));
                assert(self@.table_ok(name@));
                settled(store_get(&self.db, info.table_db_name.as_str(), key))
            },
        }
    }

    /// Writes the record of table `name` into the catalog.
    fn init_table(&mut self, name: &Arc<String>, sequence_step: u32) -> (r: Result<(), TableError>)
        ensures
            final(self)@.tables == old(self)@.tables,
            encode_utf8(name@).len() <= usize::MAX,
            match r {
                Ok(_) => final(self)@.entries == old(self)@.with_table(name@, sequence_step).entries,
                Err(TableError::Storage(_)) => {
                    ||| final(self)@.entries == old(self)@.entries
                    ||| final(self)@.entries == old(self)@.with_table(name@, sequence_step).entries
                },
                Err(_) => false,
            },
    {
        let definition = TableDefinition { name: (**name).clone(), sequence_step };
        let record = definition.to_bytes();
        assert(definition@ == definition_of(name@, sequence_step));
        let key = name.as_str().as_bytes();
        let size: usize = key.len();
        assert(size == key@.len());
        match store_insert(&mut self.db, "tables", key, record.as_slice()) {
            Ok(_) => Ok(()),
            Err(e) => Err(storage_failure(&e)),
        }
    }

    /// Makes sure that table `name` is open. A table that is not open is
    /// defined in the catalog first, with a sequence of step
    /// `default_sequence_step` unless the step is zero, and then opened.
    pub fn get_or_create(&mut self, name: Arc<String>, default_sequence_step: u32) -> (r: Result<
        (),
        TableError,
    >)
        requires
            old(self)@.wf(),
        ensures
            final(self)@.wf(),
            create_outcome(old(self)@, name@, default_sequence_step, r, final(self)@),
            old(self)@.durable() ==> final(self)@.durable(),
            r is Ok && !old(self)@.tables.contains_key(name@) ==> catalogued(
                final(self)@.entries,
                name@,
            ) == Some(definition_of(name@, default_sequence_step)),
    {
        if self.table_map.contains_key(name.as_str()) {
            return Ok(());
        }
        let ghost pre = self@;
        match self.init_table(&name, default_sequence_step) {
            Ok(_) => {},
            Err(e) => {
                proof {
                    lemma_define_keeps_order(pre, self@, name@, default_sequence_step);
                    if pre.durable() {
                        lemma_define_keeps_durable(pre, self@, name@, default_sequence_step);
                    }
                }
                return Err(e);
            },
        }
        let key = (*name).clone();
        let info = TableInfo::new(name, default_sequence_step);
        self.table_map.insert(key, info);
        proof {
            assert(self@.tables =~= pre.tables.insert(name@, fresh_table(name@, default_sequence_step)));
            lemma_define_keeps_order(pre, self@, name@, default_sequence_step);
            lemma_defined_record_reads_back(pre.entries, name@, default_sequence_step);
            if pre.durable() {
                lemma_define_keeps_durable(pre, self@, name@, default_sequence_step);
            }
        }
        Ok(())
    }

    /// The open table `name`, if there is one.
    pub fn table(&self, name: &str) -> (r: Option<&TableInfo>)
        ensures
            match r {
                Some(info) => self@.tables.contains_key(name@) && info@ == self@.tables[name@],
                None => !self@.tables.contains_key(name@),
            },
    {
        self.table_map.get(name)
    }

    /// Puts `seq` in the place of the sequence of the open table `name`.
    fn store_sequence(&mut self, name: &Arc<String>, seq: TableSequence)
        requires
            old(self)@.tables.contains_key(name@),
        ensures
            final(self)@.entries == old(self)@.entries,
            final(self)@.tables == old(self)@.tables.insert(
                name@,
                old(self)@.tables[name@].with_sequence(seq@),
            ),
    {
        let info = match self.table_map.get(name.as_str()) {
            Some(info) => TableInfo {
                name: info.name.clone(),
                table_db_name: info.table_db_name.clone(),
                seq: Some(seq),
            },
            None => TableInfo::new(name.clone(), 0),
        };
        self.table_map.insert((**name).clone(), info);
        assert(self@.tables =~= old(self)@.tables.insert(
            name@,
            old(self)@.tables[name@].with_sequence(seq@),
        ));
    }

    /// Forces the anchor of the sequence of table `name` to `last_seq_id`,
    /// so that the next id of the table is the one behind it. Does nothing
    /// where the table is not open or has no sequence.
    pub fn set_last_seq_id(&mut self, name: Arc<String>, last_seq_id: u64) -> (r: Result<
        (),
        TableError,
    >)
        requires
            old(self)@.wf(),
        ensures
            final(self)@.wf(),
            set_seq_outcome(old(self)@, name@, last_seq_id, r, final(self)@),
            old(self)@.durable() ==> final(self)@.durable(),
    {
        let ghost pre = self@;
        let mut seq = match self.table_map.get(name.as_str()) {
            None => {
                return Ok(());
            },
            Some(info) => match &info.seq {
                None => {
                    return Ok(());
                },
                Some(s) => s.clone(),
            },
        };
        assert(pre.table_ok(name@));
        let r = seq.set_table_last_id(&mut self.db, last_seq_id);
        self.store_sequence(&name, seq);
        proof {
            lemma_forced_keeps_order(pre, self@, name@, last_seq_id);
            lemma_partition_names(name@, name@);
            lemma_same_catalog(pre, self@, name@);
            if pre.durable() {
                lemma_catalog_kept(pre, self@);
            }
        }
        r
    }

    /// Stores `value` under `key` in table `name` and returns the value
    /// that the key held before. A table that is not open is defined
    /// without a sequence and opened. Where `last_seq_id` is given and the
    /// table has a sequence, the anchor is first forced to that id.
    pub fn insert(
        &mut self,
        name: Arc<String>,
        key: &[u8],
        value: Vec<u8>,
        last_seq_id: Option<u64>,
    ) -> (r: Result<Option<Vec<u8>>, TableError>)
        requires
            old(self)@.wf(),
        ensures
            final(self)@.wf(),
            insert_outcome(old(self)@, name@, key@, value@, last_seq_id, r, final(self)@),
            old(self)@.durable() ==> final(self)@.durable(),
    {
        let ghost pre = self@;
        let again = name.clone();
        proof {
            lemma_partition_names(again@, again@);
        }
        match self.get_or_create(name, 0) {
            Ok(_) => {},
            Err(e) => {
                assert(pre.only_table_changed(self@, again@));
                return Err(e);
            },
        }
        let ghost opened = self@;
        assert(pre.only_table_changed(opened, again@));
        let partition = match self.table_map.get(again.as_str()) {
            Some(info) => info.table_db_name.clone(),
            None => String::new(),
        };
        assert(opened.table_ok(again@));
        match last_seq_id {
            Some(id) => {
                let forced = again.clone();
                match self.set_last_seq_id(forced, id) {
                    Ok(_) => {},
                    Err(e) => {
                        assert(pre.only_table_changed(self@, again@));
                        return Err(e);
                    },
                }
            },
            None => {},
        }
        let ghost forwarded = self@;
        assert(pre.only_table_changed(forwarded, again@));
        assert(forwarded.table_ok(again@));
        let stored = store_insert(&mut self.db, partition.as_str(), key, value.as_slice());
        proof {
            lemma_partition_names(again@, again@);
            assert(pre.only_table_changed(self@, again@));
            lemma_other_tables_kept(pre, self@, again@);
            lemma_table_kept(forwarded, self@, again@);
            assert(entry_at(forwarded.entries, data_slot(again@, key@)) == entry_at(
                pre.entries,
                data_slot(again@, key@),
            ));
            assert(forwarded.only_table_changed(self@, again@));
            lemma_same_catalog(forwarded, self@, again@);
            if forwarded.durable() {
                lemma_catalog_kept(forwarded, self@);
            }
        }
        settled(stored)
    }

    /// Removes `key` from table `name` and returns the value that it held.
    /// A table that is not open is not opened: nothing is removed and
    /// nothing is written.
    pub fn remove(&mut self, name: Arc<String>, key: &[u8]) -> (r: Result<
        Option<Vec<u8>>,
        TableError,
    >)
        requires
            old(self)@.wf(),
        ensures
            final(self)@.wf(),
            remove_outcome(old(self)@, name@, key@, r, final(self)@),
            old(self)@.durable() ==> final(self)@.durable(),
    {
        let ghost pre = self@;
        let partition = match self.table_map.get(name.as_str()) {
            Some(info) => info.table_db_name.clone(),
            None => {
                return Ok(None);
            },
        };
        assert(pre.tables.contains_key(name@));
        assert(pre.table_ok(name@));
        let removed = store_remove(&mut self.db, partition.as_str(), key);
        proof {
            lemma_partition_names(name@, name@);
            assert(pre.only_table_changed(self@, name@));
            lemma_other_tables_kept(pre, self@, name@);
            lemma_table_kept(pre, self@, name@);
            lemma_same_catalog(pre, self@, name@);
            if pre.durable() {
                lemma_catalog_kept(pre, self@);
            }
        }
        settled(removed)
    }

    /// Hands out the next id of table `name`. A table that is not open is
    /// defined with a sequence of step `seq_step` and opened. Fails where
    /// the table has no sequence.
    pub fn next_id(&mut self, name: Arc<String>, seq_step: u32) -> (r: Result<u64, TableError>)
        requires
            old(self)@.wf(),
        ensures
            final(self)@.wf(),
            next_outcome(old(self)@, name@, seq_step, r, final(self)@),
            old(self)@.durable() ==> final(self)@.durable(),
    {
        let ghost pre = self@;
        let again = name.clone();
        match self.get_or_create(name, seq_step) {
            Ok(_) => {},
            Err(e) => {
                assert(pre.only_table_changed(self@, again@));
                return Err(e);
            },
        }
        let ghost opened = self@;
        assert(pre.only_table_changed(opened, again@));
        assert(opened.table_ok(again@));
        let mut seq = match self.table_map.get(again.as_str()) {
            Some(info) => match &info.seq {
                Some(s) => s.clone(),
                None => {
                    return Err(TableError::SequenceDisabled { table: (*again).clone() });
                },
            },
            None => {
                return Err(TableError::SequenceDisabled { table: (*again).clone() });
            },
        };
        let ghost asked = seq@;
        let r = seq.next_id(&mut self.db);
        self.store_sequence(&again, seq);
        proof {
            lemma_partition_names(again@, again@);
            if asked.floor(opened.entries) is Some && asked.floor(opened.entries)->Some_0
                + asked.step <= u64::MAX {
                crate::sequence::lemma_anchor_written(
                    opened.entries,
                    asked.tree,
                    (asked.floor(opened.entries)->Some_0 + asked.step) as u64,
                );
            }
            assert(opened.only_table_changed(self@, again@));
            lemma_other_tables_kept(opened, self@, again@);
            assert(pre.only_table_changed(self@, again@));
            lemma_same_catalog(opened, self@, again@);
            if opened.durable() {
                lemma_catalog_kept(opened, self@);
            }
        }
        r
    }

    /// Drops table `name`: closes it, sets the anchor of its sequence back
    /// to zero, and drops its partition with all that it holds. A failure
    /// to set the anchor back is passed over; a failure to drop the
    /// partition is reported. The table's record stays in the catalog.
    /// Does nothing where the table is not open.
    pub fn drop_table(&mut self, name: &Arc<String>) -> (r: Result<(), TableError>)
        requires
            old(self)@.wf(),
        ensures
            final(self)@.wf(),
            drop_outcome(old(self)@, name@, r, final(self)@),
            old(self)@.durable() ==> final(self)@.durable(),
    {
        let ghost pre = self@;
        let (partition, seq) = match self.table_map.get(name.as_str()) {
            None => {
                return Ok(());
            },
            Some(info) => (
                info.table_db_name.clone(),
                match &info.seq {
                    Some(s) => Some(s.clone()),
                    None => None,
                },
            ),
        };
        assert(pre.tables.contains_key(name@));
        assert(pre.table_ok(name@));
        self.table_map.remove(name.as_str());
        assert(self@.tables =~= pre.tables.remove(name@));
        match seq {
            Some(s) => {
                let mut s = s;
                let _ = s.set_table_last_id(&mut self.db, 0);
            },
            None => {},
        }
        let ghost reset = self@.entries;
        let dropped = store_drop(&mut self.db, partition.as_str());
        proof {
            lemma_partition_names(name@, name@);
            assert(pre.only_table_changed(self@, name@));
            lemma_other_tables_kept(pre, self@, name@);
            lemma_same_catalog(pre, self@, name@);
            if pre.durable() {
                lemma_catalog_kept(pre, self@);
            }
        }
        match dropped {
            Ok(_) => Ok(()),
            Err(e) => Err(storage_failure(&e)),
        }
    }
}

/// Defining a table that is not open keeps what is in memory in
/// agreement with what is durable, whether the table was then opened or
/// the write failed.
proof fn lemma_define_keeps_durable(pre: RegistryView, post: RegistryView, name: Seq<char>, step: u32)
    requires
        pre.durable(),
        !pre.tables.contains_key(name),
        encode_utf8(name).len() <= u64::MAX,
        post == pre.with_table(name, step) || (post.tables == pre.tables && (post.entries
            == pre.entries || post.entries == pre.with_table(name, step).entries)),
    ensures
        post.durable(),
{
    lemma_define_keeps_keyed(pre.entries, name, step);
    assert forall|n: Seq<char>| #[trigger] post.tables.contains_key(n) implies post.table_durable(
        n,
    ) by {
        if n != name {
            assert(pre.tables.contains_key(n));
            assert(pre.table_durable(n));
            if encode_utf8(n) == encode_utf8(name) {
                lemma_name_bytes_injective(n, name);
            }
        }
    }
}

/// An open table whose own value and anchor are as before is in order as
/// before.
proof fn lemma_table_kept(pre: RegistryView, post: RegistryView, name: Seq<char>)
    requires
        pre.tables.contains_key(name),
        pre.table_ok(name),
        post.tables.contains_key(name),
        post.tables[name] == pre.tables[name],
        entry_at(post.entries, (sequence_name(name), anchor_key())) == entry_at(
            pre.entries,
            (sequence_name(name), anchor_key()),
        ),
    ensures
        post.table_ok(name),
{
}

/// Forcing the anchor of an open table's sequence leaves the registry in
/// order, whether the write reached the database or not.
proof fn lemma_forced_keeps_order(pre: RegistryView, post: RegistryView, name: Seq<char>, value: u64)
    requires
        pre.wf(),
        pre.sequence_of(name) is Some,
        post.tables == pre.with_anchor_forced(name, value).tables,
        post.entries == pre.entries || post.entries == pre.with_anchor_forced(name, value).entries,
    ensures
        post.wf(),
        pre.only_table_changed(post, name),
{
    assert(pre.table_ok(name));
    assert(pre.only_table_changed(post, name));
    lemma_other_tables_kept(pre, post, name);
}

/// Defining a table that is not open, with or without opening it, leaves
/// the registry in order.
proof fn lemma_define_keeps_order(pre: RegistryView, post: RegistryView, name: Seq<char>, step: u32)
    requires
        pre.wf(),
        !pre.tables.contains_key(name),
        post.tables == pre.tables || post.tables == pre.with_table(name, step).tables,
        post.entries == pre.entries || post.entries == pre.with_table(name, step).entries,
    ensures
        post.wf(),
{
    assert(pre.only_table_changed(post, name));
    lemma_other_tables_kept(pre, post, name);
    assert forall|n: Seq<char>| #[trigger] post.tables.contains_key(n) implies post.table_ok(n) by {
        if n == name {
            assert(post.tables[n] == fresh_table(name, step));
        }
    }
}

} // verus!
