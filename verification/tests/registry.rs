use std::sync::Arc;
use table_db::definition::TableDefinition;
use table_db::error::TableError;
use table_db::table::{TableInfo, TableManage};

fn scratch_db() -> sled::Db {
    sled::Config::new().temporary(true).open().unwrap()
}

fn registry() -> TableManage {
    TableManage::new(scratch_db()).unwrap()
}

fn name(text: &str) -> Arc<String> {
    Arc::new(text.to_string())
}

fn reopened(manage: TableManage) -> TableManage {
    TableManage::new(manage.into_db()).unwrap()
}

#[test]
fn table_info_names_its_partition() {
    let info = TableInfo::new(name("orders"), 0);
    assert_eq!(info.name.as_str(), "orders");
    assert_eq!(info.table_db_name, "t_orders");
    assert!(info.seq.is_none());
}

#[test]
fn table_info_with_a_step_has_a_sequence() {
    let info = TableInfo::new(name("orders"), 10);
    let seq = info.seq.unwrap();
    assert_eq!(seq.sequence_name(), "seq_orders");
    assert_eq!(seq.step(), 10);
}

#[test]
fn fresh_registry_has_no_tables() {
    let manage = registry();
    assert!(manage.table("orders").is_none());
    assert_eq!(manage.get("orders", b"k"), Ok(None));
}

#[test]
fn table_is_opened_once() {
    let mut manage = registry();
    assert_eq!(manage.get_or_create(name("orders"), 10), Ok(()));
    assert!(manage.table("orders").unwrap().seq.is_some());
    assert_eq!(manage.get_or_create(name("orders"), 0), Ok(()));
    assert!(manage.table("orders").unwrap().seq.is_some());
    assert_eq!(manage.table("orders").unwrap().seq.as_ref().unwrap().step(), 10);
}

#[test]
fn table_is_defined_in_the_catalog_when_opened() {
    let mut manage = registry();
    manage.get_or_create(name("orders"), 10).unwrap();
    let db = manage.into_db();
    let record = db.open_tree("tables").unwrap().get("orders").unwrap().unwrap();
    assert_eq!(
        TableDefinition::from_bytes(record.as_ref()),
        Ok(TableDefinition { name: "orders".to_string(), sequence_step: 10 })
    );
}

#[test]
fn defined_tables_come_back() {
    let mut manage = registry();
    manage.get_or_create(name("with"), 5).unwrap();
    manage.get_or_create(name("without"), 0).unwrap();
    let manage = reopened(manage);
    assert_eq!(manage.table("with").unwrap().seq.as_ref().unwrap().step(), 5);
    assert_eq!(manage.table("with").unwrap().table_db_name, "t_with");
    assert!(manage.table("without").unwrap().seq.is_none());
    assert!(manage.table("other").is_none());
}

#[test]
fn catalog_bytes_that_are_no_record_are_passed_over() {
    let db = scratch_db();
    let catalog = db.open_tree("tables").unwrap();
    catalog.insert("broken", vec![10, 9, 1]).unwrap();
    catalog
        .insert("orders", TableDefinition { name: "orders".to_string(), sequence_step: 3 }.to_bytes())
        .unwrap();
    let manage = TableManage::new(db).unwrap();
    assert!(manage.table("broken").is_none());
    assert_eq!(manage.table("orders").unwrap().seq.as_ref().unwrap().step(), 3);
}

#[test]
fn of_two_records_for_one_name_the_later_key_counts() {
    let db = scratch_db();
    let catalog = db.open_tree("tables").unwrap();
    catalog
        .insert("a", TableDefinition { name: "orders".to_string(), sequence_step: 3 }.to_bytes())
        .unwrap();
    catalog
        .insert("b", TableDefinition { name: "orders".to_string(), sequence_step: 0 }.to_bytes())
        .unwrap();
    let manage = TableManage::new(db).unwrap();
    assert!(manage.table("orders").unwrap().seq.is_none());
    assert!(manage.table("a").is_none());
}

#[test]
fn insert_returns_the_value_before() {
    let mut manage = registry();
    assert_eq!(manage.insert(name("orders"), b"k", vec![1], None), Ok(None));
    assert_eq!(manage.insert(name("orders"), b"k", vec![2, 3], None), Ok(Some(vec![1])));
    assert_eq!(manage.get("orders", b"k"), Ok(Some(vec![2, 3])));
    assert_eq!(manage.get("orders", b"other"), Ok(None));
}

#[test]
fn insert_opens_the_table_without_a_sequence() {
    let mut manage = registry();
    manage.insert(name("orders"), b"k", vec![1], Some(40)).unwrap();
    assert!(manage.table("orders").unwrap().seq.is_none());
    let manage = reopened(manage);
    assert!(manage.table("orders").unwrap().seq.is_none());
    assert_eq!(manage.get("orders", b"k"), Ok(Some(vec![1])));
}

#[test]
fn insert_writes_to_the_partition_of_the_table() {
    let mut manage = registry();
    manage.insert(name("orders"), b"k", vec![1], None).unwrap();
    manage.insert(name("users"), b"k", vec![2], None).unwrap();
    assert_eq!(manage.get("orders", b"k"), Ok(Some(vec![1])));
    assert_eq!(manage.get("users", b"k"), Ok(Some(vec![2])));
    let db = manage.into_db();
    assert_eq!(db.open_tree("t_orders").unwrap().get("k").unwrap().unwrap().as_ref(), &[1]);
    assert_eq!(db.open_tree("t_users").unwrap().get("k").unwrap().unwrap().as_ref(), &[2]);
}

#[test]
fn values_are_plain_bytes() {
    let mut manage = registry();
    let big = vec![0xabu8; 100_000];
    assert_eq!(manage.insert(name("blobs"), &[], vec![], None), Ok(None));
    assert_eq!(manage.insert(name("blobs"), &[], big.clone(), None), Ok(Some(vec![])));
    assert_eq!(manage.get("blobs", &[]), Ok(Some(big)));
}

#[test]
fn remove_returns_the_value_before() {
    let mut manage = registry();
    manage.insert(name("orders"), b"k", vec![1], None).unwrap();
    assert_eq!(manage.remove(name("orders"), b"k"), Ok(Some(vec![1])));
    assert_eq!(manage.remove(name("orders"), b"k"), Ok(None));
    assert_eq!(manage.get("orders", b"k"), Ok(None));
}

#[test]
fn remove_opens_no_table() {
    let mut manage = registry();
    assert_eq!(manage.remove(name("ghost"), b"k"), Ok(None));
    assert!(manage.table("ghost").is_none());
    let db = manage.into_db();
    assert_eq!(db.open_tree("tables").unwrap().get("ghost").unwrap(), None);
    assert!(TableManage::new(db).unwrap().table("ghost").is_none());
}

#[test]
fn remove_leaves_what_is_in_a_partition_that_is_not_open() {
    let db = scratch_db();
    db.open_tree("t_ghost").unwrap().insert("k", vec![7]).unwrap();
    let mut manage = TableManage::new(db).unwrap();
    assert_eq!(manage.remove(name("ghost"), b"k"), Ok(None));
    assert_eq!(manage.get("ghost", b"k"), Ok(None));
    let db = manage.into_db();
    assert_eq!(db.open_tree("t_ghost").unwrap().get("k").unwrap().unwrap().as_ref(), &[7]);
}

#[test]
fn next_id_example_of_orders() {
    let mut manage = registry();
    assert_eq!(manage.next_id(name("orders"), 10), Ok(1));
    assert_eq!(manage.next_id(name("orders"), 10), Ok(2));
    assert_eq!(manage.next_id(name("orders"), 10), Ok(3));
    let mut manage = reopened(manage);
    let id = manage.next_id(name("orders"), 10).unwrap();
    assert!(id >= 11);
    assert_eq!(id, 11);
}

#[test]
fn next_id_opens_the_table_with_the_step_asked_for() {
    let mut manage = registry();
    assert_eq!(manage.next_id(name("orders"), 4), Ok(1));
    assert_eq!(manage.table("orders").unwrap().seq.as_ref().unwrap().step(), 4);
    let manage = reopened(manage);
    assert_eq!(manage.table("orders").unwrap().seq.as_ref().unwrap().step(), 4);
}

#[test]
fn next_id_keeps_the_step_of_an_open_table() {
    let mut manage = registry();
    assert_eq!(manage.next_id(name("orders"), 2), Ok(1));
    assert_eq!(manage.next_id(name("orders"), 50), Ok(2));
    assert_eq!(manage.next_id(name("orders"), 50), Ok(3));
    let mut manage = reopened(manage);
    assert_eq!(manage.next_id(name("orders"), 50), Ok(5));
}

#[test]
fn next_ids_are_apart_and_ascend() {
    let mut manage = registry();
    let mut seen = Vec::new();
    for round in 0..50u8 {
        seen.push(manage.next_id(name("orders"), 7).unwrap());
        manage.insert(name("orders"), &[round], vec![round], None).unwrap();
        manage.next_id(name("users"), 3).unwrap();
    }
    for pair in seen.windows(2) {
        assert!(pair[0] < pair[1]);
    }
    assert_eq!(seen, (1..=50).collect::<Vec<u64>>());
}

#[test]
fn next_id_of_a_table_without_sequence_fails() {
    let mut manage = registry();
    manage.insert(name("plain"), b"k", vec![1], None).unwrap();
    let failure = manage.next_id(name("plain"), 10).unwrap_err();
    assert_eq!(failure, TableError::SequenceDisabled { table: "plain".to_string() });
    assert_eq!(failure.message(), "the table plain seq is none");
    assert_eq!(manage.get("plain", b"k"), Ok(Some(vec![1])));
    assert_eq!(manage.insert(name("plain"), b"k", vec![2], None), Ok(Some(vec![1])));
}

#[test]
fn next_id_with_a_step_of_zero_opens_a_table_without_sequence() {
    let mut manage = registry();
    assert_eq!(
        manage.next_id(name("zero"), 0),
        Err(TableError::SequenceDisabled { table: "zero".to_string() })
    );
    assert!(manage.table("zero").unwrap().seq.is_none());
    assert_eq!(
        manage.next_id(name("zero"), 10),
        Err(TableError::SequenceDisabled { table: "zero".to_string() })
    );
}

#[test]
fn forced_id_is_passed_by_the_next_id() {
    let mut manage = registry();
    assert_eq!(manage.next_id(name("orders"), 10), Ok(1));
    assert_eq!(manage.insert(name("orders"), b"k", vec![1], Some(700)), Ok(None));
    assert_eq!(manage.next_id(name("orders"), 10), Ok(701));
    assert_eq!(manage.insert(name("orders"), b"k", vec![2], Some(900)), Ok(Some(vec![1])));
    let mut manage = reopened(manage);
    assert_eq!(manage.next_id(name("orders"), 10), Ok(901));
}

#[test]
fn set_last_seq_id_forces_the_anchor() {
    let mut manage = registry();
    assert_eq!(manage.next_id(name("orders"), 10), Ok(1));
    assert_eq!(manage.set_last_seq_id(name("orders"), 41), Ok(()));
    assert_eq!(manage.next_id(name("orders"), 10), Ok(42));
    let mut manage = reopened(manage);
    assert_eq!(manage.next_id(name("orders"), 10), Ok(52));
}

#[test]
fn set_last_seq_id_does_nothing_without_a_sequence() {
    let mut manage = registry();
    assert_eq!(manage.set_last_seq_id(name("ghost"), 41), Ok(()));
    assert!(manage.table("ghost").is_none());
    manage.insert(name("plain"), b"k", vec![1], None).unwrap();
    assert_eq!(manage.set_last_seq_id(name("plain"), 41), Ok(()));
    let db = manage.into_db();
    assert_eq!(db.tree_names().iter().filter(|n| n.starts_with(b"seq_")).count(), 0);
    assert_eq!(db.open_tree("tables").unwrap().get("ghost").unwrap(), None);
}

#[test]
fn drop_of_a_table_that_is_not_open_does_nothing() {
    let mut manage = registry();
    assert_eq!(manage.drop_table(&name("ghost")), Ok(()));
    assert!(manage.table("ghost").is_none());
    let db = manage.into_db();
    assert_eq!(db.open_tree("tables").unwrap().len(), 0);
}

#[test]
fn dropped_table_is_gone() {
    let mut manage = registry();
    manage.insert(name("orders"), b"k", vec![1], None).unwrap();
    manage.insert(name("users"), b"k", vec![2], None).unwrap();
    assert_eq!(manage.drop_table(&name("orders")), Ok(()));
    assert!(manage.table("orders").is_none());
    assert_eq!(manage.get("orders", b"k"), Ok(None));
    assert_eq!(manage.remove(name("orders"), b"k"), Ok(None));
    assert_eq!(manage.get("users", b"k"), Ok(Some(vec![2])));
    assert_eq!(manage.drop_table(&name("orders")), Ok(()));
    assert!(manage.table("orders").is_none());
    assert_eq!(manage.get("users", b"k"), Ok(Some(vec![2])));
    let db = manage.into_db();
    assert_eq!(db.open_tree("t_orders").unwrap().len(), 0);
}

#[test]
fn drop_sets_the_sequence_back() {
    let mut manage = registry();
    assert_eq!(manage.next_id(name("orders"), 10), Ok(1));
    assert_eq!(manage.next_id(name("orders"), 10), Ok(2));
    assert_eq!(manage.drop_table(&name("orders")), Ok(()));
    assert_eq!(manage.next_id(name("orders"), 10), Ok(1));
}

#[test]
fn dropped_table_keeps_its_record_in_the_catalog() {
    let mut manage = registry();
    manage.next_id(name("orders"), 10).unwrap();
    manage.insert(name("orders"), b"k", vec![1], None).unwrap();
    manage.drop_table(&name("orders")).unwrap();
    let manage = reopened(manage);
    assert!(manage.table("orders").unwrap().seq.is_some());
    assert_eq!(manage.get("orders", b"k"), Ok(None));
}

#[test]
fn table_written_after_a_drop_is_defined_anew() {
    let mut manage = registry();
    manage.next_id(name("orders"), 10).unwrap();
    manage.drop_table(&name("orders")).unwrap();
    manage.insert(name("orders"), b"k", vec![1], None).unwrap();
    assert!(manage.table("orders").unwrap().seq.is_none());
    let manage = reopened(manage);
    assert!(manage.table("orders").unwrap().seq.is_none());
}

#[test]
fn names_may_be_any_text() {
    let mut manage = registry();
    for text in ["", "ables", "t_", "seq_x", "naïve ключ 表", "a/b c"] {
        assert_eq!(manage.insert(name(text), b"k", text.as_bytes().to_vec(), None), Ok(None));
        assert_eq!(manage.next_id(name(&format!("{}#", text)), 2), Ok(1));
    }
    let manage = reopened(manage);
    for text in ["", "ables", "t_", "seq_x", "naïve ключ 表", "a/b c"] {
        assert_eq!(manage.get(text, b"k"), Ok(Some(text.as_bytes().to_vec())));
        assert!(manage.table(text).unwrap().seq.is_none());
        assert!(manage.table(&format!("{}#", text)).unwrap().seq.is_some());
    }
}

#[test]
fn failures_have_a_text() {
    assert_eq!(TableError::SequenceCorrupt.message(), "the sequence anchor is not a 64-bit number");
    assert_eq!(TableError::SequenceExhausted.message(), "the sequence has no ids left");
    assert_eq!(TableError::InvalidDefinition.message(), "the bytes are no table definition");
    assert_eq!(TableError::Storage("disk".to_string()).message(), "storage failure: disk");
}

#[test]
fn corrupt_anchor_is_reported_by_the_table() {
    let db = scratch_db();
    db.open_tree("seq_orders").unwrap().insert("last_id", vec![1]).unwrap();
    let mut manage = TableManage::new(db).unwrap();
    assert_eq!(manage.next_id(name("orders"), 10), Err(TableError::SequenceCorrupt));
    assert!(manage.table("orders").unwrap().seq.is_some());
    assert_eq!(manage.set_last_seq_id(name("orders"), 0), Ok(()));
    assert_eq!(manage.next_id(name("orders"), 10), Ok(1));
}

#[test]
fn exhausted_sequence_is_reported_by_the_table() {
    let mut manage = registry();
    assert_eq!(manage.next_id(name("orders"), 10), Ok(1));
    assert_eq!(manage.set_last_seq_id(name("orders"), u64::MAX), Ok(()));
    assert_eq!(manage.next_id(name("orders"), 10), Err(TableError::SequenceExhausted));
}

#[test]
fn catalog_that_the_registry_wrote_is_filed_by_name() {
    let mut manage = registry();
    assert_eq!(manage.catalog_filed_by_name(), Ok(true));
    manage.next_id(name("orders"), 10).unwrap();
    manage.insert(name("naïve ключ 表"), b"k", vec![1], None).unwrap();
    manage.drop_table(&name("orders")).unwrap();
    assert_eq!(manage.catalog_filed_by_name(), Ok(true));
    assert_eq!(reopened(manage).catalog_filed_by_name(), Ok(true));
}

#[test]
fn catalog_with_a_record_under_another_key_is_not_filed_by_name() {
    let db = scratch_db();
    let catalog = db.open_tree("tables").unwrap();
    catalog
        .insert("orders", TableDefinition { name: "orders".to_string(), sequence_step: 3 }.to_bytes())
        .unwrap();
    catalog.insert("broken", vec![10, 9, 1]).unwrap();
    let manage = TableManage::new(db).unwrap();
    assert_eq!(manage.catalog_filed_by_name(), Ok(true));
    let db = manage.into_db();
    db.open_tree("tables")
        .unwrap()
        .insert("zz", TableDefinition { name: "orders".to_string(), sequence_step: 0 }.to_bytes())
        .unwrap();
    let manage = TableManage::new(db).unwrap();
    assert_eq!(manage.catalog_filed_by_name(), Ok(false));
}

#[test]
fn next_id_of_a_table_without_sequence_changes_nothing() {
    let mut manage = registry();
    manage.insert(name("plain"), b"k", vec![1], None).unwrap();
    for step in [0u32, 1, 10] {
        assert_eq!(
            manage.next_id(name("plain"), step),
            Err(TableError::SequenceDisabled { table: "plain".to_string() })
        );
    }
    assert!(manage.table("plain").unwrap().seq.is_none());
    assert_eq!(manage.get("plain", b"k"), Ok(Some(vec![1])));
    let db = manage.into_db();
    let record = db.open_tree("tables").unwrap().get("plain").unwrap().unwrap();
    assert_eq!(record.as_ref(), &[10, 5, b'p', b'l', b'a', b'i', b'n']);
    assert_eq!(db.open_tree("tables").unwrap().len(), 1);
    assert_eq!(db.open_tree("seq_plain").unwrap().len(), 0);
    assert_eq!(db.open_tree("t_plain").unwrap().len(), 1);
}

#[test]
fn next_id_of_an_open_table_keeps_its_catalog_record() {
    let mut manage = registry();
    assert_eq!(manage.next_id(name("orders"), 4), Ok(1));
    assert_eq!(manage.next_id(name("orders"), 9), Ok(2));
    assert_eq!(manage.next_id(name("orders"), 0), Ok(3));
    let db = manage.into_db();
    let record = db.open_tree("tables").unwrap().get("orders").unwrap().unwrap();
    assert_eq!(
        TableDefinition::from_bytes(record.as_ref()),
        Ok(TableDefinition { name: "orders".to_string(), sequence_step: 4 })
    );
    assert_eq!(db.open_tree("tables").unwrap().len(), 1);
}

#[test]
fn next_id_leaves_the_data_of_the_table() {
    let mut manage = registry();
    manage.next_id(name("orders"), 2).unwrap();
    manage.insert(name("orders"), b"a", vec![1], None).unwrap();
    manage.insert(name("orders"), b"b", vec![2], None).unwrap();
    for _ in 0..5 {
        manage.next_id(name("orders"), 2).unwrap();
    }
    assert_eq!(manage.get("orders", b"a"), Ok(Some(vec![1])));
    assert_eq!(manage.get("orders", b"b"), Ok(Some(vec![2])));
    let db = manage.into_db();
    assert_eq!(db.open_tree("t_orders").unwrap().len(), 2);
}

#[test]
fn dropped_table_holds_nothing_when_written_again() {
    let mut manage = registry();
    manage.insert(name("orders"), b"k", vec![1], None).unwrap();
    manage.insert(name("orders"), b"other", vec![9], None).unwrap();
    assert_eq!(manage.drop_table(&name("orders")), Ok(()));
    assert_eq!(manage.insert(name("orders"), b"k", vec![2], None), Ok(None));
    assert_eq!(manage.get("orders", b"other"), Ok(None));
    assert_eq!(manage.drop_table(&name("orders")), Ok(()));
    assert_eq!(manage.insert(name("orders"), b"k", vec![3], None), Ok(None));
    let mut manage = reopened(manage);
    assert_eq!(manage.drop_table(&name("orders")), Ok(()));
    assert_eq!(manage.insert(name("orders"), b"k", vec![4], None), Ok(None));
}

#[test]
fn drop_of_a_table_whose_partition_was_never_written() {
    let mut manage = registry();
    manage.get_or_create(name("empty"), 0).unwrap();
    assert_eq!(manage.drop_table(&name("empty")), Ok(()));
    assert!(manage.table("empty").is_none());
    manage.next_id(name("ids"), 3).unwrap();
    assert_eq!(manage.drop_table(&name("ids")), Ok(()));
    assert_eq!(manage.next_id(name("ids"), 3), Ok(1));
}

#[test]
fn store_with_an_id_leaves_other_keys() {
    let mut manage = registry();
    manage.next_id(name("orders"), 2).unwrap();
    manage.insert(name("orders"), b"a", vec![1], None).unwrap();
    assert_eq!(manage.insert(name("orders"), b"b", vec![2], Some(50)), Ok(None));
    assert_eq!(manage.get("orders", b"a"), Ok(Some(vec![1])));
    assert_eq!(manage.get("orders", b"b"), Ok(Some(vec![2])));
    assert_eq!(manage.next_id(name("orders"), 2), Ok(51));
}
