use std::sync::Arc;
use table_db::command::{TableManageAsyncCmd, TableManageCmd, TableManageResult, DEFAULT_SEQ_STEP};
use table_db::table::TableManage;

fn registry() -> TableManage {
    TableManage::new(sled::Config::new().temporary(true).open().unwrap()).unwrap()
}

fn name(text: &str) -> Arc<String> {
    Arc::new(text.to_string())
}

fn set(table: &str, key: &[u8], value: &[u8], last_seq_id: Option<u64>) -> TableManageCmd {
    TableManageCmd::SetValue {
        table_name: name(table),
        key: key.to_vec(),
        value: value.to_vec(),
        last_seq_id,
    }
}

fn next_id(table: &str, seq_step: Option<u32>) -> TableManageCmd {
    TableManageCmd::NextId { table_name: name(table), seq_step }
}

#[test]
fn set_gives_the_value_before() {
    let mut manage = registry();
    assert_eq!(manage.handle(set("orders", b"k", &[1], None)), Ok(TableManageResult::NoValue));
    assert_eq!(
        manage.handle(set("orders", b"k", &[2], None)),
        Ok(TableManageResult::Value(vec![1]))
    );
    assert_eq!(manage.get("orders", b"k"), Ok(Some(vec![2])));
}

#[test]
fn remove_gives_the_value_before() {
    let mut manage = registry();
    manage.handle(set("orders", b"k", &[1], None)).unwrap();
    let remove = || TableManageCmd::Remove { table_name: name("orders"), key: b"k".to_vec() };
    assert_eq!(manage.handle(remove()), Ok(TableManageResult::Value(vec![1])));
    assert_eq!(manage.handle(remove()), Ok(TableManageResult::NoValue));
}

#[test]
fn drop_gives_nothing() {
    let mut manage = registry();
    manage.handle(set("orders", b"k", &[1], None)).unwrap();
    assert_eq!(manage.handle(TableManageCmd::Drop(name("orders"))), Ok(TableManageResult::NoValue));
    assert_eq!(manage.handle(TableManageCmd::Drop(name("orders"))), Ok(TableManageResult::NoValue));
    assert_eq!(manage.handle(TableManageCmd::Drop(name("ghost"))), Ok(TableManageResult::NoValue));
    assert_eq!(manage.get("orders", b"k"), Ok(None));
}

#[test]
fn next_id_command_example_of_orders() {
    let mut manage = registry();
    assert_eq!(manage.handle(next_id("orders", Some(10))), Ok(TableManageResult::NextId(1)));
    assert_eq!(manage.handle(next_id("orders", Some(10))), Ok(TableManageResult::NextId(2)));
    assert_eq!(manage.handle(next_id("orders", Some(10))), Ok(TableManageResult::NextId(3)));
    let mut manage = TableManage::new(manage.into_db()).unwrap();
    assert_eq!(manage.handle(next_id("orders", Some(10))), Ok(TableManageResult::NextId(11)));
}

#[test]
fn next_id_command_without_a_step_takes_a_hundred() {
    assert_eq!(DEFAULT_SEQ_STEP, 100);
    let mut manage = registry();
    assert_eq!(manage.handle(next_id("orders", None)), Ok(TableManageResult::NextId(1)));
    assert_eq!(manage.table("orders").unwrap().seq.as_ref().unwrap().step(), 100);
    let mut manage = TableManage::new(manage.into_db()).unwrap();
    assert_eq!(manage.handle(next_id("orders", None)), Ok(TableManageResult::NextId(101)));
}

#[test]
fn next_id_command_on_a_table_without_sequence_gives_nothing() {
    let mut manage = registry();
    manage.handle(set("plain", b"k", &[1], None)).unwrap();
    assert_eq!(manage.handle(next_id("plain", Some(10))), Ok(TableManageResult::NoValue));
    assert_eq!(manage.handle(next_id("plain", None)), Ok(TableManageResult::NoValue));
}

#[test]
fn set_seq_id_command_forces_the_anchor() {
    let mut manage = registry();
    manage.handle(next_id("orders", Some(10))).unwrap();
    let force = TableManageCmd::SetSeqId { table_name: name("orders"), last_seq_id: 77 };
    assert_eq!(manage.handle(force), Ok(TableManageResult::NoValue));
    assert_eq!(manage.handle(next_id("orders", Some(10))), Ok(TableManageResult::NextId(78)));
    let stray = TableManageCmd::SetSeqId { table_name: name("ghost"), last_seq_id: 5 };
    assert_eq!(manage.handle(stray), Ok(TableManageResult::NoValue));
    assert!(manage.table("ghost").is_none());
}

#[test]
fn set_command_with_an_id_forces_the_anchor() {
    let mut manage = registry();
    manage.handle(next_id("orders", Some(10))).unwrap();
    manage.handle(set("orders", b"k", &[1], Some(30))).unwrap();
    assert_eq!(manage.handle(next_id("orders", Some(10))), Ok(TableManageResult::NextId(31)));
}

#[test]
fn ids_and_values_of_mixed_commands() {
    let mut manage = registry();
    let mut ids = Vec::new();
    for round in 0..200u32 {
        let table = if round % 3 == 1 { "users" } else { "orders" };
        match manage.handle(next_id(table, Some(7))).unwrap() {
            TableManageResult::NextId(id) => {
                if table == "orders" {
                    ids.push(id);
                }
            }
            other => panic!("{:?}", other),
        }
        let value = round.to_le_bytes();
        let before = manage.handle(set("orders", b"shared", &value, None)).unwrap();
        if round == 0 {
            assert_eq!(before, TableManageResult::NoValue);
        } else {
            assert_eq!(before, TableManageResult::Value((round - 1).to_le_bytes().to_vec()));
        }
    }
    let mut sorted = ids.clone();
    sorted.sort();
    sorted.dedup();
    assert_eq!(sorted, ids);
    assert_eq!(manage.get("orders", b"shared"), Ok(Some(199u32.to_le_bytes().to_vec())));
}

#[test]
fn commands_that_are_not_waited_for() {
    let mut manage = registry();
    let insert = |value: u8| TableManageAsyncCmd::Insert {
        table_name: name("orders"),
        key: b"k".to_vec(),
        value: vec![value],
    };
    assert_eq!(manage.handle_async(insert(1)), Ok(TableManageResult::NoValue));
    assert_eq!(manage.handle_async(insert(2)), Ok(TableManageResult::Value(vec![1])));
    let remove = TableManageAsyncCmd::Remove { table_name: name("orders"), key: b"k".to_vec() };
    assert_eq!(manage.handle_async(remove), Ok(TableManageResult::Value(vec![2])));
    manage.handle_async(insert(3)).unwrap();
    assert_eq!(
        manage.handle_async(TableManageAsyncCmd::Drop(name("orders"))),
        Ok(TableManageResult::NoValue)
    );
    assert_eq!(manage.get("orders", b"k"), Ok(None));
}

#[test]
fn next_id_command_on_a_table_without_sequence_changes_nothing() {
    let mut manage = registry();
    manage.handle(set("plain", b"k", &[1], None)).unwrap();
    assert_eq!(manage.handle(next_id("plain", Some(5))), Ok(TableManageResult::NoValue));
    assert!(manage.table("plain").unwrap().seq.is_none());
    assert_eq!(manage.get("plain", b"k"), Ok(Some(vec![1])));
    assert_eq!(manage.handle(set("plain", b"k", &[2], None)), Ok(TableManageResult::Value(vec![1])));
    let db = manage.into_db();
    assert_eq!(db.open_tree("tables").unwrap().len(), 1);
    assert_eq!(db.open_tree("seq_plain").unwrap().len(), 0);
}

#[test]
fn value_under_a_key_is_the_last_one_stored() {
    let mut manage = registry();
    manage.handle(next_id("orders", Some(3))).unwrap();
    let mut last: Option<Vec<u8>> = None;
    for round in 0..60u8 {
        if round % 4 == 3 {
            let value = vec![round; usize::from(round) + 1];
            let before = manage.handle(set("orders", b"k", &value, None)).unwrap();
            match &last {
                Some(v) => assert_eq!(before, TableManageResult::Value(v.clone())),
                None => assert_eq!(before, TableManageResult::NoValue),
            }
            last = Some(value);
        } else {
            manage.handle(next_id("orders", Some(3))).unwrap();
        }
        assert_eq!(manage.get("orders", b"k"), Ok(last.clone()));
    }
}
