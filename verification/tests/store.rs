use table_db::error::TableError;
use table_db::store::{settled, storage_failure};

#[test]
fn value_from_the_database_is_handed_on() {
    assert_eq!(settled::<Option<Vec<u8>>>(Ok(Some(vec![1, 2]))), Ok(Some(vec![1, 2])));
    assert_eq!(settled::<u64>(Ok(7)), Ok(7));
}

#[test]
fn failure_of_the_database_is_a_storage_failure() {
    let failed = settled::<u64>(Err(sled::Error::Unsupported("no such thing".to_string())));
    assert_eq!(failed, Err(TableError::Storage("Unsupported: no such thing".to_string())));
    assert_eq!(failed.unwrap_err().message(), "storage failure: Unsupported: no such thing");
}

#[test]
fn storage_failure_carries_the_text_of_the_database() {
    let bug = sled::Error::ReportableBug("odd".to_string());
    match storage_failure(&bug) {
        TableError::Storage(text) => assert!(text.contains("odd")),
        other => panic!("{:?}", other),
    }
}
