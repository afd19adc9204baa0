use kvs::names::parse_log_file_name;
use kvs::{Engine, InMemoryStorage, KvStore, LogStructured, StorageError};

#[test]
fn log_file_names() {
    assert_eq!(LogStructured::log_file_name(1700000000123), "00000001700000000123.json");
    assert_eq!(LogStructured::log_file_name(0), "00000000000000000000.json");
    assert_eq!(LogStructured::log_file_name(u64::MAX), "18446744073709551615.json");
    assert_eq!(parse_log_file_name("00000001700000000123.json"), Some(1700000000123));
    assert_eq!(parse_log_file_name("18446744073709551615.json"), Some(u64::MAX));
    assert_eq!(parse_log_file_name("99999999999999999999.json"), None);
    assert_eq!(parse_log_file_name("1700000000123.json"), None);
    assert_eq!(parse_log_file_name("007.json"), None);
    assert_eq!(parse_log_file_name(".json"), None);
    assert_eq!(parse_log_file_name("0000000000000000012a.json"), None);
    assert_eq!(parse_log_file_name("00000000000000000012.txt"), None);
}

#[test]
fn log_file_names_sort_as_ids() {
    assert!(LogStructured::log_file_name(9) < LogStructured::log_file_name(10));
    assert!(LogStructured::log_file_name(999) < LogStructured::log_file_name(1000));
}

#[test]
fn in_memory_store() {
    let mut store = KvStore::new(InMemoryStorage::new()).expect("new");
    store.set("key1".to_string(), "value1".to_string()).unwrap();
    store.set("key1".to_string(), "value2".to_string()).unwrap();
    assert_eq!(store.get("key1").unwrap(), Some("value2".to_string()));
    assert_eq!(store.get("key2").unwrap(), None);
    assert!(store.remove("key1").is_ok());
    assert_eq!(store.get("key1").unwrap(), None);
    assert!(matches!(store.remove("key1"), Err(StorageError::KeyNotFound(_))));
}

#[test]
fn in_memory_open_and_default() {
    let store: KvStore<InMemoryStorage> = KvStore::open("anywhere").expect("open");
    assert_eq!(store.get("k").unwrap(), None);
    let mut engine = InMemoryStorage::default();
    engine.set("a".to_string(), "b".to_string()).unwrap();
    assert_eq!(engine.get("a").unwrap(), Some("b".to_string()));
}
