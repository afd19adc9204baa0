use std::collections::BTreeMap;

use kvs::codec::{decode, encode, LogEntry};
use kvs::log_structured::{LogFile, COMPACTION_OPS_THRESHOLD};
use kvs::{LogStructured, StorageError};

/// The log directory, by file id.
type Dir = BTreeMap<u64, Vec<u8>>;

fn open(dir: &mut Dir, now: u64) -> LogStructured {
    let files: Vec<LogFile> =
        dir.iter().map(|(id, c)| LogFile { id: *id, contents: c.clone() }).collect();
    LogStructured::open_files(&files, now).expect("open")
}

fn append(dir: &mut Dir, core: &LogStructured, bytes: Vec<u8>) {
    dir.entry(core.active_file()).or_default().extend(bytes);
}

fn compact_if_due(dir: &mut Dir, core: &mut LogStructured, now: u64) {
    if !core.compaction_due() {
        return;
    }
    let records: Vec<Vec<u8>> = core
        .live_records()
        .iter()
        .map(|p| {
            let file = &dir[&p.file];
            file[p.offset as usize..(p.offset + p.length) as usize].to_vec()
        })
        .collect();
    let c = core.compact(now, &records).expect("compact");
    dir.insert(c.file, c.contents);
    for id in c.retired {
        dir.remove(&id);
    }
}

fn set(dir: &mut Dir, core: &mut LogStructured, k: &str, v: &str) {
    let bytes = core.set(k.to_string(), v.to_string()).expect("set");
    append(dir, core, bytes);
    compact_if_due(dir, core, 0);
}

fn remove(dir: &mut Dir, core: &mut LogStructured, k: &str) -> Result<(), StorageError> {
    let bytes = core.remove(k)?;
    append(dir, core, bytes);
    compact_if_due(dir, core, 0);
    Ok(())
}

fn get(dir: &Dir, core: &LogStructured, k: &str) -> Option<String> {
    let p = core.lookup(k)?;
    let file = &dir[&p.file];
    let bytes = &file[p.offset as usize..(p.offset + p.length) as usize];
    core.read_value(k, bytes).expect("read")
}

#[test]
fn two_keys_and_a_missing_one() {
    let mut dir = Dir::new();
    let mut core = open(&mut dir, 100);
    set(&mut dir, &mut core, "key1", "value1");
    set(&mut dir, &mut core, "key2", "value2");
    assert_eq!(get(&dir, &core, "key1"), Some("value1".to_string()));
    assert_eq!(get(&dir, &core, "key2"), Some("value2".to_string()));
    assert_eq!(get(&dir, &core, "key3"), None);
}

#[test]
fn overwrite_then_remove() {
    let mut dir = Dir::new();
    let mut core = open(&mut dir, 100);
    set(&mut dir, &mut core, "k", "a");
    set(&mut dir, &mut core, "k", "b");
    set(&mut dir, &mut core, "k", "c");
    assert_eq!(get(&dir, &core, "k"), Some("c".to_string()));
    assert!(remove(&mut dir, &mut core, "k").is_ok());
    assert_eq!(get(&dir, &core, "k"), None);
    match remove(&mut dir, &mut core, "k") {
        Err(StorageError::KeyNotFound(k)) => assert_eq!(k, "k"),
        other => panic!("expected KeyNotFound, got {:?}", other),
    }
}

#[test]
fn remove_of_a_key_never_set() {
    let mut dir = Dir::new();
    let mut core = open(&mut dir, 100);
    set(&mut dir, &mut core, "a", "1");
    assert!(matches!(remove(&mut dir, &mut core, "b"), Err(StorageError::KeyNotFound(_))));
    assert!(dir[&100].ends_with(b"\n"));
    assert_eq!(dir[&100].len(), b"{\"type\":\"Set\",\"k\":\"a\",\"v\":\"1\"}\n".len());
}

#[test]
fn reopen_keeps_a_value() {
    let mut dir = Dir::new();
    let mut core = open(&mut dir, 100);
    set(&mut dir, &mut core, "k", "v");
    drop(core);
    let core = open(&mut dir, 200);
    assert_eq!(core.active_file(), 200);
    assert_eq!(get(&dir, &core, "k"), Some("v".to_string()));
}

#[test]
fn reopen_after_many_writes_to_one_key() {
    let mut dir = Dir::new();
    let mut core = open(&mut dir, 100);
    let mut last = String::new();
    for i in 0..10_000 {
        last = format!("value{}", i);
        set(&mut dir, &mut core, "key", &last);
    }
    drop(core);
    let core = open(&mut dir, 1);
    assert_eq!(get(&dir, &core, "key"), Some(last.clone()));
    assert!(dir.len() <= 2);
    let one = encode(&LogEntry::Put { key: "key".to_string(), value: last }).len();
    let total: usize = dir.values().map(|c| c.len()).sum();
    assert!(total <= (COMPACTION_OPS_THRESHOLD as usize + 1) * (one + 1));
}

#[test]
fn reopen_after_removing_even_keys() {
    let mut dir = Dir::new();
    let mut core = open(&mut dir, 100);
    for i in 0..1000 {
        set(&mut dir, &mut core, &format!("key{}", i), &format!("value{}", i));
    }
    for i in (0..1000).step_by(2) {
        remove(&mut dir, &mut core, &format!("key{}", i)).expect("remove");
    }
    drop(core);
    let core = open(&mut dir, 5000);
    for i in 0..1000 {
        let got = get(&dir, &core, &format!("key{}", i));
        if i % 2 == 0 {
            assert_eq!(got, None);
        } else {
            assert_eq!(got, Some(format!("value{}", i)));
        }
    }
}

#[test]
fn truncated_tail_is_ignored() {
    let mut dir = Dir::new();
    let mut core = open(&mut dir, 100);
    set(&mut dir, &mut core, "a", "1");
    set(&mut dir, &mut core, "b", "2");
    set(&mut dir, &mut core, "c", "3");
    drop(core);
    let file = dir.get_mut(&100).unwrap();
    let cut = file.len() - 7;
    file.truncate(cut);
    let core = open(&mut dir, 200);
    assert_eq!(get(&dir, &core, "a"), Some("1".to_string()));
    assert_eq!(get(&dir, &core, "b"), Some("2".to_string()));
    assert_eq!(get(&dir, &core, "c"), None);
}

#[test]
fn compaction_keeps_the_mapping_and_one_file() {
    let mut dir = Dir::new();
    let mut core = open(&mut dir, 100);
    for i in 0..(COMPACTION_OPS_THRESHOLD + 1) {
        set(&mut dir, &mut core, &format!("k{}", i % 10), &format!("v{}", i));
    }
    assert_eq!(dir.len(), 1);
    assert_eq!(core.active_file(), 101);
    let mut live: usize = 0;
    for j in 0..10u64 {
        let mut last = None;
        for i in 0..(COMPACTION_OPS_THRESHOLD + 1) {
            if i % 10 == j {
                last = Some(format!("v{}", i));
            }
        }
        let last = last.unwrap();
        live += encode(&LogEntry::Put { key: format!("k{}", j), value: last.clone() }).len();
        assert_eq!(get(&dir, &core, &format!("k{}", j)), Some(last));
    }
    assert_eq!(dir[&101].len(), live);
    assert_eq!(dir[&101].iter().filter(|b| **b == b'\n').count(), 10);
}

#[test]
fn later_remove_wins_over_earlier_file() {
    let mut dir = Dir::new();
    dir.insert(5, encode(&LogEntry::Put { key: "k".to_string(), value: "v".to_string() }));
    let mut later = encode(&LogEntry::Put { key: "other".to_string(), value: "x".to_string() });
    later.extend(encode(&LogEntry::Remove { key: "k".to_string() }));
    dir.insert(9, later);
    let core = open(&mut dir, 1);
    assert_eq!(get(&dir, &core, "k"), None);
    assert_eq!(get(&dir, &core, "other"), Some("x".to_string()));
    assert_eq!(core.active_file(), 10);
}

#[test]
fn corrupt_line_fails_open() {
    let mut files = vec![LogFile { id: 3, contents: b"{\"type\":\"Set\",\"k\":\"a\"}\n".to_vec() }];
    match LogStructured::open_files(&files, 0) {
        Err(StorageError::Corruption { file, offset }) => {
            assert_eq!(file, 3);
            assert_eq!(offset, 0);
        }
        _ => panic!("expected corruption"),
    }
    files[0].contents = b"not json\n".to_vec();
    assert!(matches!(LogStructured::open_files(&files, 0), Err(StorageError::Corruption { .. })));
}

#[test]
fn files_out_of_order_fail_open() {
    let files = vec![
        LogFile { id: 9, contents: Vec::new() },
        LogFile { id: 3, contents: Vec::new() },
    ];
    assert!(matches!(LogStructured::open_files(&files, 0), Err(StorageError::Io(_))));
}

#[test]
fn no_id_left_after_the_largest() {
    let files = vec![LogFile { id: u64::MAX, contents: Vec::new() }];
    assert!(matches!(LogStructured::open_files(&files, 0), Err(StorageError::Io(_))));
    assert_eq!(LogStructured::next_log_id(0, u64::MAX), None);
    assert_eq!(LogStructured::next_log_id(50, 7), Some(50));
    assert_eq!(LogStructured::next_log_id(7, 7), Some(8));
}

#[test]
fn empty_directory_opens_empty() {
    let core = LogStructured::open_files(&Vec::new(), 42).expect("open");
    assert_eq!(core.active_file(), 42);
    assert_eq!(core.lookup("x"), None);
}

#[test]
fn record_that_does_not_match_is_corruption() {
    let mut dir = Dir::new();
    let mut core = open(&mut dir, 100);
    set(&mut dir, &mut core, "k", "v");
    let other = encode(&LogEntry::Put { key: "j".to_string(), value: "v".to_string() });
    assert!(matches!(core.read_value("k", &other), Err(StorageError::Corruption { file: 100, offset: 0 })));
    assert!(matches!(core.read_value("k", b"{}"), Err(StorageError::Corruption { .. })));
    assert!(matches!(core.read_value("absent", b"{}"), Ok(None)));
}

#[test]
fn compaction_refuses_wrong_records() {
    let mut dir = Dir::new();
    let mut core = open(&mut dir, 100);
    set(&mut dir, &mut core, "k", "v");
    let wrong = vec![encode(&LogEntry::Put { key: "j".to_string(), value: "v".to_string() })];
    assert!(matches!(core.compact(0, &wrong), Err(StorageError::Corruption { .. })));
    assert!(matches!(core.compact(0, &Vec::new()), Err(StorageError::Io(_))));
    assert_eq!(core.active_file(), 100);
    let right = vec![dir[&100].clone()];
    let c = core.compact(0, &right).expect("compact");
    assert_eq!(c.file, 101);
    assert_eq!(c.retired, vec![100]);
    assert_eq!(c.contents, dir[&100]);
}

#[test]
fn records_are_json_lines() {
    let set = encode(&LogEntry::Put { key: "a\"b".to_string(), value: "line\nbreak".to_string() });
    assert_eq!(set, b"{\"type\":\"Set\",\"k\":\"a\\\"b\",\"v\":\"line\\nbreak\"}\n".to_vec());
    let rm = encode(&LogEntry::Remove { key: "k".to_string() });
    assert_eq!(rm, b"{\"type\":\"Remove\",\"k\":\"k\"}\n".to_vec());
}

#[test]
fn decode_reads_back_what_encode_wrote() {
    let entry = LogEntry::Put { key: "ké\\y".to_string(), value: "\u{1}tab\t".to_string() };
    let bytes = encode(&entry);
    match decode(&bytes[..bytes.len() - 1]) {
        Some(LogEntry::Put { key, value }) => {
            assert_eq!(key, "ké\\y");
            assert_eq!(value, "\u{1}tab\t");
        }
        _ => panic!("expected a set record"),
    }
    match decode(b"{\"type\":\"Remove\",\"k\":\"\\u0041\"}") {
        Some(LogEntry::Remove { key }) => assert_eq!(key, "A"),
        _ => panic!("expected a remove record"),
    }
    assert!(decode(b"{\"type\":\"Remove\",\"k\":\"x\"} ").is_none());
    assert!(decode(b"").is_none());
}

#[test]
fn empty_key_and_value() {
    let mut dir = Dir::new();
    let mut core = open(&mut dir, 100);
    set(&mut dir, &mut core, "", "");
    assert_eq!(get(&dir, &core, ""), Some(String::new()));
    drop(core);
    let core = open(&mut dir, 200);
    assert_eq!(get(&dir, &core, ""), Some(String::new()));
}

#[test]
fn failed_write_refuses_everything() {
    let mut dir = Dir::new();
    let mut core = open(&mut dir, 100);
    set(&mut dir, &mut core, "k", "v");
    core.mark_failed();
    assert!(matches!(core.set("a".to_string(), "b".to_string()), Err(StorageError::Io(_))));
    assert!(matches!(core.remove("k"), Err(StorageError::Io(_))));
    let record = dir[&100].clone();
    assert!(matches!(core.read_value("k", &record), Err(StorageError::Io(_))));
    assert!(matches!(core.compact(0, &vec![record]), Err(StorageError::Io(_))));
    let core = open(&mut dir, 200);
    assert_eq!(get(&dir, &core, "k"), Some("v".to_string()));
}
