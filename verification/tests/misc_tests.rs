use kvs::decimal::{format_dec, parse_i32, push_dec_bytes};
use kvs::engine::{check_engine_tag, engine_tag_file, join, kvs_engine_tag, sled_engine_tag, TagCheck};
use kvs::index::KeyIndex;
use kvs::{get_wal_file_name, KvStoreError, WAL};

#[test]
fn wal_file_names() {
    assert_eq!(get_wal_file_name(None), "wal.log");
    assert_eq!(get_wal_file_name(Some(0)), "imm-wal00000.log");
    assert_eq!(get_wal_file_name(Some(42)), "imm-wal00042.log");
    assert_eq!(get_wal_file_name(Some(123456)), "imm-wal123456.log");
    for i in [0usize, 7, 99999, 100000, usize::MAX] {
        assert_eq!(get_wal_file_name(Some(i)), format!("imm-wal{:05}.log", i));
    }
}

#[test]
fn different_log_files_get_different_names() {
    let ids = [None, Some(0usize), Some(1), Some(10), Some(99999), Some(100000), Some(usize::MAX)];
    for a in ids {
        for b in ids {
            if a != b {
                assert_ne!(get_wal_file_name(a), get_wal_file_name(b));
            }
        }
    }
}

#[test]
fn decimal_numbers() {
    assert_eq!(format_dec(0), "0");
    assert_eq!(format_dec(1005), "1005");
    let mut v = Vec::new();
    push_dec_bytes(&mut v, 907);
    assert_eq!(v, b"907".to_vec());
    assert_eq!(parse_i32(b"-0"), Some(0));
    assert_eq!(parse_i32(b"+"), None);
    assert_eq!(parse_i32(b"-"), None);
    assert_eq!(parse_i32(b"12a"), None);
    assert_eq!(parse_i32(b""), None);
    for s in ["0", "-1", "+15", "2147483647", "-2147483648", "2147483648", "--1", "1 "] {
        assert_eq!(parse_i32(s.as_bytes()), s.parse::<i32>().ok());
    }
}

#[test]
fn wal_counters() {
    let mut wal = WAL::open(10, 3);
    assert_eq!(wal.get_wal_sz(), 10);
    assert_eq!(wal.get_imm_num(), 2);
    wal.write(5);
    assert_eq!(wal.get_wal_sz(), 15);
    wal.incr_next_wal();
    assert_eq!(wal.get_wal_sz(), 0);
    assert_eq!(wal.get_imm_num(), 3);
}

#[test]
fn engine_tags() {
    let kvs = kvs_engine_tag();
    let sled = sled_engine_tag();
    assert_eq!(kvs, b"kvss".to_vec());
    assert_eq!(sled, b"sled".to_vec());
    assert!(matches!(check_engine_tag(b"", &kvs), TagCheck::Fresh));
    assert!(matches!(check_engine_tag(b"kvss", &kvs), TagCheck::Matches));
    assert!(matches!(check_engine_tag(b"kvssextra", &kvs), TagCheck::Matches));
    assert!(matches!(check_engine_tag(b"sled", &kvs), TagCheck::Mismatch));
    assert!(matches!(check_engine_tag(b"kv", &kvs), TagCheck::Mismatch));
    assert_eq!(engine_tag_file(), "engine.tag");
}

#[test]
fn path_join() {
    assert_eq!(join(&"/tmp/x".to_string(), &"sled".to_string()), "/tmp/x/sled");
    assert_eq!(join(&"/tmp/x/".to_string(), &"sled".to_string()), "/tmp/x/sled");
    assert_eq!(join(&"".to_string(), &"sled".to_string()), "sled");
}

#[test]
fn error_messages() {
    assert_eq!(KvStoreError::KeyNotFound.message(), "get error: Key not found");
    assert_eq!(KvStoreError::Io("boom".to_string()).message(), "IO error: boom");
    assert_eq!(KvStoreError::Serde("bad".to_string()).message(), "serde_json error: bad");
}

#[test]
fn key_index() {
    let mut idx = KeyIndex::new();
    assert_eq!(idx.len(), 0);
    idx.insert("a".to_string(), (None, 4));
    idx.insert("b".to_string(), (Some(1), 8));
    idx.insert("a".to_string(), (Some(2), 12));
    assert_eq!(idx.len(), 2);
    assert_eq!(idx.get(&"a".to_string()), Some((Some(2), 12)));
    assert!(idx.contains_key(&"b".to_string()));
    assert!(idx.remove(&"a".to_string()));
    assert!(!idx.remove(&"a".to_string()));
    assert_eq!(idx.get(&"a".to_string()), None);
    assert_eq!(idx.get(&"b".to_string()), Some((Some(1), 8)));
}
