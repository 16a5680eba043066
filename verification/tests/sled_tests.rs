use kvs::protocol::Request;
use kvs::server::{answer_reply, handle_request};
use kvs::sled_engine::{removal_result, value_of};
use kvs::{KvStoreError, KvsEngine, SledStore};

#[test]
fn sled_store_set_get_remove() {
    let dir = "/tmp/kvs_sled_engine_test_a".to_string();
    let mut store = match SledStore::open(&dir, b"") {
        Ok(s) => s,
        Err(e) => panic!("open failed: {}", e.message()),
    };
    assert!(std::path::Path::new(&dir).join("sled").is_dir());
    store.set("key1".to_string(), "value1".to_string()).ok().unwrap();
    assert_eq!(store.get("key1".to_string()).ok().unwrap(), Some("value1".to_string()));
    store.set("key1".to_string(), "value2".to_string()).ok().unwrap();
    assert_eq!(store.get("key1".to_string()).ok().unwrap(), Some("value2".to_string()));
    assert!(store.remove("key1".to_string()).is_ok());
    assert_eq!(store.get("key1".to_string()).ok().unwrap(), None);
    match store.remove("key1".to_string()) {
        Err(KvStoreError::KeyNotFound) => {}
        _ => panic!("expected KeyNotFound"),
    }
}

#[test]
fn sled_store_refuses_other_engine_dir() {
    let dir = "/tmp/kvs_sled_engine_test_b".to_string();
    match SledStore::open(&dir, b"kvss") {
        Err(KvStoreError::EngineMismatch) => {}
        _ => panic!("expected EngineMismatch"),
    }
    assert!(SledStore::open(&dir, b"sled").is_ok());
}

#[test]
fn server_answers_on_the_sled_engine() {
    let dir = "/tmp/kvs_sled_engine_test_c".to_string();
    let mut store = match SledStore::open(&dir, b"") {
        Ok(s) => s,
        Err(e) => panic!("open failed: {}", e.message()),
    };
    let mut ask = |r: Request| match answer_reply(handle_request(&mut store, r)) {
        Ok(a) => a,
        Err(e) => panic!("unexpected error: {}", e.message()),
    };
    assert_eq!(ask(Request::SetValue("a".to_string(), "xyz".to_string())), Some(b"+OK\r\n".to_vec()));
    assert_eq!(ask(Request::GetValue("a".to_string())), Some(b"$3\r\nxyz\r\n".to_vec()));
    assert_eq!(ask(Request::RemoveKey("a".to_string())), Some(b"+OK\r\n".to_vec()));
    assert_eq!(ask(Request::GetValue("a".to_string())), Some(b"$-1\r\n".to_vec()));
    assert_eq!(
        ask(Request::RemoveKey("a".to_string())),
        Some(b"-ERR: get error: Key not found".to_vec())
    );
    assert_eq!(ask(Request::Shutdown), None);
}

#[test]
fn stored_bytes_become_read_answers() {
    assert!(matches!(value_of(None), Ok(None)));
    assert!(matches!(value_of(Some(b"xyz".to_vec())), Ok(Some(ref s)) if s == "xyz"));
    assert!(matches!(value_of(Some(vec![0xff, 0xfe])), Err(KvStoreError::Utf8)));
    assert!(removal_result(&Some(b"v".to_vec())).is_ok());
    assert!(matches!(removal_result(&None), Err(KvStoreError::KeyNotFound)));
}
