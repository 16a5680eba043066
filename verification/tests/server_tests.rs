use std::collections::HashMap;

use kvs::protocol::Request;
use kvs::server::{answer_reply, handle_request, remove_reply, reply, EngineAnswer, Outcome};
use kvs::{KvStoreError, KvsEngine, Result};

struct MemoryEngine {
    map: HashMap<String, String>,
    fail_writes: bool,
}

impl KvsEngine for MemoryEngine {
    fn set(&mut self, key: String, value: String) -> Result<()> {
        if self.fail_writes {
            return Err(KvStoreError::Io("disk full".to_string()));
        }
        self.map.insert(key, value);
        Ok(())
    }

    fn get(&mut self, key: String) -> Result<Option<String>> {
        Ok(self.map.get(&key).cloned())
    }

    fn remove(&mut self, key: String) -> Result<()> {
        match self.map.remove(&key) {
            Some(_) => Ok(()),
            None => Err(KvStoreError::KeyNotFound),
        }
    }
}

fn engine() -> MemoryEngine {
    MemoryEngine { map: HashMap::new(), fail_writes: false }
}

fn answer(e: &mut MemoryEngine, r: Request) -> Option<Vec<u8>> {
    match answer_reply(handle_request(e, r)) {
        Ok(a) => a,
        Err(err) => panic!("unexpected error: {}", err.message()),
    }
}

#[test]
fn replies_to_each_outcome() {
    assert_eq!(reply(&Outcome::Done), b"+OK\r\n".to_vec());
    assert_eq!(reply(&Outcome::Value(None)), b"$-1\r\n".to_vec());
    assert_eq!(reply(&Outcome::Value(Some("hello".to_string()))), b"$5\r\nhello\r\n".to_vec());
    assert_eq!(
        reply(&Outcome::Refused(KvStoreError::KeyNotFound)),
        b"-ERR: get error: Key not found".to_vec()
    );
}

#[test]
fn serves_a_session() {
    let mut e = engine();
    let set = Request::SetValue("k".to_string(), "v1".to_string());
    assert_eq!(answer(&mut e, set), Some(b"+OK\r\n".to_vec()));
    assert_eq!(answer(&mut e, Request::GetValue("k".to_string())), Some(b"$2\r\nv1\r\n".to_vec()));
    assert_eq!(answer(&mut e, Request::GetValue("x".to_string())), Some(b"$-1\r\n".to_vec()));
    assert_eq!(answer(&mut e, Request::RemoveKey("k".to_string())), Some(b"+OK\r\n".to_vec()));
    assert_eq!(
        answer(&mut e, Request::RemoveKey("k".to_string())),
        Some(b"-ERR: get error: Key not found".to_vec())
    );
    assert_eq!(answer(&mut e, Request::Shutdown), None);
}

#[test]
fn a_failed_write_is_an_error_of_the_server() {
    let mut e = MemoryEngine { map: HashMap::new(), fail_writes: true };
    let a = handle_request(&mut e, Request::SetValue("k".to_string(), "v".to_string()));
    assert!(matches!(a, EngineAnswer::Written(Err(KvStoreError::Io(_)))));
    assert!(matches!(answer_reply(a), Err(KvStoreError::Io(_))));
}

#[test]
fn a_removal_is_answered_by_the_engine_result() {
    assert_eq!(remove_reply(&Ok(())), b"+OK\r\n".to_vec());
    assert_eq!(remove_reply(&Err(KvStoreError::KeyNotFound)), b"-ERR: get error: Key not found".to_vec());
    assert_eq!(
        remove_reply(&Err(KvStoreError::Sled("io".to_string()))),
        b"-ERR: sled error: io".to_vec()
    );
}

#[test]
fn a_shutdown_does_not_ask_the_engine() {
    let mut e = MemoryEngine { map: HashMap::new(), fail_writes: true };
    assert!(matches!(handle_request(&mut e, Request::Shutdown), EngineAnswer::Stopped));
    assert!(e.map.is_empty());
}
