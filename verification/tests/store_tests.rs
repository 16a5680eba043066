use kvs::codec::{encode_frame, frame_payload_len, scan_frames};
use kvs::command::KvCommand;
use kvs::store::KvStoreInner;
use kvs::KvStoreError;

fn empty_store() -> KvStoreInner {
    match KvStoreInner::open(&vec![Vec::new()], &vec![Vec::new()]) {
        Ok(s) => s,
        Err(_) => panic!("an empty log must open"),
    }
}

/// The payload at `loc` in the given file bytes, read as `get` callers read it.
fn read_at(file: &[u8], off: usize) -> Vec<u8> {
    let len = frame_payload_len(&file[off - 4..off]);
    file[off..off + len].to_vec()
}

#[test]
fn set_then_get_points_at_the_record() {
    let mut store = empty_store();
    let mut wal: Vec<u8> = Vec::new();
    let frame = store.set("a".to_string(), "1".to_string(), b"payload-a1".to_vec());
    assert_eq!(frame, encode_frame(b"payload-a1"));
    wal.extend_from_slice(&frame);
    let loc = store.get(&"a".to_string()).unwrap();
    assert_eq!(loc, (None, 4));
    assert_eq!(read_at(&wal, loc.1), b"payload-a1".to_vec());
    assert_eq!(store.wal().get_wal_sz(), 14);
}

#[test]
fn later_set_wins() {
    let mut store = empty_store();
    let mut wal: Vec<u8> = Vec::new();
    wal.extend_from_slice(&store.set("k".to_string(), "1".to_string(), b"one".to_vec()));
    wal.extend_from_slice(&store.set("k".to_string(), "2".to_string(), b"two".to_vec()));
    let loc = store.get(&"k".to_string()).unwrap();
    assert_eq!(loc, (None, 11));
    assert_eq!(read_at(&wal, loc.1), b"two".to_vec());
}

#[test]
fn remove_missing_key_fails() {
    let mut store = empty_store();
    match store.remove(&"nope".to_string(), b"rm".to_vec()) {
        Err(KvStoreError::KeyNotFound) => {}
        _ => panic!("expected KeyNotFound"),
    }
    assert_eq!(store.wal().get_wal_sz(), 0);
}

#[test]
fn remove_then_get_is_none() {
    let mut store = empty_store();
    store.set("k".to_string(), "v".to_string(), b"set".to_vec());
    let frame = match store.remove(&"k".to_string(), b"rm".to_vec()) {
        Ok(f) => f,
        Err(_) => panic!("remove of a present key must succeed"),
    };
    assert_eq!(frame, encode_frame(b"rm"));
    assert_eq!(store.get(&"k".to_string()), None);
    assert_eq!(store.wal().get_wal_sz(), 7 + 6);
}

#[test]
fn other_keys_untouched() {
    let mut store = empty_store();
    store.set("a".to_string(), "1".to_string(), b"A".to_vec());
    store.set("b".to_string(), "2".to_string(), b"B".to_vec());
    let _ = store.remove(&"a".to_string(), b"R".to_vec());
    assert_eq!(store.get(&"b".to_string()), Some((None, 9)));
}

#[test]
fn reopen_replays_the_log() {
    let mut store = empty_store();
    let mut wal: Vec<u8> = Vec::new();
    let mut cmds: Vec<KvCommand> = Vec::new();
    wal.extend_from_slice(&store.set("a".to_string(), "1".to_string(), b"p1".to_vec()));
    cmds.push(KvCommand::Put("a".to_string(), "1".to_string()));
    wal.extend_from_slice(&store.set("b".to_string(), "2".to_string(), b"p2".to_vec()));
    cmds.push(KvCommand::Put("b".to_string(), "2".to_string()));
    wal.extend_from_slice(&store.remove(&"a".to_string(), b"p3".to_vec()).ok().unwrap());
    cmds.push(KvCommand::Remove("a".to_string()));
    let reopened = match KvStoreInner::open(&vec![wal.clone()], &vec![cmds]) {
        Ok(s) => s,
        Err(_) => panic!("the written log must reopen"),
    };
    assert_eq!(reopened.get(&"a".to_string()), None);
    assert_eq!(reopened.get(&"b".to_string()), store.get(&"b".to_string()));
    assert_eq!(reopened.wal().get_wal_sz(), wal.len());
    assert_eq!(reopened.wal().get_imm_num(), 0);
}

#[test]
fn reopen_with_immutable_files() {
    let imm0 = [encode_frame(b"x1"), encode_frame(b"y1")].concat();
    let active = encode_frame(b"x2");
    let files = vec![imm0, active];
    let cmds = vec![
        vec![
            KvCommand::Put("x".to_string(), "1".to_string()),
            KvCommand::Put("y".to_string(), "1".to_string()),
        ],
        vec![KvCommand::Put("x".to_string(), "2".to_string())],
    ];
    let store = match KvStoreInner::open(&files, &cmds) {
        Ok(s) => s,
        Err(_) => panic!("valid files must open"),
    };
    assert_eq!(store.get(&"x".to_string()), Some((None, 4)));
    assert_eq!(store.get(&"y".to_string()), Some((Some(0), 10)));
    assert_eq!(store.wal().get_imm_num(), 1);
}

#[test]
fn reopen_rejects_a_torn_record() {
    let mut wal = encode_frame(b"abc");
    wal.pop();
    let cmds = vec![vec![KvCommand::Put("a".to_string(), "b".to_string())]];
    match KvStoreInner::open(&vec![wal], &cmds) {
        Err(KvStoreError::CorruptLog) => {}
        _ => panic!("a torn record must be refused"),
    }
}

#[test]
fn reopen_rejects_command_count_mismatch() {
    let wal = encode_frame(b"abc");
    match KvStoreInner::open(&vec![wal], &vec![Vec::new()]) {
        Err(KvStoreError::CorruptLog) => {}
        _ => panic!("commands must match records"),
    }
    match KvStoreInner::open(&Vec::new(), &Vec::new()) {
        Err(KvStoreError::CorruptLog) => {}
        _ => panic!("the active file must be there"),
    }
}

#[test]
fn freeze_moves_live_records() {
    let mut store = empty_store();
    let mut wal: Vec<u8> = Vec::new();
    let mut keys: Vec<Option<String>> = Vec::new();
    wal.extend_from_slice(&store.set("a".to_string(), "1".to_string(), b"a1".to_vec()));
    keys.push(Some("a".to_string()));
    wal.extend_from_slice(&store.set("b".to_string(), "1".to_string(), b"b1".to_vec()));
    keys.push(Some("b".to_string()));
    wal.extend_from_slice(&store.set("a".to_string(), "2".to_string(), b"a2".to_vec()));
    keys.push(Some("a".to_string()));
    wal.extend_from_slice(&store.remove(&"b".to_string(), b"rb".to_vec()).ok().unwrap());
    keys.push(None);
    assert!(!store.check_and_do_freeze());
    let imm = store.freeze_wal(&wal, &keys);
    assert_eq!(imm, encode_frame(b"a2"));
    assert_eq!(store.get(&"a".to_string()), Some((Some(0), 4)));
    assert_eq!(store.get(&"b".to_string()), None);
    assert_eq!(store.wal().get_wal_sz(), 0);
    assert_eq!(store.wal().get_imm_num(), 1);
    assert_eq!(read_at(&imm, 4), b"a2".to_vec());
}

#[test]
fn freeze_is_due_at_the_threshold() {
    let mut store = empty_store();
    let big = vec![7u8; 999_996];
    store.set("k".to_string(), "v".to_string(), big);
    assert_eq!(store.wal().get_wal_sz(), 1_000_000);
    assert!(store.check_and_do_freeze());
}

#[test]
fn scan_locates_payloads() {
    let bytes = [encode_frame(b""), encode_frame(b"hello"), encode_frame(b"xy")].concat();
    let found = scan_frames(&bytes).unwrap();
    assert_eq!(found, vec![(4, 0), (8, 5), (17, 2)]);
    assert_eq!(scan_frames(&bytes[..bytes.len() - 1]), None);
    assert_eq!(scan_frames(&[0u8, 0, 0]), None);
    assert_eq!(scan_frames(&[]), Some(Vec::new()));
}

#[test]
fn frame_header_is_big_endian() {
    let payload = vec![1u8; 0x0102];
    let f = encode_frame(&payload);
    assert_eq!(&f[..4], &[0u8, 0, 1, 2]);
    assert_eq!(frame_payload_len(&f[..4]), 0x0102);
}

fn frames_keys(cmds: &[KvCommand]) -> Vec<Option<String>> {
    cmds.iter().map(|c| c.set_key()).collect()
}

#[test]
fn freeze_then_reopen_finds_the_same_values() {
    let mut store = empty_store();
    let mut wal: Vec<u8> = Vec::new();
    let mut cmds: Vec<KvCommand> = Vec::new();
    for (k, v, p) in [("a", "1", "pa1"), ("b", "1", "pb1"), ("a", "2", "pa2")] {
        wal.extend_from_slice(&store.set(k.to_string(), v.to_string(), p.as_bytes().to_vec()));
        cmds.push(KvCommand::Put(k.to_string(), v.to_string()));
    }
    let imm = store.freeze_wal(&wal, &frames_keys(&cmds));
    let imm_cmds = vec![
        KvCommand::Put("b".to_string(), "1".to_string()),
        KvCommand::Put("a".to_string(), "2".to_string()),
    ];
    let active = store.set("c".to_string(), "3".to_string(), b"pc3".to_vec());
    let reopened = match KvStoreInner::open(
        &vec![imm.clone(), active.clone()],
        &vec![imm_cmds, vec![KvCommand::Put("c".to_string(), "3".to_string())]],
    ) {
        Ok(s) => s,
        Err(_) => panic!("the frozen log must reopen"),
    };
    for k in ["a", "b", "c"] {
        assert_eq!(reopened.get(&k.to_string()), store.get(&k.to_string()));
    }
    let (file, off) = reopened.get(&"a".to_string()).unwrap();
    assert_eq!(file, Some(0));
    assert_eq!(read_at(&imm, off), b"pa2".to_vec());
    assert_eq!(read_at(&active, reopened.get(&"c".to_string()).unwrap().1), b"pc3".to_vec());
}

#[test]
fn a_removal_frozen_away_is_not_read_back() {
    // A freeze keeps no `Remove` record, so a key removed after its value was
    // frozen into an immutable file is found again when the log is reread.
    let mut store = empty_store();
    let set_frame = store.set("a".to_string(), "1".to_string(), b"pa".to_vec());
    let imm0 = store.freeze_wal(&set_frame, &vec![Some("a".to_string())]);
    let rm_frame = store.remove(&"a".to_string(), b"ra".to_vec()).ok().unwrap();
    let imm1 = store.freeze_wal(&rm_frame, &vec![None]);
    assert_eq!(imm1, Vec::<u8>::new());
    assert_eq!(store.get(&"a".to_string()), None);
    let reopened = match KvStoreInner::open(
        &vec![imm0, imm1, Vec::new()],
        &vec![vec![KvCommand::Put("a".to_string(), "1".to_string())], Vec::new(), Vec::new()],
    ) {
        Ok(s) => s,
        Err(_) => panic!("the log must reopen"),
    };
    assert_eq!(reopened.get(&"a".to_string()), Some((Some(0), 4)));
}

#[test]
fn freeze_keeps_only_the_latest_record() {
    let mut store = empty_store();
    let p1 = br#"{"Set":["a","1"]}"#.to_vec();
    let p2 = br#"{"Set":["a","2"]}"#.to_vec();
    let mut wal: Vec<u8> = Vec::new();
    wal.extend_from_slice(&store.set("a".to_string(), "1".to_string(), p1.clone()));
    wal.extend_from_slice(&store.set("a".to_string(), "2".to_string(), p2.clone()));
    assert_eq!(store.wal().get_wal_sz(), 42);
    assert_eq!(store.get(&"a".to_string()), Some((None, 25)));
    let keys = vec![Some("a".to_string()), Some("a".to_string())];
    let imm = store.freeze_wal(&wal, &keys);
    let mut expected = vec![0u8, 0, 0, 17];
    expected.extend_from_slice(&p2);
    assert_eq!(imm, expected);
    assert_eq!(store.get(&"a".to_string()), Some((Some(0), 4)));
    assert_eq!(store.wal().get_wal_sz(), 0);
    assert_eq!(store.wal().get_imm_num(), 1);
}

#[test]
fn a_key_removed_and_set_again_survives_a_freeze() {
    let mut store = empty_store();
    let set1 = store.set("a".to_string(), "1".to_string(), b"pa1".to_vec());
    let imm0 = store.freeze_wal(&set1, &vec![Some("a".to_string())]);
    let mut wal: Vec<u8> = Vec::new();
    wal.extend_from_slice(&store.remove(&"a".to_string(), b"ra".to_vec()).ok().unwrap());
    wal.extend_from_slice(&store.set("a".to_string(), "2".to_string(), b"pa2".to_vec()));
    let imm1 = store.freeze_wal(&wal, &vec![None, Some("a".to_string())]);
    assert_eq!(imm1, encode_frame(b"pa2"));
    let reopened = match KvStoreInner::open(
        &vec![imm0, imm1.clone(), Vec::new()],
        &vec![
            vec![KvCommand::Put("a".to_string(), "1".to_string())],
            vec![KvCommand::Put("a".to_string(), "2".to_string())],
            Vec::new(),
        ],
    ) {
        Ok(s) => s,
        Err(_) => panic!("the log must reopen"),
    };
    assert_eq!(reopened.get(&"a".to_string()), Some((Some(1), 4)));
    assert_eq!(store.get(&"a".to_string()), Some((Some(1), 4)));
    assert_eq!(read_at(&imm1, 4), b"pa2".to_vec());
}
