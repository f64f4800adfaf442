use kv::{KvError, KvStore};

fn fresh() -> KvStore {
    KvStore::open(Vec::new()).expect("open on an empty directory succeeds")
}

#[test]
fn get_stored_value() {
    let mut store = fresh();
    store.set("a".to_string(), "1".to_string()).unwrap();
    assert_eq!(store.get("a".to_string()).unwrap(), Some("1".to_string()));
    assert_eq!(store.get("b".to_string()).unwrap(), None);
}

#[test]
fn overwrite_value() {
    let mut store = fresh();
    store.set("a".to_string(), "1".to_string()).unwrap();
    store.set("a".to_string(), "2".to_string()).unwrap();
    store.set("a".to_string(), "3".to_string()).unwrap();
    assert_eq!(store.get("a".to_string()).unwrap(), Some("3".to_string()));
}

#[test]
fn remove_then_get_and_remove_again() {
    let mut store = fresh();
    store.set("k".to_string(), "v".to_string()).unwrap();
    store.remove("k".to_string()).unwrap();
    assert_eq!(store.get("k".to_string()).unwrap(), None);
    assert_eq!(store.remove("k".to_string()), Err(KvError::KeyNotFound));
}

#[test]
fn remove_absent_key() {
    let mut store = fresh();
    assert_eq!(store.remove("never".to_string()), Err(KvError::KeyNotFound));
}

#[test]
fn reopen_keeps_values() {
    let mut store = fresh();
    store.set("a".to_string(), "1".to_string()).unwrap();
    store.set("b".to_string(), "2".to_string()).unwrap();
    let segments = store.segments_raw();
    drop(store);
    let mut reopened = KvStore::open(segments).unwrap();
    assert_eq!(reopened.get("a".to_string()).unwrap(), Some("1".to_string()));
    assert_eq!(reopened.get("b".to_string()).unwrap(), Some("2".to_string()));
}

#[test]
fn reopen_keeps_removals() {
    let mut store = fresh();
    store.set("a".to_string(), "1".to_string()).unwrap();
    store.set("b".to_string(), "2".to_string()).unwrap();
    store.remove("a".to_string()).unwrap();
    let segments = store.segments_raw();
    let mut reopened = KvStore::open(segments).unwrap();
    assert_eq!(reopened.get("a".to_string()).unwrap(), None);
    assert_eq!(reopened.get("b".to_string()).unwrap(), Some("2".to_string()));
}

#[test]
fn truncated_log_fails_to_open() {
    let mut store = fresh();
    store.set("a".to_string(), "1".to_string()).unwrap();
    store.set("a".to_string(), "2".to_string()).unwrap();
    let mut segments = store.segments_raw();
    // cut the busiest segment in the middle of its last record
    let victim = segments
        .iter_mut()
        .max_by_key(|(_, data)| data.len())
        .expect("at least one segment");
    assert!(victim.1.len() > 3);
    let cut = victim.1.len() - 3;
    victim.1.truncate(cut);
    assert_eq!(KvStore::open(segments).err(), Some(KvError::Serde));
}

#[test]
fn compaction_keeps_answers() {
    let mut store = fresh();
    for i in 0..100u32 {
        store.set(format!("key{}", i), format!("value{}", i)).unwrap();
    }
    for i in 0..50u32 {
        store.remove(format!("key{}", i)).unwrap();
    }
    store.compact().unwrap();
    for i in 0..50u32 {
        assert_eq!(store.get(format!("key{}", i)).unwrap(), None);
    }
    for i in 50..100u32 {
        assert_eq!(store.get(format!("key{}", i)).unwrap(), Some(format!("value{}", i)));
    }
    // after compaction nothing but live records and the empty active segment
    assert_eq!(store.total_size(), store.live_size());
}

#[test]
fn segment_ids_strictly_increase() {
    let mut store = fresh();
    let id0 = store.current_segment_id();
    store.compact().unwrap();
    let id1 = store.current_segment_id();
    store.compact().unwrap();
    let id2 = store.current_segment_id();
    assert!(id0 < id1 && id1 < id2);
    let segments = store.segments_raw();
    let reopened = KvStore::open(segments).unwrap();
    assert!(reopened.current_segment_id() > id2);
}

#[test]
fn compaction_bounds_disk_use() {
    let mut store = fresh();
    let value = "x".repeat(100);
    for i in 0..10_000u32 {
        store.set(format!("key{}", i), value.clone()).unwrap();
    }
    for round in 0..5u32 {
        let v = format!("{}{}", round, value);
        for i in 0..10_000u32 {
            store.set(format!("key{}", i), v.clone()).unwrap();
        }
    }
    let expected = format!("4{}", value);
    for i in (0..10_000u32).step_by(97) {
        assert_eq!(store.get(format!("key{}", i)).unwrap(), Some(expected.clone()));
    }
    assert!(store.live_size() > 0);
    assert!(store.total_size() < 10 * store.live_size());
}

#[test]
fn reopen_after_compaction() {
    let mut store = fresh();
    for i in 0..20u32 {
        store.set(format!("k{}", i), format!("v{}", i)).unwrap();
    }
    store.remove("k3".to_string()).unwrap();
    store.compact().unwrap();
    store.set("k3".to_string(), "back".to_string()).unwrap();
    let segments = store.segments_raw();
    let mut reopened = KvStore::open(segments).unwrap();
    assert_eq!(reopened.get("k3".to_string()).unwrap(), Some("back".to_string()));
    assert_eq!(reopened.get("k4".to_string()).unwrap(), Some("v4".to_string()));
    assert_eq!(reopened.get("k999".to_string()).unwrap(), None);
}

#[test]
fn unusual_keys_and_values() {
    let mut store = fresh();
    let key = "sp aces\tand\n\"quotes\"\\".to_string();
    let value = "caf\u{e9} \u{4e2d}\u{6587} \u{01}ctrl".to_string();
    store.set(key.clone(), value.clone()).unwrap();
    store.set("".to_string(), "empty key".to_string()).unwrap();
    let segments = store.segments_raw();
    let mut reopened = KvStore::open(segments).unwrap();
    assert_eq!(reopened.get(key).unwrap(), Some(value));
    assert_eq!(reopened.get("".to_string()).unwrap(), Some("empty key".to_string()));
}
