use redis_app::store::entry::{EntryValue, StoreEntry};
use redis_app::store::{IncrError, SnapshotEntry, Store};

#[test]
fn purge_expired_keeps_non_expired_keys() {
    let mut store = Store::new();
    store.set("alive".to_string(), "v".to_string(), None);

    store.purge_expired();

    assert_eq!(store.get("alive"), Some("v".to_string()));
    assert!(store.key_exists("alive"));
}

#[test]
fn purge_expired_removes_expired_keys() {
    let mut store = Store::new();
    store.set_at("temp".to_string(), "v".to_string(), Some(20), 1_000);

    store.purge_expired_at(1_040);

    assert_eq!(store.get_at("temp", 1_040), None);
    assert!(!store.key_exists_at("temp", 1_040));
    assert!(store.to_snapshot_entries_at(0).is_empty());
}

#[test]
fn purge_expired_removes_only_expired_keys() {
    let mut store = Store::new();
    store.set_at("expired".to_string(), "a".to_string(), Some(20), 1_000);
    store.set_at("long_lived".to_string(), "b".to_string(), Some(500), 1_000);
    store.set_at("persistent".to_string(), "c".to_string(), None, 1_000);

    store.purge_expired_at(1_050);

    assert_eq!(store.get_at("expired", 1_050), None);
    assert_eq!(store.get_at("long_lived", 1_050), Some("b".to_string()));
    assert_eq!(store.get_at("persistent", 1_050), Some("c".to_string()));
    assert_eq!(store.to_snapshot_entries_at(1_050).len(), 2);
}

#[test]
fn get_after_set_and_overwrite() {
    let mut store = Store::new();
    assert_eq!(store.get("k"), None);
    store.set("k".to_string(), "one".to_string(), None);
    store.set("k".to_string(), "two".to_string(), None);
    assert_eq!(store.get("k"), Some("two".to_string()));
    store.set("other".to_string(), "x".to_string(), None);
    assert_eq!(store.get("k"), Some("two".to_string()));
}

#[test]
fn entry_expires_at_its_deadline() {
    let mut store = Store::new();
    store.set_at("k".to_string(), "v".to_string(), Some(100), 5_000);
    assert_eq!(store.get_at("k", 5_099), Some("v".to_string()));
    assert_eq!(store.get_at("k", 5_100), None);
    assert!(!store.key_exists_at("k", 5_100));
}

#[test]
fn del_reports_whether_a_live_key_was_removed() {
    let mut store = Store::new();
    store.set("k".to_string(), "v".to_string(), None);
    assert!(store.del("k"));
    assert!(!store.del("k"));
    assert_eq!(store.get("k"), None);
    store.set_at("old".to_string(), "v".to_string(), Some(10), 0);
    assert!(!store.del_at("old", 10));
}

#[test]
fn incr_missing_key_twice_and_text() {
    let mut store = Store::new();
    assert_eq!(store.incrby("n", 1).unwrap(), 1);
    assert_eq!(store.incrby("n", 1).unwrap(), 2);
    assert_eq!(store.incrby("n", -5).unwrap(), -3);
    assert_eq!(store.get("n"), Some("-3".to_string()));
    store.set("t".to_string(), "10".to_string(), None);
    assert_eq!(store.incrby("t", 1).unwrap(), 11);
    assert_eq!(store.get("t"), Some("11".to_string()));
}

#[test]
fn incr_errors() {
    let mut store = Store::new();
    store.set("word".to_string(), "notanumber".to_string(), None);
    let e = store.incrby("word", 1).unwrap_err();
    assert!(matches!(e, IncrError::NotInteger));
    assert_eq!(e.message(), "value is not an integer or out of range");
    assert_eq!(store.get("word"), Some("notanumber".to_string()));

    store.set("big".to_string(), i64::MAX.to_string(), None);
    let e = store.incrby("big", 1).unwrap_err();
    assert!(matches!(e, IncrError::Overflow));
    assert_eq!(e.message(), "increment or decrement would overflow");
    assert_eq!(store.get("big"), Some(i64::MAX.to_string()));
}

#[test]
fn incr_keeps_time_to_live() {
    let mut store = Store::new();
    store.set_at("n".to_string(), "5".to_string(), Some(10_000), 0);
    assert_eq!(store.incrby_at("n", 1, 1_000).unwrap(), 6);
    assert_eq!(store.ttl_at("n", 1_000), 9);
}

#[test]
fn ttl_and_expire_and_persist() {
    let mut store = Store::new();
    assert_eq!(store.ttl_at("missing", 0), -2);
    assert!(!store.expire_at("missing", 5, 0));
    store.set_at("k".to_string(), "v".to_string(), None, 0);
    assert_eq!(store.ttl_at("k", 0), -1);
    assert!(store.expire_at("k", 30, 1_000));
    assert_eq!(store.ttl_at("k", 1_000), 30);
    assert_eq!(store.ttl_at("k", 1_500), 29);
    assert!(store.persist_at("k", 2_000));
    assert_eq!(store.ttl_at("k", 2_000), -1);
    assert!(!store.persist_at("missing", 2_000));
    assert!(store.expire_at("k", 1, 3_000));
    assert_eq!(store.ttl_at("k", 4_000), -2);
}

#[test]
fn copy_reads_as_source() {
    let mut store = Store::new();
    store.set("src".to_string(), "v".to_string(), None);
    assert!(store.copy("src", "dst", false));
    assert_eq!(store.get("dst"), Some("v".to_string()));
    store.set("src".to_string(), "w".to_string(), None);
    assert!(!store.copy("src", "dst", false));
    assert_eq!(store.get("dst"), Some("v".to_string()));
    assert!(store.copy("src", "dst", true));
    assert_eq!(store.get("dst"), Some("w".to_string()));
    assert!(!store.copy("nothing", "dst", true));
}

#[test]
fn snapshot_restores_reads() {
    let mut store = Store::new();
    store.set_at("a".to_string(), "1".to_string(), None, 0);
    store.set_at("b".to_string(), "2".to_string(), Some(5_000), 0);
    store.set_at("gone".to_string(), "3".to_string(), Some(10), 0);
    let entries = store.to_snapshot_entries_at(100);
    assert_eq!(entries.len(), 2);
    let mut restored = Store::from_snapshot(entries);
    assert_eq!(restored.get_at("a", 100), Some("1".to_string()));
    assert_eq!(restored.get_at("b", 100), Some("2".to_string()));
    assert_eq!(restored.get_at("gone", 100), None);
    assert_eq!(restored.ttl_at("b", 100), 4);
}

#[test]
fn from_snapshot_with_int_value() {
    let entries = vec![SnapshotEntry {
        key: "n".to_string(),
        value: EntryValue::Int(41),
        expires_at: None,
    }];
    let mut store = Store::from_snapshot(entries);
    assert_eq!(store.incrby("n", 1).unwrap(), 42);
}

#[test]
fn entry_expiry_and_flush() {
    let e = StoreEntry::str("v".to_string(), Some(50));
    assert!(!e.is_expired_at(49));
    assert!(e.is_expired_at(50));
    let mut f = StoreEntry::integer(7, None);
    assert!(!f.is_expired_at(u128::MAX));
    assert!(!f.is_expired());
    f.flush();
    assert!(matches!(f.value, EntryValue::Int(0)));
    let mut g = StoreEntry::str("text".to_string(), Some(9));
    g.flush();
    assert!(matches!(g.value, EntryValue::Str(ref s) if s.is_empty()));
    assert_eq!(g.expires_at, None);
    assert_eq!(f.expires_at, None);
}

#[test]
fn incr_on_expired_key_starts_from_zero() {
    let mut store = Store::new();
    store.set_at("t".to_string(), "text".to_string(), Some(10), 0);
    assert_eq!(store.incrby_at("t", 5, 20).unwrap(), 5);
    assert_eq!(store.get_at("t", 20), Some("5".to_string()));
    assert_eq!(store.ttl_at("t", 20), -1);
    store.set_at("n".to_string(), "7".to_string(), Some(10), 0);
    assert_eq!(store.incrby_at("n", 1, 10).unwrap(), 1);
}

#[test]
fn ttl_of_a_far_deadline_is_capped() {
    let mut store = Store::new();
    store.set_at("k".to_string(), "v".to_string(), None, 0);
    assert!(store.expire_at("k", u64::MAX, 0));
    assert_eq!(store.ttl_at("k", 0), i64::MAX);
}
