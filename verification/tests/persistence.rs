use redis_app::config::{build_config, Config, PartialConfig};
use redis_app::persistence::{
    restore, restore_now, save_data, snapshot_entries, snapshot_now, PersistedEntry,
    PersistedValue,
};
use redis_app::store::Store;

#[test]
fn roundtrip_str() {
    let mut store = Store::new();
    store.set("hello".into(), "world".into(), None);
    let saved = snapshot_now(&store);
    let mut loaded = restore_now(saved.entries);
    assert_eq!(loaded.get("hello"), Some("world".into()));
}

#[test]
fn roundtrip_int() {
    let mut store = Store::new();
    store.incrby("n", 99).unwrap();
    let saved = snapshot_now(&store);
    let mut loaded = restore_now(saved.entries);
    assert_eq!(loaded.get("n"), Some("99".into()));
}

#[test]
fn expired_entry_discarded_on_load() {
    let mut store = Store::new();
    store.set_at("x".into(), "y".into(), Some(50), 10_000);
    let saved = save_data(&store, 10_000, 1_000);
    assert_eq!(saved.entries[0].expires_at, Some(1_000));
    let mut loaded = restore(saved.entries, 1_000, 20_000);
    assert_eq!(loaded.get_at("x", 20_000), None);
}

#[test]
fn ttl_approximately_preserved() {
    let mut store = Store::new();
    store.set_at("k".into(), "v".into(), Some(30_000), 10_000);
    let saved = save_data(&store, 10_000, 1_000);
    assert_eq!(saved.timestamp, 1_000);
    let loaded = restore(saved.entries, 1_000, 500);
    let ttl = loaded.ttl_at("k", 500);
    assert!(ttl > 25 && ttl <= 30, "expected TTL ~30s, got {ttl}");
    assert_eq!(ttl, 30);
}

#[test]
fn ttl_counts_down_across_restart() {
    let mut store = Store::new();
    store.set_at("k".into(), "v".into(), Some(30_000), 0);
    let saved = save_data(&store, 0, 100);
    let loaded = restore(saved.entries, 110, 0);
    assert_eq!(loaded.ttl_at("k", 0), 20);
}

#[test]
fn snapshot_skips_expired_and_keeps_values() {
    let mut store = Store::new();
    store.set_at("a".into(), "text".into(), None, 0);
    store.incrby_at("b", 5, 0).unwrap();
    store.set_at("dead".into(), "x".into(), Some(10), 0);
    let entries = snapshot_entries(&store, 100, 7);
    assert_eq!(entries.len(), 2);
    for e in &entries {
        match e.key.as_str() {
            "a" => assert!(matches!(&e.value, PersistedValue::Str(s) if s == "text")),
            "b" => assert!(matches!(e.value, PersistedValue::Int(5))),
            other => panic!("unexpected key {other}"),
        }
        assert_eq!(e.expires_at, None);
    }
}

#[test]
fn restore_later_entry_wins_and_drops_past_ones() {
    let entries = vec![
        PersistedEntry { key: "k".into(), value: PersistedValue::Str("old".into()), expires_at: None },
        PersistedEntry { key: "k".into(), value: PersistedValue::Int(3), expires_at: Some(60) },
        PersistedEntry { key: "gone".into(), value: PersistedValue::Int(1), expires_at: Some(50) },
    ];
    let mut s = restore(entries, 50, 1_000);
    assert_eq!(s.get_at("k", 1_000), Some("3".into()));
    assert_eq!(s.ttl_at("k", 1_000), 10);
    assert_eq!(s.get_at("gone", 1_000), None);
}

#[test]
fn default_config() {
    let c = Config::default();
    assert_eq!(c.port, 9736);
    assert_eq!(c.host, "0.0.0.0");
    assert_eq!(c.snapshot_path.as_deref(), Some("dump.json"));
    assert_eq!(c.flush_interval, 300);
    assert_eq!(c.password, None);
}

#[test]
fn command_line_overrides_file_overrides_default() {
    let mut cli = PartialConfig::empty();
    cli.port = Some(7000);
    cli.password = Some("cli".into());
    let mut file = PartialConfig::empty();
    file.port = Some(8000);
    file.host = Some("127.0.0.1".into());
    file.flush_interval = Some(10);
    file.password = Some("file".into());
    let c = build_config(cli, file);
    assert_eq!(c.port, 7000);
    assert_eq!(c.host, "127.0.0.1");
    assert_eq!(c.snapshot_path.as_deref(), Some("dump.json"));
    assert_eq!(c.flush_interval, 10);
    assert_eq!(c.password.as_deref(), Some("cli"));
}

#[test]
fn empty_settings_give_defaults() {
    let c = build_config(PartialConfig::empty(), PartialConfig::empty());
    assert_eq!(c.port, 9736);
    assert_eq!(c.host, "0.0.0.0");
    assert_eq!(c.password, None);
}
