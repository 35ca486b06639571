use redis_app::commands::misc::{echo, ping};
use redis_app::commands::strings;
use redis_app::commands::strings::{copy, decr, del, get, incr, incrby, key_exists};
use redis_app::commands::ttl::{expire, persist, ttl};
use redis_app::commands::execute;
use redis_app::config::Config;
use redis_app::protocol::{NormalCommand, RespValue};
use redis_app::server::Shared;
use redis_app::store::Store;

fn shared() -> Shared {
    Shared::new(Config::default(), Store::new())
}

fn integer_of(r: &RespValue) -> i64 {
    match r {
        RespValue::Integer(n) => *n,
        other => panic!("expected integer, got {other:?}"),
    }
}

#[test]
fn ping_and_echo() {
    assert!(matches!(ping(None), RespValue::Simple(s) if s == "PONG"));
    assert!(matches!(ping(Some("hi".into())), RespValue::Bulk(s) if s == "hi"));
    assert!(matches!(echo("rust".into()), RespValue::Bulk(s) if s == "rust"));
}

#[test]
fn set_get_and_del_many() {
    let mut sh = shared();
    assert!(matches!(strings::set(&mut sh, "a".into(), "1".into(), None), RespValue::Simple(s) if s == "OK"));
    strings::set(&mut sh, "b".into(), "2".into(), Some(60));
    assert!(matches!(get(&mut sh, "a".into()), RespValue::Bulk(s) if s == "1"));
    let left = integer_of(&ttl(&sh, "b"));
    assert!(left == 60 || left == 59);
    assert_eq!(integer_of(&del(&mut sh, vec!["a".into(), "b".into(), "c".into(), "a".into()])), 2);
    assert!(matches!(get(&mut sh, "a".into()), RespValue::Nil));
    assert_eq!(integer_of(&key_exists(&sh, "b".into())), 0);
}

#[test]
fn counters() {
    let mut sh = shared();
    assert_eq!(integer_of(&incr(&mut sh, "n".into())), 1);
    assert_eq!(integer_of(&incrby(&mut sh, "n".into(), 10)), 11);
    assert_eq!(integer_of(&decr(&mut sh, "n".into())), 10);
    strings::set(&mut sh, "t".into(), "x".into(), None);
    assert!(matches!(incr(&mut sh, "t".into()), RespValue::Error(s) if s == "value is not an integer or out of range"));
    strings::set(&mut sh, "m".into(), i64::MIN.to_string(), None);
    assert!(matches!(decr(&mut sh, "m".into()), RespValue::Error(s) if s == "increment or decrement would overflow"));
}

#[test]
fn expire_ttl_persist_and_copy() {
    let mut sh = shared();
    assert_eq!(integer_of(&expire(&mut sh, "k", 10)), 0);
    strings::set(&mut sh, "k".into(), "v".into(), None);
    assert_eq!(integer_of(&expire(&mut sh, "k", 10)), 1);
    let left = integer_of(&ttl(&sh, "k"));
    assert!(left == 10 || left == 9);
    assert_eq!(integer_of(&persist(&mut sh, "k")), 1);
    assert_eq!(integer_of(&ttl(&sh, "k")), -1);
    assert_eq!(integer_of(&persist(&mut sh, "nope")), 0);
    assert_eq!(integer_of(&copy(&mut sh, "k".into(), "k2".into(), false)), 1);
    assert_eq!(integer_of(&copy(&mut sh, "k".into(), "k2".into(), false)), 0);
    assert_eq!(integer_of(&copy(&mut sh, "k".into(), "k2".into(), true)), 1);
    assert!(matches!(get(&mut sh, "k2".into()), RespValue::Bulk(s) if s == "v"));
}

#[test]
fn execute_runs_each_command() {
    let mut sh = shared();
    let r = execute(NormalCommand::SetValue { key: "k".into(), value: "v".into() }, &mut sh);
    assert!(matches!(r, RespValue::Simple(s) if s == "OK"));
    let r = execute(NormalCommand::Exists { key: "k".into() }, &mut sh);
    assert_eq!(integer_of(&r), 1);
    let r = execute(NormalCommand::Expire { key: "k".into(), seconds: 100 }, &mut sh);
    assert_eq!(integer_of(&r), 1);
    let r = execute(NormalCommand::Ttl { key: "k".into() }, &mut sh);
    assert!(integer_of(&r) >= 99);
    let r = execute(NormalCommand::Publish { channel: "c".into(), message: "m".into() }, &mut sh);
    assert_eq!(integer_of(&r), 0);
    let r = execute(NormalCommand::Del { key: "k".into() }, &mut sh);
    assert_eq!(integer_of(&r), 1);
    let r = execute(NormalCommand::Get { key: "k".into() }, &mut sh);
    assert!(matches!(r, RespValue::Nil));
    let r = execute(NormalCommand::Incr { key: "c".into() }, &mut sh);
    assert_eq!(integer_of(&r), 1);
    let r = execute(NormalCommand::Decr { key: "c".into() }, &mut sh);
    assert_eq!(integer_of(&r), 0);
    let r = execute(NormalCommand::Echo("e".into()), &mut sh);
    assert!(matches!(r, RespValue::Bulk(s) if s == "e"));
    let r = execute(NormalCommand::Ping(None), &mut sh);
    assert!(matches!(r, RespValue::Simple(s) if s == "PONG"));
}
