//! SET, GET, DEL, EXISTS, INCR, DECR, INCRBY and COPY.
use vstd::prelude::*;

use crate::clock::{now_millis, ClockReads};
use crate::protocol::{strings_view, RespSpec, RespValue};
use crate::server::Shared;
use crate::store::entry::EntrySpec;
use crate::store::{copy_spec, get_spec, incr_spec, live, set_spec, IncrError};

verus! {

pub open spec fn get_reply(v: Option<Seq<char>>) -> RespSpec {
    match v {
        Some(s) => RespSpec::Bulk(s),
        None => RespSpec::Nil,
    }
}

pub open spec fn bool_reply(b: bool) -> RespSpec {
    RespSpec::Integer(
        if b {
            1
        } else {
            0
        },
    )
}

pub open spec fn incr_reply(r: Result<i64, IncrError>) -> RespSpec {
    match r {
        Ok(n) => RespSpec::Integer(n),
        Err(e) => RespSpec::Error(e.message_spec()),
    }
}

/// Deleting the keys one after the other: how many of them were live, and the store
/// without them.
pub open spec fn del_keys_spec(m: Map<Seq<char>, EntrySpec>, keys: Seq<Seq<char>>, now: u128) -> (
    int,
    Map<Seq<char>, EntrySpec>,
)
    decreases keys.len(),
{
    if keys.len() == 0 {
        (0, m)
    } else {
        let (c, m1) = del_keys_spec(m, keys.drop_last(), now);
        (
            c + if live(m1, keys.last(), now) {
                1int
            } else {
                0int
            },
            m1.remove(keys.last()),
        )
    }
}

/// A time to live in seconds, in milliseconds.
pub open spec fn ttl_ms_of(ttl: Option<u64>) -> Option<u128> {
    match ttl {
        Some(s) => Some((s as u128 * 1000) as u128),
        None => None,
    }
}

fn bool_to_int(b: bool) -> (n: i64)
    ensures
        RespSpec::Integer(n) == bool_reply(b),
{
    if b {
        1
    } else {
        0
    }
}

/// Stores text under the key, replacing any value; with `ttl` it expires after that
/// many seconds.
pub fn set(shared: &mut Shared, key: String, value: String, ttl: Option<u64>) -> (r: RespValue)
    requires
        old(shared).wf(),
    ensures
        final(shared).wf(),
        r@ == RespSpec::Simple("OK"@),
        exists|now: u128|
            final(shared).store@ == #[trigger] set_spec(
                old(shared).store@,
                key@,
                value@,
                ttl_ms_of(ttl),
                now,
            ) && final(shared).store.clock_reads() == old(shared).store.clock_reads().push(now),
        final(shared).pubsub == old(shared).pubsub,
        final(shared).config == old(shared).config,
{
    let now = shared.store.read_clock();
    let ttl_ms = match ttl {
        Some(s) => Some(s as u128 * 1000),
        None => None,
    };
    shared.store.set_at(key, value, ttl_ms, now);
    RespValue::Simple("OK".to_string())
}

/// The value under the key as a bulk string, or nil.
pub fn get(shared: &mut Shared, key: String) -> (r: RespValue)
    requires
        old(shared).wf(),
    ensures
        final(shared).wf(),
        exists|now: u128|
            (r@, final(shared).store@) == ({
                let (v, m) = #[trigger] get_spec(old(shared).store@, key@, now);
                (get_reply(v), m)
            }) && final(shared).store.clock_reads() == old(shared).store.clock_reads().push(now),
        final(shared).pubsub == old(shared).pubsub,
        final(shared).config == old(shared).config,
{
    let now = shared.store.read_clock();
    match shared.store.get_at(key.as_str(), now) {
        Some(x) => RespValue::Bulk(x),
        None => RespValue::Nil,
    }
}

/// Deletes the keys; replies with how many of them were live.
pub fn del(shared: &mut Shared, keys: Vec<String>) -> (r: RespValue)
    requires
        old(shared).wf(),
        keys@.len() <= i64::MAX,
    ensures
        final(shared).wf(),
        exists|now: u128|
            (r@, final(shared).store@) == ({
                let (c, m) = #[trigger] del_keys_spec(old(shared).store@, strings_view(keys@), now);
                (RespSpec::Integer(c as i64), m)
            }) && final(shared).store.clock_reads() == old(shared).store.clock_reads().push(now),
        final(shared).pubsub == old(shared).pubsub,
        final(shared).config == old(shared).config,
{
    let now = shared.store.read_clock();
    let ghost ks = strings_view(keys@);
    let mut count: i64 = 0;
    let mut i: usize = 0;
    while i < keys.len()
        invariant
            i <= keys@.len(),
            keys@.len() <= i64::MAX,
            ks == strings_view(keys@),
            (count as int, shared.store@) == del_keys_spec(old(shared).store@, ks.take(i as int), now),
            shared.store.clock_reads() == old(shared).store.clock_reads().push(now),
            0 <= count <= i,
            shared.pubsub == old(shared).pubsub,
            shared.config == old(shared).config,
        decreases keys.len() - i,
    {
        let removed = shared.store.del_at(keys[i].as_str(), now);
        proof {
            assert(ks.take(i + 1).drop_last() =~= ks.take(i as int));
            assert(ks[i as int] == keys@[i as int]@);
        }
        if removed {
            count += 1;
        }
        i += 1;
    }
    proof {
        assert(ks.take(i as int) =~= ks);
    }
    RespValue::Integer(count)
}

/// 1 if the key is live, else 0.
pub fn key_exists(shared: &Shared, key: String) -> (r: RespValue)
    ensures
        exists|now: u128| r@ == bool_reply(live(shared.store@, key@, now)),
{
    let mut reads = ClockReads::new();
    let now = now_millis(&mut reads);
    RespValue::Integer(bool_to_int(shared.store.key_exists_at(key.as_str(), now)))
}

pub fn incr(shared: &mut Shared, key: String) -> (r: RespValue)
    requires
        old(shared).wf(),
    ensures
        final(shared).wf(),
        exists|now: u128|
            (r@, final(shared).store@) == ({
                let (x, m) = #[trigger] incr_spec(old(shared).store@, key@, 1, now);
                (incr_reply(x), m)
            }) && final(shared).store.clock_reads() == old(shared).store.clock_reads().push(now),
        final(shared).pubsub == old(shared).pubsub,
        final(shared).config == old(shared).config,
{
    apply_delta(shared, key, 1)
}

pub fn decr(shared: &mut Shared, key: String) -> (r: RespValue)
    requires
        old(shared).wf(),
    ensures
        final(shared).wf(),
        exists|now: u128|
            (r@, final(shared).store@) == ({
                let (x, m) = #[trigger] incr_spec(old(shared).store@, key@, -1i64, now);
                (incr_reply(x), m)
            }) && final(shared).store.clock_reads() == old(shared).store.clock_reads().push(now),
        final(shared).pubsub == old(shared).pubsub,
        final(shared).config == old(shared).config,
{
    apply_delta(shared, key, -1)
}

pub fn incrby(shared: &mut Shared, key: String, value: i64) -> (r: RespValue)
    requires
        old(shared).wf(),
    ensures
        final(shared).wf(),
        exists|now: u128|
            (r@, final(shared).store@) == ({
                let (x, m) = #[trigger] incr_spec(old(shared).store@, key@, value, now);
                (incr_reply(x), m)
            }) && final(shared).store.clock_reads() == old(shared).store.clock_reads().push(now),
        final(shared).pubsub == old(shared).pubsub,
        final(shared).config == old(shared).config,
{
    apply_delta(shared, key, value)
}

/// Copies the value of `source` to `destination`; 1 if it did, else 0.
pub fn copy(shared: &mut Shared, source: String, destination: String, replace: bool) -> (r: RespValue)
    requires
        old(shared).wf(),
    ensures
        final(shared).wf(),
        exists|now: u128|
            (r@, final(shared).store@) == ({
                let (b, m) = #[trigger] copy_spec(old(shared).store@, source@, destination@, replace, now);
                (bool_reply(b), m)
            }) && final(shared).store.clock_reads() == old(shared).store.clock_reads().push(now),
        final(shared).pubsub == old(shared).pubsub,
        final(shared).config == old(shared).config,
{
    let now = shared.store.read_clock();
    let b = shared.store.copy_at(source.as_str(), destination.as_str(), replace, now);
    RespValue::Integer(bool_to_int(b))
}

/// INCR, DECR and INCRBY: the new integer, or the reason it failed.
fn apply_delta(shared: &mut Shared, key: String, delta: i64) -> (r: RespValue)
    requires
        old(shared).wf(),
    ensures
        final(shared).wf(),
        exists|now: u128|
            (r@, final(shared).store@) == ({
                let (x, m) = #[trigger] incr_spec(old(shared).store@, key@, delta, now);
                (incr_reply(x), m)
            }) && final(shared).store.clock_reads() == old(shared).store.clock_reads().push(now),
        final(shared).pubsub == old(shared).pubsub,
        final(shared).config == old(shared).config,
{
    let now = shared.store.read_clock();
    match shared.store.incrby_at(key.as_str(), delta, now) {
        Ok(x) => RespValue::Integer(x),
        Err(m) => RespValue::Error(m.message()),
    }
}

} // verus!
