//! EXPIRE, TTL and PERSIST.
use vstd::prelude::*;

use crate::clock::{now_millis, ClockReads};
use crate::commands::strings::bool_reply;
use crate::protocol::{RespSpec, RespValue};
use crate::server::Shared;
use crate::store::{expire_spec, persist_spec, ttl_spec};

verus! {

/// Gives the key a time to live; 1 if it is live, else 0.
pub fn expire(shared: &mut Shared, key: &str, seconds: u64) -> (r: RespValue)
    requires
        old(shared).wf(),
    ensures
        final(shared).wf(),
        exists|now: u128|
            (r@, final(shared).store@) == ({
                let (b, m) = #[trigger] expire_spec(old(shared).store@, key@, seconds, now);
                (bool_reply(b), m)
            }) && final(shared).store.clock_reads() == old(shared).store.clock_reads().push(now),
        final(shared).pubsub == old(shared).pubsub,
        final(shared).config == old(shared).config,
{
    let now = shared.store.read_clock();
    let b = shared.store.expire_at(key, seconds, now);
    RespValue::Integer(
        if b {
            1
        } else {
            0
        },
    )
}

/// The seconds the key has left: -1 without a time to live, -2 when missing.
pub fn ttl(shared: &Shared, key: &str) -> (r: RespValue)
    ensures
        exists|now: u128| r@ == RespSpec::Integer(ttl_spec(shared.store@, key@, now)),
{
    let mut reads = ClockReads::new();
    let now = now_millis(&mut reads);
    RespValue::Integer(shared.store.ttl_at(key, now))
}

/// Drops the key's time to live; 1 if it is live, else 0.
pub fn persist(shared: &mut Shared, key: &str) -> (r: RespValue)
    requires
        old(shared).wf(),
    ensures
        final(shared).wf(),
        exists|now: u128|
            (r@, final(shared).store@) == ({
                let (b, m) = #[trigger] persist_spec(old(shared).store@, key@, now);
                (bool_reply(b), m)
            }) && final(shared).store.clock_reads() == old(shared).store.clock_reads().push(now),
        final(shared).pubsub == old(shared).pubsub,
        final(shared).config == old(shared).config,
{
    let now = shared.store.read_clock();
    let b = shared.store.persist_at(key, now);
    RespValue::Integer(
        if b {
            1
        } else {
            0
        },
    )
}

} // verus!
