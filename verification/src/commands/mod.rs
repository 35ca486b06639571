//! The commands that work on the shared data.
pub mod misc;
pub mod strings;
pub mod ttl;

use vstd::prelude::*;

use crate::protocol::{NormalCommand, NormalSpec, RespSpec, RespValue};
use crate::pubsub::{deliveries, publish_spec, slow_queues, subscribers, PubSubView, SendOutcome};
use crate::server::Shared;
use crate::store::entry::EntrySpec;
use crate::store::{expire_spec, get_spec, incr_spec, live, set_spec, ttl_spec};
use misc::ping_spec;
use strings::{bool_reply, del_keys_spec, get_reply, incr_reply};

verus! {

/// What a command does to the store and the channels at the moment `now`, and its
/// reply; `o` holds what the subscribers' queues answered to a publish.
pub open spec fn normal_step(
    c: NormalSpec,
    st: Map<Seq<char>, EntrySpec>,
    ps: Map<Seq<char>, Seq<u64>>,
    now: u128,
    o: Seq<SendOutcome>,
) -> (RespSpec, Map<Seq<char>, EntrySpec>, Map<Seq<char>, Seq<u64>>) {
    match c {
        NormalSpec::Ping(m) => (ping_spec(m), st, ps),
        NormalSpec::Echo(m) => (RespSpec::Bulk(m), st, ps),
        NormalSpec::Get(k) => {
            let (v, st1) = get_spec(st, k, now);
            (get_reply(v), st1, ps)
        },
        NormalSpec::SetValue(k, v) => (RespSpec::Simple("OK"@), set_spec(st, k, v, None, now), ps),
        NormalSpec::Del(k) => (bool_reply(live(st, k, now)), st.remove(k), ps),
        NormalSpec::Exists(k) => (bool_reply(live(st, k, now)), st, ps),
        NormalSpec::Incr(k) => {
            let (x, st1) = incr_spec(st, k, 1, now);
            (incr_reply(x), st1, ps)
        },
        NormalSpec::Decr(k) => {
            let (x, st1) = incr_spec(st, k, -1i64, now);
            (incr_reply(x), st1, ps)
        },
        NormalSpec::Expire(k, s) => {
            let (b, st1) = expire_spec(st, k, s, now);
            (bool_reply(b), st1, ps)
        },
        NormalSpec::Ttl(k) => (RespSpec::Integer(ttl_spec(st, k, now)), st, ps),
        NormalSpec::Publish(ch, _) => {
            let (n, ps1) = publish_spec(ps, ch, o);
            (RespSpec::Integer(n as i64), st, ps1)
        },
    }
}

/// What a command adds to the record of the queues, with `o` what the subscribers'
/// queues answered: a publish hands the message to the registered queue of each
/// subscriber of the channel, each answering in turn, and signals on the registered
/// queue of each subscriber whose queue was full; any other command adds nothing.
pub open spec fn logs_step(c: NormalSpec, p0: PubSubView, p1: PubSubView, o: Seq<SendOutcome>) -> bool {
    match c {
        NormalSpec::Publish(ch, m) => {
            &&& p1.sent == p0.sent + deliveries(subscribers(p0.channels, ch), (ch, m), ch, p0.queues, o)
            &&& p1.signalled == p0.signalled + slow_queues(subscribers(p0.channels, ch), o, ch, p0.queues)
        },
        _ => {
            &&& p1.sent == p0.sent
            &&& p1.signalled == p0.signalled
        },
    }
}

/// The outcomes of a publish answer for each subscriber of the channel.
pub open spec fn outcomes_fit(c: NormalSpec, ps: Map<Seq<char>, Seq<u64>>, o: Seq<SendOutcome>) -> bool {
    match c {
        NormalSpec::Publish(ch, _) => o.len() == subscribers(ps, ch).len(),
        _ => true,
    }
}

/// Runs a command on the shared data and gives its reply.
pub fn execute(cmd: NormalCommand, shared: &mut Shared) -> (r: RespValue)
    requires
        old(shared).wf(),
    ensures
        final(shared).wf(),
        exists|now: u128, o: Seq<SendOutcome>|
            outcomes_fit(cmd@, old(shared).pubsub@.channels, o) && (r@, final(shared).store@, final(shared).pubsub@.channels)
                == #[trigger] normal_step(cmd@, old(shared).store@, old(shared).pubsub@.channels, now, o)
                && logs_step(cmd@, old(shared).pubsub@, final(shared).pubsub@, o),
        final(shared).pubsub@.next_client_id == old(shared).pubsub@.next_client_id,
        final(shared).pubsub@.queues == old(shared).pubsub@.queues,
        final(shared).config == old(shared).config,
{
    let ghost c = cmd@;
    let ghost st = shared.store@;
    let ghost ps = shared.pubsub@.channels;
    let ghost none = Seq::<SendOutcome>::empty();
    match cmd {
        NormalCommand::Ping(msg) => {
            let r = misc::ping(msg);
            assert(normal_step(c, st, ps, 0, none) == (r@, st, ps));
            r
        },
        NormalCommand::Echo(msg) => {
            let r = misc::echo(msg);
            assert(normal_step(c, st, ps, 0, none) == (r@, st, ps));
            r
        },
        NormalCommand::Get { key } => {
            let r = strings::get(shared, key);
            proof {
                let now = choose|now: u128| (r@, shared.store@) == ({
                    let (v, m) = #[trigger] get_spec(st, c->Get_0, now);
                    (get_reply(v), m)
                });
                assert(normal_step(c, st, ps, now, none) == (r@, shared.store@, ps));
            }
            r
        },
        NormalCommand::SetValue { key, value } => {
            let r = strings::set(shared, key, value, None);
            proof {
                let now = choose|now: u128| shared.store@ == #[trigger] set_spec(st, c->SetValue_0, c->SetValue_1, strings::ttl_ms_of(None), now);
                assert(normal_step(c, st, ps, now, none) == (r@, shared.store@, ps));
            }
            r
        },
        NormalCommand::Del { key } => {
            let mut keys: Vec<String> = Vec::new();
            keys.push(key);
            let ghost ks = crate::protocol::strings_view(keys@);
            proof {
                assert(ks =~= seq![c->Del_0]);
            }
            let r = strings::del(shared, keys);
            proof {
                let now = choose|now: u128| (r@, shared.store@) == ({
                    let (n, m) = #[trigger] del_keys_spec(st, ks, now);
                    (RespSpec::Integer(n as i64), m)
                });
                assert(ks.drop_last() =~= Seq::<Seq<char>>::empty());
                assert(del_keys_spec(st, ks.drop_last(), now) == (0int, st));
                assert(normal_step(c, st, ps, now, none) == (r@, shared.store@, ps));
            }
            r
        },
        NormalCommand::Exists { key } => {
            let r = strings::key_exists(shared, key);
            proof {
                let now = choose|now: u128| r@ == bool_reply(#[trigger] live(st, c->Exists_0, now));
                assert(normal_step(c, st, ps, now, none) == (r@, st, ps));
            }
            r
        },
        NormalCommand::Incr { key } => {
            let r = strings::incr(shared, key);
            proof {
                let now = choose|now: u128| (r@, shared.store@) == ({
                    let (x, m) = #[trigger] incr_spec(st, c->Incr_0, 1, now);
                    (incr_reply(x), m)
                });
                assert(normal_step(c, st, ps, now, none) == (r@, shared.store@, ps));
            }
            r
        },
        NormalCommand::Decr { key } => {
            let r = strings::decr(shared, key);
            proof {
                let now = choose|now: u128| (r@, shared.store@) == ({
                    let (x, m) = #[trigger] incr_spec(st, c->Decr_0, -1i64, now);
                    (incr_reply(x), m)
                });
                assert(normal_step(c, st, ps, now, none) == (r@, shared.store@, ps));
            }
            r
        },
        NormalCommand::Expire { key, seconds } => {
            let r = ttl::expire(shared, key.as_str(), seconds);
            proof {
                let now = choose|now: u128| (r@, shared.store@) == ({
                    let (b, m) = #[trigger] expire_spec(st, c->Expire_0, c->Expire_1, now);
                    (bool_reply(b), m)
                });
                assert(normal_step(c, st, ps, now, none) == (r@, shared.store@, ps));
            }
            r
        },
        NormalCommand::Ttl { key } => {
            let r = ttl::ttl(shared, key.as_str());
            proof {
                let now = choose|now: u128| r@ == RespSpec::Integer(#[trigger] ttl_spec(st, c->Ttl_0, now));
                assert(normal_step(c, st, ps, now, none) == (r@, st, ps));
            }
            r
        },
        NormalCommand::Publish { channel, message } => {
            let delivered = shared.pubsub.publish(channel.as_str(), message);
            let r = RespValue::Integer(delivered as i64);
            proof {
                let p0 = old(shared).pubsub@;
                let ch = c->Publish_0;
                let m = c->Publish_1;
                let o = choose|o: Seq<SendOutcome>|
                    o.len() == subscribers(ps, ch).len() && shared.pubsub@.sent
                        == p0.sent + deliveries(subscribers(ps, ch), (ch, m), ch, p0.queues, o)
                        && (delivered as nat, shared.pubsub@.channels) == #[trigger] publish_spec(ps, ch, o)
                        && shared.pubsub@.signalled == p0.signalled + slow_queues(subscribers(ps, ch), o, ch, p0.queues);
                assert(normal_step(c, st, ps, 0, o) == (r@, st, shared.pubsub@.channels));
                assert(logs_step(c, p0, shared.pubsub@, o));
            }
            r
        },
    }
}

} // verus!
