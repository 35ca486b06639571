//! What holds of the store across operations.
use vstd::prelude::*;

use crate::store::entry::{EntrySpec, ValueSpec};
use crate::store::{
    copy_spec, expire_spec, get_spec, incr_spec, is_snapshot_of, live, persist_spec, purge_spec, sat_add, set_spec,
    snapshot_map, ttl_spec, IncrError,
};
use crate::strutil::dec_int;

verus! {

/// A value stored without a time to live reads back as it was written, at any later
/// time.
pub proof fn law_get_after_set(
    m: Map<Seq<char>, EntrySpec>,
    k: Seq<char>,
    v: Seq<char>,
    t_set: u128,
    t_get: u128,
)
    ensures
        get_spec(set_spec(m, k, v, None, t_set), k, t_get).0 == Some(v),
{
}

/// A value stored with a time to live reads back until that time has passed, and
/// reads as missing from then on.
pub proof fn law_get_after_set_with_ttl(
    m: Map<Seq<char>, EntrySpec>,
    k: Seq<char>,
    v: Seq<char>,
    ttl_ms: u128,
    t_set: u128,
    t_get: u128,
)
    requires
        t_set + ttl_ms <= u128::MAX,
    ensures
        t_get < t_set + ttl_ms ==> get_spec(set_spec(m, k, v, Some(ttl_ms), t_set), k, t_get).0
            == Some(v),
        t_get >= t_set + ttl_ms ==> get_spec(set_spec(m, k, v, Some(ttl_ms), t_set), k, t_get).0
            is None,
{
}

/// Storing under one key leaves what the other keys read.
pub proof fn law_set_keeps_other_keys(
    m: Map<Seq<char>, EntrySpec>,
    k: Seq<char>,
    other: Seq<char>,
    v: Seq<char>,
    ttl_ms: Option<u128>,
    t_set: u128,
    t_get: u128,
)
    requires
        k != other,
    ensures
        get_spec(set_spec(m, k, v, ttl_ms, t_set), other, t_get).0 == get_spec(m, other, t_get).0,
{
}

/// A key that was never stored reads as missing, has no time to live (-2), and
/// cannot be given one.
pub proof fn law_missing_key(m: Map<Seq<char>, EntrySpec>, k: Seq<char>, seconds: u64, now: u128)
    requires
        !m.contains_key(k),
    ensures
        get_spec(m, k, now).0 is None,
        !live(m, k, now),
        ttl_spec(m, k, now) == -2,
        expire_spec(m, k, seconds, now) == (false, m),
{
}

/// After a key is deleted it no longer exists and reads as missing.
pub proof fn law_gone_after_del(m: Map<Seq<char>, EntrySpec>, k: Seq<char>, now: u128)
    ensures
        !live(m.remove(k), k, now),
        get_spec(m.remove(k), k, now).0 is None,
{
}

/// A key stored without a time to live reports -1 as its time to live.
pub proof fn law_ttl_without_expiry(m: Map<Seq<char>, EntrySpec>, k: Seq<char>, v: Seq<char>, t_set: u128, now: u128)
    ensures
        ttl_spec(set_spec(m, k, v, None, t_set), k, now) == -1,
{
}

/// Incrementing a missing key starts from 0.
pub proof fn law_incr_missing(m: Map<Seq<char>, EntrySpec>, k: Seq<char>, delta: i64, now: u128)
    requires
        !m.contains_key(k),
    ensures
        incr_spec(m, k, delta, now).0 == Ok::<i64, IncrError>(delta),
        get_spec(incr_spec(m, k, delta, now).1, k, now).0 == Some(dec_int(delta as int)),
{
}

/// A key whose time to live has passed counts as missing: the increment starts from
/// 0, and the key then holds `delta` without a time to live.
pub proof fn law_incr_expired(m: Map<Seq<char>, EntrySpec>, k: Seq<char>, delta: i64, now: u128)
    requires
        m.contains_key(k),
        m[k].expired(now),
    ensures
        incr_spec(m, k, delta, now).0 == Ok::<i64, IncrError>(delta),
        get_spec(incr_spec(m, k, delta, now).1, k, now).0 == Some(dec_int(delta as int)),
        ttl_spec(incr_spec(m, k, delta, now).1, k, now) == -1,
{
}

/// Two increments in a row add up: the second starts where the first ended.
pub proof fn law_incr_twice(
    m: Map<Seq<char>, EntrySpec>,
    k: Seq<char>,
    d1: i64,
    d2: i64,
    now: u128,
)
    requires
        incr_spec(m, k, d1, now).0 is Ok,
        incr_spec(m, k, d1, now).0->Ok_0 + d2 <= i64::MAX,
        incr_spec(m, k, d1, now).0->Ok_0 + d2 >= i64::MIN,
    ensures
        incr_spec(incr_spec(m, k, d1, now).1, k, d2, now).0 == Ok::<i64, IncrError>(
            (incr_spec(m, k, d1, now).0->Ok_0 + d2) as i64,
        ),
{
}

/// A value that is not an integer cannot be incremented, and stays as it was.
pub proof fn law_incr_text(m: Map<Seq<char>, EntrySpec>, k: Seq<char>, v: Seq<char>, t_set: u128, now: u128)
    requires
        crate::strutil::parse_i64_spec(v) is None,
    ensures
        incr_spec(set_spec(m, k, v, None, t_set), k, 1, now).0 == Err::<i64, IncrError>(
            IncrError::NotInteger,
        ),
        get_spec(incr_spec(set_spec(m, k, v, None, t_set), k, 1, now).1, k, now).0 == Some(v),
{
    let m1 = set_spec(m, k, v, None, t_set);
    assert(incr_spec(m1, k, 1, now).1 =~= m1);
}

/// Removing expired entries changes what no key reads at that time.
pub proof fn law_purge_keeps_reads(m: Map<Seq<char>, EntrySpec>, k: Seq<char>, now: u128)
    ensures
        get_spec(purge_spec(m, now), k, now).0 == get_spec(m, k, now).0,
        live(purge_spec(m, now), k, now) == live(m, k, now),
{
}

/// After a copy succeeds, the destination reads as the source.
pub proof fn law_copy_reads_as_source(
    m: Map<Seq<char>, EntrySpec>,
    src: Seq<char>,
    dst: Seq<char>,
    replace: bool,
    now: u128,
)
    requires
        copy_spec(m, src, dst, replace, now).0,
    ensures
        get_spec(copy_spec(m, src, dst, replace, now).1, dst, now).0 == get_spec(m, src, now).0,
{
}

proof fn lemma_snapshot_map(es: Seq<(Seq<char>, EntrySpec)>, k: Seq<char>)
    requires
        es.map_values(|e: (Seq<char>, EntrySpec)| e.0).no_duplicates(),
    ensures
        snapshot_map(es).contains_key(k) <==> exists|i: int| 0 <= i < es.len() && #[trigger] es[i].0 == k,
        forall|i: int| 0 <= i < es.len() && #[trigger] es[i].0 == k ==> snapshot_map(es)[k] == es[i].1,
    decreases es.len(),
{
    if es.len() > 0 {
        let init = es.drop_last();
        let names = es.map_values(|e: (Seq<char>, EntrySpec)| e.0);
        let inames = init.map_values(|e: (Seq<char>, EntrySpec)| e.0);
        assert(inames =~= names.drop_last());
        assert forall|a: int, b: int| 0 <= a < inames.len() && 0 <= b < inames.len() && a != b implies
            #[trigger] inames[a] != #[trigger] inames[b] by {
            assert(names[a] != names[b]);
        }
        lemma_snapshot_map(init, k);
        if es.last().0 == k {
            assert(es[es.len() - 1].0 == k);
            assert forall|i: int| 0 <= i < es.len() && #[trigger] es[i].0 == k implies i == es.len() - 1 by {
                if i != es.len() - 1 {
                    assert(names[i] == names[es.len() - 1]);
                }
            }
        } else {
            assert forall|i: int| 0 <= i < es.len() && #[trigger] es[i].0 == k implies i < es.len() - 1 && init[i].0 == k by {}
            if snapshot_map(es).contains_key(k) {
                let i = choose|i: int| 0 <= i < init.len() && #[trigger] init[i].0 == k;
                assert(es[i].0 == k);
            }
        }
    }
}

/// A store rebuilt from a snapshot taken at `now` reads, at that time, as the store
/// the snapshot was taken of.
pub proof fn law_snapshot_restores_reads(
    m: Map<Seq<char>, EntrySpec>,
    es: Seq<(Seq<char>, EntrySpec)>,
    k: Seq<char>,
    now: u128,
)
    requires
        is_snapshot_of(es, m, now),
    ensures
        get_spec(snapshot_map(es), k, now).0 == get_spec(m, k, now).0,
        ttl_spec(snapshot_map(es), k, now) == ttl_spec(m, k, now),
{
    lemma_snapshot_map(es, k);
    if snapshot_map(es).contains_key(k) {
        let i = choose|i: int| 0 <= i < es.len() && #[trigger] es[i].0 == k;
        assert(live(m, es[i].0, now));
    } else if live(m, k, now) {
        let i = choose|i: int| 0 <= i < es.len() && #[trigger] es[i].0 == k;
    }
}

/// EXPIRE on a live key gives it exactly the seconds asked, counted from the moment
/// of the call, whatever time to live it had before: TTL reads them back, the
/// value stays, and the key stays live
/// until that many seconds have passed, and no longer.
pub proof fn law_expire_sets_ttl(m: Map<Seq<char>, EntrySpec>, k: Seq<char>, s: u64, now: u128, t: u128)
    requires
        live(m, k, now),
        0 < s,
        now + s * 1000 <= u128::MAX,
    ensures
        expire_spec(m, k, s, now).0,
        s <= i64::MAX ==> ttl_spec(expire_spec(m, k, s, now).1, k, now) == s as i64,
        get_spec(expire_spec(m, k, s, now).1, k, now).0 == get_spec(m, k, now).0,
        live(expire_spec(m, k, s, now).1, k, t) <==> t < now + s * 1000,
{
    let ms: u128 = (s as u128 * 1000) as u128;
    assert(ms == s * 1000);
    let d: u128 = sat_add(now, ms);
    assert(d == now + ms);
    assert((d - now) / 1000 == s) by (nonlinear_arith)
        requires
            d - now == s * 1000,
    ;
    assert(expire_spec(m, k, s, now).1[k].expires_at == Some(d));
}

/// A second EXPIRE replaces the first: whatever the first one set, the key's time to
/// live is then the seconds the second one asked, counted from its own moment.
pub proof fn law_expire_replaces(
    m: Map<Seq<char>, EntrySpec>,
    k: Seq<char>,
    s1: u64,
    t1: u128,
    s2: u64,
    t2: u128,
)
    requires
        live(m, k, t1),
        t1 <= t2 < t1 + s1 * 1000,
        s2 > 0,
        t1 + s1 * 1000 <= u128::MAX,
        s2 <= i64::MAX,
        t2 + s2 * 1000 <= u128::MAX,
    ensures
        ttl_spec(expire_spec(expire_spec(m, k, s1, t1).1, k, s2, t2).1, k, t2) == s2 as i64,
{
    law_expire_sets_ttl(m, k, s1, t1, t2);
    law_expire_sets_ttl(expire_spec(m, k, s1, t1).1, k, s2, t2, t2);
}

/// The purge keeps exactly the entries live at its moment, each as it was, and
/// removes every other.
pub proof fn law_purge_keeps_live_entries(m: Map<Seq<char>, EntrySpec>, k: Seq<char>, now: u128)
    ensures
        purge_spec(m, now).contains_key(k) <==> live(m, k, now),
        live(m, k, now) ==> purge_spec(m, now)[k] == m[k],
{
}

/// PERSIST on a live key drops its time to live: from then on it never expires and
/// reads as before; on a key that is missing or has expired it does nothing.
pub proof fn law_persist_drops_ttl(m: Map<Seq<char>, EntrySpec>, k: Seq<char>, now: u128, t: u128)
    ensures
        persist_spec(m, k, now).0 == live(m, k, now),
        live(m, k, now) ==> ttl_spec(persist_spec(m, k, now).1, k, t) == -1
            && get_spec(persist_spec(m, k, now).1, k, t).0 == get_spec(m, k, now).0,
        !live(m, k, now) ==> persist_spec(m, k, now).1 == m,
{
}

/// A key given a time to live survives every purge that runs before that time has
/// passed, and reads as it did.
pub proof fn law_purge_spares_key_before_deadline(
    m: Map<Seq<char>, EntrySpec>,
    k: Seq<char>,
    s: u64,
    t1: u128,
    t2: u128,
)
    requires
        live(m, k, t1),
        0 < s,
        t1 + s * 1000 <= u128::MAX,
        t2 < t1 + s * 1000,
    ensures
        purge_spec(expire_spec(m, k, s, t1).1, t2).contains_key(k),
        get_spec(purge_spec(expire_spec(m, k, s, t1).1, t2), k, t2).0 == get_spec(m, k, t1).0,
{
    law_expire_sets_ttl(m, k, s, t1, t2);
}

} // verus!
