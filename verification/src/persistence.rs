//! The snapshot that survives a restart: the live entries, each with the Unix time
//! (in seconds) at which it expires.
use vstd::prelude::*;

use crate::store::entry::{EntrySpec, EntryValue, StoreEntry, ValueSpec};
use crate::store::{
    get_spec, is_snapshot_of, live, sat_add, snapshot_view, ttl_spec, SnapshotEntry, Store,
};

verus! {

/// A value as the snapshot holds it.
#[derive(Debug)]
pub enum PersistedValue {
    Str(String),
    Int(i64),
}

/// An entry as the snapshot holds it: the moment it expires in whole seconds since the
/// Unix epoch.
#[derive(Debug)]
pub struct PersistedEntry {
    pub key: String,
    pub value: PersistedValue,
    pub expires_at: Option<u64>,
}

/// The snapshot written to disk.
#[derive(Debug)]
pub struct PersistenceData {
    pub entries: Vec<PersistedEntry>,
    pub timestamp: u64,
}

impl View for PersistedValue {
    type V = ValueSpec;

    open spec fn view(&self) -> ValueSpec {
        match self {
            PersistedValue::Str(s) => ValueSpec::Str(s@),
            PersistedValue::Int(n) => ValueSpec::Int(*n),
        }
    }
}

impl View for PersistedEntry {
    type V = (Seq<char>, ValueSpec, Option<u64>);

    open spec fn view(&self) -> (Seq<char>, ValueSpec, Option<u64>) {
        (self.key@, self.value@, self.expires_at)
    }
}

pub open spec fn persisted_view(es: Seq<PersistedEntry>) -> Seq<(Seq<char>, ValueSpec, Option<u64>)> {
    es.map_values(|e: PersistedEntry| e@)
}

/// `a + b`, or the largest `u64` when that overflows.
pub open spec fn sat_add_u64(a: u64, b: u64) -> u64 {
    if a + b > u64::MAX {
        u64::MAX
    } else {
        (a + b) as u64
    }
}

/// The Unix second at which an entry that expires at `t` (milliseconds on the store's
/// clock, which reads `now_ms`) expires, when the Unix clock reads `now_unix`: the
/// whole seconds left, counted from `now_unix`.
pub open spec fn persisted_expiry(t: u128, now_ms: u128, now_unix: u64) -> u64 {
    let left: int = if t > now_ms {
        (t - now_ms) / 1000
    } else {
        0
    };
    sat_add_u64(now_unix, left as u64)
}

/// A snapshot entry as it is saved.
pub open spec fn persist_entry(e: (Seq<char>, EntrySpec), now_ms: u128, now_unix: u64) -> (Seq<char>, ValueSpec, Option<u64>) {
    (
        e.0,
        e.1.value,
        match e.1.expires_at {
            Some(t) => Some(persisted_expiry(t, now_ms, now_unix)),
            None => None,
        },
    )
}

/// The moment (milliseconds on the store's clock) at which a saved entry expires
/// after a restart: the seconds it had left past `now_unix`, counted from `now_ms`.
/// An entry whose second has come is not restored (`None`).
pub open spec fn restored_expiry(x: u64, now_unix: u64, now_ms: u128) -> Option<u128> {
    if x <= now_unix {
        None
    } else {
        Some(sat_add(now_ms, ((x - now_unix) * 1000) as u128))
    }
}

/// The store that loading the saved entries gives, with the Unix clock at `now_unix`
/// and the store's clock at `now_ms`: the entries inserted in order, those that have
/// expired left out.
pub open spec fn restore_spec(
    es: Seq<(Seq<char>, ValueSpec, Option<u64>)>,
    now_unix: u64,
    now_ms: u128,
) -> Map<Seq<char>, EntrySpec>
    decreases es.len(),
{
    if es.len() == 0 {
        Map::empty()
    } else {
        let m = restore_spec(es.drop_last(), now_unix, now_ms);
        let e = es.last();
        match e.2 {
            None => m.insert(e.0, EntrySpec { value: e.1, expires_at: None }),
            Some(x) => match restored_expiry(x, now_unix, now_ms) {
                None => m,
                Some(t) => m.insert(e.0, EntrySpec { value: e.1, expires_at: Some(t) }),
            },
        }
    }
}

/// The current Unix time in whole seconds (`SystemTime::now`); zero before the epoch.
/// Nothing is promised of the value: it is whatever the system clock says.
#[verifier::external_body]
fn now_secs() -> u64 {
    match std::time::SystemTime::now().duration_since(std::time::UNIX_EPOCH) {
        Ok(d) => d.as_secs(),
        Err(_) => 0,
    }
}

fn persist_value(v: &EntryValue) -> (r: PersistedValue)
    ensures
        r@ == v@,
{
    match v {
        EntryValue::Str(s) => PersistedValue::Str(s.clone()),
        EntryValue::Int(n) => PersistedValue::Int(*n),
    }
}

/// The entries to save: the live entries of the store at `now_ms` on its clock, each
/// once, with its expiry as a Unix second given that the Unix clock reads `now_unix`.
pub fn snapshot_entries(store: &Store, now_ms: u128, now_unix: u64) -> (r: Vec<PersistedEntry>)
    ensures
        exists|es: Seq<(Seq<char>, EntrySpec)>|
            is_snapshot_of(es, store@, now_ms) && #[trigger] persisted_view(r@) == es.map_values(
                |e: (Seq<char>, EntrySpec)| persist_entry(e, now_ms, now_unix),
            ),
{
    let entries = store.to_snapshot_entries_at(now_ms);
    let ghost es = snapshot_view(entries@);
    let mut out: Vec<PersistedEntry> = Vec::new();
    let mut i: usize = 0;
    while i < entries.len()
        invariant
            i <= entries@.len(),
            es == snapshot_view(entries@),
            persisted_view(out@) == es.take(i as int).map_values(
                |e: (Seq<char>, EntrySpec)| persist_entry(e, now_ms, now_unix),
            ),
        decreases entries.len() - i,
    {
        let e = &entries[i];
        let expires_at = match e.expires_at {
            Some(t) => {
                let left: u128 = if t > now_ms {
                    (t - now_ms) / 1000
                } else {
                    0
                };
                Some(now_unix.saturating_add(left as u64))
            },
            None => None,
        };
        let p = PersistedEntry { key: e.key.clone(), value: persist_value(&e.value), expires_at };
        let ghost before = persisted_view(out@);
        out.push(p);
        proof {
            assert(es[i as int] == e@);
            assert(persisted_view(out@) =~= before.push(p@));
            assert(es.take(i + 1).map_values(|e: (Seq<char>, EntrySpec)| persist_entry(e, now_ms, now_unix))
                =~= es.take(i as int).map_values(|e: (Seq<char>, EntrySpec)| persist_entry(e, now_ms, now_unix)).push(
                persist_entry(es[i as int], now_ms, now_unix),
            ));
        }
        i += 1;
    }
    proof {
        assert(es.take(i as int) =~= es);
    }
    out
}

/// What is saved: the entries of [`snapshot_entries`] and the Unix time of the save.
pub fn save_data(store: &Store, now_ms: u128, now_unix: u64) -> (d: PersistenceData)
    ensures
        d.timestamp == now_unix,
        exists|es: Seq<(Seq<char>, EntrySpec)>|
            is_snapshot_of(es, store@, now_ms) && #[trigger] persisted_view(d.entries@) == es.map_values(
                |e: (Seq<char>, EntrySpec)| persist_entry(e, now_ms, now_unix),
            ),
{
    PersistenceData { entries: snapshot_entries(store, now_ms, now_unix), timestamp: now_unix }
}

/// The store that the saved entries give when they are loaded, with the Unix clock at
/// `now_unix` and the store's clock at `now_ms`: entries whose second has come are
/// left out.
pub fn restore(entries: Vec<PersistedEntry>, now_unix: u64, now_ms: u128) -> (s: Store)
    ensures
        s@ == restore_spec(persisted_view(entries@), now_unix, now_ms),
{
    let ghost es = persisted_view(entries@);
    let mut snapshot: Vec<SnapshotEntry> = Vec::new();
    let mut i: usize = 0;
    while i < entries.len()
        invariant
            i <= entries@.len(),
            es == persisted_view(entries@),
            crate::store::snapshot_map(snapshot_view(snapshot@)) == restore_spec(es.take(i as int), now_unix, now_ms),
        decreases entries.len() - i,
    {
        let e = &entries[i];
        let value = match &e.value {
            PersistedValue::Str(s) => EntryValue::Str(s.clone()),
            PersistedValue::Int(n) => EntryValue::Int(*n),
        };
        let expires_at: Option<Option<u128>> = match e.expires_at {
            None => Some(None),
            Some(x) => if x <= now_unix {
                None
            } else {
                Some(Some(now_ms.saturating_add((x - now_unix) as u128 * 1000)))
            },
        };
        proof {
            assert(es.take(i + 1).drop_last() =~= es.take(i as int));
            assert(es.take(i + 1).last() == e@);
        }
        match expires_at {
            None => {},
            Some(t) => {
                let ghost before = snapshot_view(snapshot@);
                let se = SnapshotEntry { key: e.key.clone(), value, expires_at: t };
                snapshot.push(se);
                proof {
                    assert(snapshot_view(snapshot@) =~= before.push(se@));
                    assert(snapshot_view(snapshot@).drop_last() =~= before);
                }
            },
        }
        i += 1;
    }
    proof {
        assert(es.take(i as int) =~= es);
    }
    Store::from_snapshot(snapshot)
}


/// The snapshot to save now: [`save_data`] at one reading of the Unix clock, taken
/// once for both: the store's clock (milliseconds since the epoch) is taken to read
/// that same second, so the seconds each entry has left are counted from the moment
/// of the save.
pub fn snapshot_now(store: &Store) -> (d: PersistenceData)
    ensures
        exists|now_ms: u128, es: Seq<(Seq<char>, EntrySpec)>|
            #[trigger] is_snapshot_of(es, store@, now_ms) && persisted_view(d.entries@) == es.map_values(
                |e: (Seq<char>, EntrySpec)| persist_entry(e, now_ms, d.timestamp),
            ) && now_ms == d.timestamp * 1000,
{
    let now_unix = now_secs();
    let now_ms = now_unix as u128 * 1000;
    save_data(store, now_ms, now_unix)
}

/// The store that loading saved entries gives now: [`restore`] at one reading of the
/// Unix clock, the store's clock taken to read that same second.
pub fn restore_now(entries: Vec<PersistedEntry>) -> (s: Store)
    ensures
        exists|now_unix: u64, now_ms: u128|
            s@ == #[trigger] restore_spec(persisted_view(entries@), now_unix, now_ms) && now_ms
                == now_unix * 1000,
{
    let now_unix = now_secs();
    let now_ms = now_unix as u128 * 1000;
    restore(entries, now_unix, now_ms)
}

// ---------------------------------------------------------------------------
// What a restart keeps
// ---------------------------------------------------------------------------

pub open spec fn persisted_of(es: Seq<(Seq<char>, EntrySpec)>, now_ms: u128, now_unix: u64) -> Seq<(Seq<char>, ValueSpec, Option<u64>)> {
    es.map_values(|e: (Seq<char>, EntrySpec)| persist_entry(e, now_ms, now_unix))
}

/// Whether a saved entry is restored at Unix second `u2`.
pub open spec fn restorable(p: (Seq<char>, ValueSpec, Option<u64>), u2: u64) -> bool {
    match p.2 {
        None => true,
        Some(x) => x > u2,
    }
}

proof fn lemma_restore(ps: Seq<(Seq<char>, ValueSpec, Option<u64>)>, k: Seq<char>, u2: u64, ms2: u128)
    requires
        forall|a: int, b: int| 0 <= a < ps.len() && 0 <= b < ps.len() && a != b ==> #[trigger] ps[a].0 != #[trigger] ps[b].0,
    ensures
        restore_spec(ps, u2, ms2).contains_key(k) <==> exists|i: int| 0 <= i < ps.len() && #[trigger] ps[i].0 == k && restorable(ps[i], u2),
        forall|i: int| 0 <= i < ps.len() && #[trigger] ps[i].0 == k && restorable(ps[i], u2) ==> restore_spec(ps, u2, ms2)[k] == (EntrySpec {
            value: ps[i].1,
            expires_at: match ps[i].2 {
                None => None,
                Some(x) => restored_expiry(x, u2, ms2),
            },
        }),
    decreases ps.len(),
{
    if ps.len() > 0 {
        let init = ps.drop_last();
        assert forall|a: int, b: int| 0 <= a < init.len() && 0 <= b < init.len() && a != b implies #[trigger] init[a].0 != #[trigger] init[b].0 by {
            assert(ps[a].0 != ps[b].0);
        }
        lemma_restore(init, k, u2, ms2);
        let last = ps.len() - 1;
        assert(ps.last() == ps[last]);
        if ps[last].0 == k {
            assert forall|i: int| 0 <= i < ps.len() && #[trigger] ps[i].0 == k implies i == last by {
                if i != last {
                    assert(ps[i].0 != ps[last].0);
                }
            }
            if exists|i: int| 0 <= i < init.len() && #[trigger] init[i].0 == k && restorable(init[i], u2) {
                let i = choose|i: int| 0 <= i < init.len() && #[trigger] init[i].0 == k && restorable(init[i], u2);
                assert(ps[i].0 == k);
            }
        } else {
            assert forall|i: int| 0 <= i < ps.len() && #[trigger] ps[i].0 == k implies i < last && init[i] == ps[i] by {}
            if exists|i: int| 0 <= i < ps.len() && #[trigger] ps[i].0 == k && restorable(ps[i], u2) {
                let i = choose|i: int| 0 <= i < ps.len() && #[trigger] ps[i].0 == k && restorable(ps[i], u2);
                assert(init[i].0 == k);
            }
        }
    }
}

proof fn lemma_persisted_distinct(es: Seq<(Seq<char>, EntrySpec)>, now_ms: u128, now_unix: u64)
    requires
        es.map_values(|e: (Seq<char>, EntrySpec)| e.0).no_duplicates(),
    ensures
        forall|a: int, b: int| 0 <= a < es.len() && 0 <= b < es.len() && a != b ==> #[trigger] persisted_of(es, now_ms, now_unix)[a].0 != #[trigger] persisted_of(es, now_ms, now_unix)[b].0,
{
    let names = es.map_values(|e: (Seq<char>, EntrySpec)| e.0);
    assert forall|a: int, b: int| 0 <= a < es.len() && 0 <= b < es.len() && a != b implies #[trigger] persisted_of(es, now_ms, now_unix)[a].0 != #[trigger] persisted_of(es, now_ms, now_unix)[b].0 by {
        assert(names[a] != names[b]);
    }
}

/// After a restart, a key that was live without a time to live when the snapshot was
/// taken reads as it did then, at any time.
pub proof fn law_restart_keeps_values(
    m: Map<Seq<char>, EntrySpec>,
    es: Seq<(Seq<char>, EntrySpec)>,
    k: Seq<char>,
    now_ms: u128,
    now_unix: u64,
    u2: u64,
    ms2: u128,
    t: u128,
)
    requires
        is_snapshot_of(es, m, now_ms),
        live(m, k, now_ms),
        m[k].expires_at is None,
    ensures
        get_spec(restore_spec(persisted_of(es, now_ms, now_unix), u2, ms2), k, t).0 == get_spec(m, k, now_ms).0,
{
    let ps = persisted_of(es, now_ms, now_unix);
    lemma_persisted_distinct(es, now_ms, now_unix);
    lemma_restore(ps, k, u2, ms2);
    let i = choose|i: int| 0 <= i < es.len() && #[trigger] es[i].0 == k;
    assert(ps[i].0 == k);
    assert(restorable(ps[i], u2));
}

/// A key that was not live when the snapshot was taken is missing after a restart.
pub proof fn law_restart_drops_dead_keys(
    m: Map<Seq<char>, EntrySpec>,
    es: Seq<(Seq<char>, EntrySpec)>,
    k: Seq<char>,
    now_ms: u128,
    now_unix: u64,
    u2: u64,
    ms2: u128,
)
    requires
        is_snapshot_of(es, m, now_ms),
        !live(m, k, now_ms),
    ensures
        !restore_spec(persisted_of(es, now_ms, now_unix), u2, ms2).contains_key(k),
{
    let ps = persisted_of(es, now_ms, now_unix);
    lemma_persisted_distinct(es, now_ms, now_unix);
    lemma_restore(ps, k, u2, ms2);
    if restore_spec(ps, u2, ms2).contains_key(k) {
        let i = choose|i: int| 0 <= i < ps.len() && #[trigger] ps[i].0 == k && restorable(ps[i], u2);
        assert(es[i].0 == k);
    }
}

/// A key with a time to live is restored when its second has not come by the restart,
/// with the same value and, for a restart within the same Unix second, the same whole
/// seconds left; it is missing once its second has come.
pub proof fn law_restart_keeps_ttl(
    m: Map<Seq<char>, EntrySpec>,
    es: Seq<(Seq<char>, EntrySpec)>,
    k: Seq<char>,
    now_ms: u128,
    now_unix: u64,
    u2: u64,
    ms2: u128,
)
    requires
        is_snapshot_of(es, m, now_ms),
        live(m, k, now_ms),
        m[k].expires_at matches Some(t) && now_unix + (t - now_ms) / 1000 <= u64::MAX,
        ms2 + (u64::MAX as int) * 1000 <= u128::MAX,
    ensures
        ({
            let t = m[k].expires_at->0;
            let x = persisted_expiry(t, now_ms, now_unix);
            let r = restore_spec(persisted_of(es, now_ms, now_unix), u2, ms2);
            &&& x <= u2 ==> !r.contains_key(k)
            &&& x > u2 ==> get_spec(r, k, ms2).0 == get_spec(m, k, now_ms).0
            &&& (x > u2 && u2 == now_unix) ==> ttl_spec(r, k, ms2) == ttl_spec(m, k, now_ms)
        }),
{
    let ps = persisted_of(es, now_ms, now_unix);
    let t = m[k].expires_at->0;
    lemma_persisted_distinct(es, now_ms, now_unix);
    lemma_restore(ps, k, u2, ms2);
    let i = choose|i: int| 0 <= i < es.len() && #[trigger] es[i].0 == k;
    assert(ps[i].0 == k);
    let x = persisted_expiry(t, now_ms, now_unix);
    assert(ps[i].2 == Some(x));
    if x <= u2 {
        assert forall|j: int| 0 <= j < ps.len() && #[trigger] ps[j].0 == k implies !restorable(ps[j], u2) by {
            if j != i {
                assert(es[j].0 != es[i].0) by {
                    let names = es.map_values(|e: (Seq<char>, EntrySpec)| e.0);
                    assert(names[j] != names[i]);
                }
            }
        }
    } else {
        let r = restore_spec(ps, u2, ms2);
        assert(restorable(ps[i], u2));
        let left = (x - u2) * 1000;
        assert(r[k].expires_at == Some((ms2 + left) as u128));
        if u2 == now_unix {
            let d = (t - now_ms) / 1000;
            assert(x == now_unix + d);
            assert(((ms2 + left) - ms2) / 1000 == d) by (nonlinear_arith)
                requires
                    left == d * 1000,
                    d >= 0,
            ;
        }
    }
}

/// Saved and loaded as [`snapshot_now`] and [`restore_now`] do (each reading the Unix
/// clock once and taking the store's clock to read that same second), a key with a
/// time to live keeps its deadline across a restart, to within a second and never
/// later, whenever the restart comes before that deadline's second; so its time to
/// live counts down across the restart as if there had been none.
pub proof fn law_restart_keeps_deadline(
    m: Map<Seq<char>, EntrySpec>,
    es: Seq<(Seq<char>, EntrySpec)>,
    k: Seq<char>,
    now_unix: u64,
    u2: u64,
)
    requires
        is_snapshot_of(es, m, (now_unix * 1000) as u128),
        live(m, k, (now_unix * 1000) as u128),
        m[k].expires_at matches Some(t) && now_unix + (t - now_unix * 1000) / 1000 <= u64::MAX,
        persisted_expiry(m[k].expires_at->0, (now_unix * 1000) as u128, now_unix) > u2,
    ensures
        ({
            let t = m[k].expires_at->0;
            let r = restore_spec(persisted_of(es, (now_unix * 1000) as u128, now_unix), u2, (u2 * 1000) as u128);
            &&& r.contains_key(k)
            &&& r[k].value == m[k].value
            &&& r[k].expires_at matches Some(t2) && t - 1000 < t2 <= t
        }),
{
    let now_ms = (now_unix * 1000) as u128;
    let ms2 = (u2 * 1000) as u128;
    let ps = persisted_of(es, now_ms, now_unix);
    let t = m[k].expires_at->0;
    lemma_persisted_distinct(es, now_ms, now_unix);
    lemma_restore(ps, k, u2, ms2);
    let i = choose|i: int| 0 <= i < es.len() && #[trigger] es[i].0 == k;
    assert(ps[i].0 == k);
    let x = persisted_expiry(t, now_ms, now_unix);
    assert(ps[i].2 == Some(x));
    assert(restorable(ps[i], u2));
    let d = (t - now_ms) / 1000;
    assert(x == now_unix + d);
    let t2 = ms2 + (x - u2) * 1000;
    assert(t2 == now_unix * 1000 + d * 1000);
    assert(t - 1000 < now_unix * 1000 + d * 1000 <= t) by (nonlinear_arith)
        requires
            d == (t - now_unix * 1000) / 1000,
            t > now_unix * 1000,
    ;
    assert(restored_expiry(x, u2, ms2) == Some(t2 as u128));
}

} // verus!
