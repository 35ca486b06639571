//! The key-value store: text and integer values under string keys, each with an
//! optional time to live. Expired entries read as missing.
pub mod entry;
pub mod laws;

use dashmap::DashMap;
use vstd::prelude::*;

use crate::clock::{now_millis, ClockReads};
use crate::protocol::strings_view;
use crate::strutil::{chars_of, dec_int, i64_to_string, parse_i64_chars, parse_i64_spec};
use entry::{EntrySpec, EntryValue, StoreEntry, ValueSpec};

verus! {

// ---------------------------------------------------------------------------
// The concurrent map that holds the entries
// ---------------------------------------------------------------------------

/// `dashmap::DashMap`, the concurrent map that holds the store's entries.
#[verifier::external_type_specification]
#[verifier::external_body]
#[verifier::reject_recursive_types(K)]
#[verifier::reject_recursive_types(V)]
#[verifier::reject_recursive_types(S)]
pub struct ExDashMap<K, V, S>(DashMap<K, V, S>);

/// The entries that a map holds, by key.
pub uninterp spec fn dash_entries(m: DashMap<String, StoreEntry>) -> Map<Seq<char>, EntrySpec>;

/// `DashMap::new`: a map that holds nothing.
#[verifier::external_body]
fn map_new() -> (m: DashMap<String, StoreEntry>)
    ensures
        (dash_entries(m) == Map::<Seq<char>, EntrySpec>::empty()),
{
    DashMap::new()
}

/// `DashMap::get`: a copy of the entry under the key, if there is one.
#[verifier::external_body]
fn map_get(m: &DashMap<String, StoreEntry>, key: &str) -> (r: Option<StoreEntry>)
    ensures
        match r {
            Some(e) => dash_entries(*m).contains_key(key@) && e@ == dash_entries(*m)[key@],
            None => !dash_entries(*m).contains_key(key@),
        },
{
    m.get(key).map(|r| r.value().copy())
}

/// `DashMap::insert`: the entry is stored under the key, replacing any other.
#[verifier::external_body]
fn map_insert(m: &mut DashMap<String, StoreEntry>, key: String, e: StoreEntry)
    ensures
        dash_entries(*final(m)) == dash_entries(*old(m)).insert(key@, e@),
{
    m.insert(key, e);
}

/// `DashMap::remove`: the entry under the key is taken out and returned.
#[verifier::external_body]
fn map_remove(m: &mut DashMap<String, StoreEntry>, key: &str) -> (r: Option<StoreEntry>)
    ensures
        dash_entries(*final(m)) == dash_entries(*old(m)).remove(key@),
        match r {
            Some(e) => dash_entries(*old(m)).contains_key(key@) && e@ == dash_entries(
                *old(m),
            )[key@],
            None => !dash_entries(*old(m)).contains_key(key@),
        },
{
    m.remove(key).map(|(_, e)| e)
}

/// `DashMap::iter`, keys only: every key once, in no particular order. The store
/// changes its map only through `&mut`, so no other change runs during the walk.
#[verifier::external_body]
fn map_keys(m: &DashMap<String, StoreEntry>) -> (r: Vec<String>)
    ensures
        strings_view(r@).no_duplicates(),
        strings_view(r@).to_set() == dash_entries(*m).dom(),
{
    m.iter().map(|r| r.key().clone()).collect()
}

// ---------------------------------------------------------------------------
// The model
// ---------------------------------------------------------------------------

/// `a + b`, or the largest `u128` when that overflows.
pub open spec fn sat_add(a: u128, b: u128) -> u128 {
    if a + b > u128::MAX {
        u128::MAX
    } else {
        (a + b) as u128
    }
}

/// How a value reads: text as it is, an integer in decimal.
pub open spec fn render(v: ValueSpec) -> Seq<char> {
    match v {
        ValueSpec::Str(s) => s,
        ValueSpec::Int(n) => dec_int(n as int),
    }
}

/// Whether the key holds an entry that has not expired at `now`.
pub open spec fn live(m: Map<Seq<char>, EntrySpec>, k: Seq<char>, now: u128) -> bool {
    m.contains_key(k) && !m[k].expired(now)
}

/// GET: the value of a live key; an expired entry is dropped on the way.
pub open spec fn get_spec(m: Map<Seq<char>, EntrySpec>, k: Seq<char>, now: u128) -> (
    Option<Seq<char>>,
    Map<Seq<char>, EntrySpec>,
) {
    if !m.contains_key(k) {
        (None, m)
    } else if m[k].expired(now) {
        (None, m.remove(k))
    } else {
        (Some(render(m[k].value)), m)
    }
}

/// SET: text under the key, expiring `ttl_ms` milliseconds after `now` when given.
pub open spec fn set_spec(
    m: Map<Seq<char>, EntrySpec>,
    k: Seq<char>,
    v: Seq<char>,
    ttl_ms: Option<u128>,
    now: u128,
) -> Map<Seq<char>, EntrySpec> {
    m.insert(
        k,
        EntrySpec {
            value: ValueSpec::Str(v),
            expires_at: match ttl_ms {
                Some(t) => Some(sat_add(now, t)),
                None => None,
            },
        },
    )
}

/// Why an increment failed.
#[derive(Debug)]
pub enum IncrError {
    NotInteger,
    Overflow,
}

impl IncrError {
    pub open spec fn message_spec(self) -> Seq<char> {
        match self {
            IncrError::NotInteger => "value is not an integer or out of range"@,
            IncrError::Overflow => "increment or decrement would overflow"@,
        }
    }

    pub fn message(&self) -> (s: String)
        ensures
            s@ == self.message_spec(),
    {
        match self {
            IncrError::NotInteger => "value is not an integer or out of range".to_string(),
            IncrError::Overflow => "increment or decrement would overflow".to_string(),
        }
    }
}

/// The entry that an increment starts from: a missing key, or one whose time to live
/// has passed, counts as the integer 0 without a time to live.
pub open spec fn incr_start(m: Map<Seq<char>, EntrySpec>, k: Seq<char>, now: u128) -> EntrySpec {
    if m.contains_key(k) && !m[k].expired(now) {
        m[k]
    } else {
        EntrySpec { value: ValueSpec::Int(0), expires_at: None }
    }
}

/// INCRBY: the integer under the key, or text that parses as one, moved by `delta`.
/// The starting entry stays in the map even when the increment fails.
pub open spec fn incr_spec(m: Map<Seq<char>, EntrySpec>, k: Seq<char>, delta: i64, now: u128) -> (
    Result<i64, IncrError>,
    Map<Seq<char>, EntrySpec>,
) {
    let e1 = incr_start(m, k, now);
    let m1 = m.insert(k, e1);
    let cur = match e1.value {
        ValueSpec::Int(n) => Some(n),
        ValueSpec::Str(s) => parse_i64_spec(s),
    };
    match cur {
        None => (Err(IncrError::NotInteger), m1),
        Some(c) => if c + delta > i64::MAX || c + delta < i64::MIN {
            (Err(IncrError::Overflow), m1)
        } else {
            (
                Ok((c + delta) as i64),
                m.insert(
                    k,
                    EntrySpec { value: ValueSpec::Int((c + delta) as i64), expires_at: e1.expires_at },
                ),
            )
        },
    }
}

/// EXPIRE: a live key gets a time to live of `seconds`.
pub open spec fn expire_spec(m: Map<Seq<char>, EntrySpec>, k: Seq<char>, seconds: u64, now: u128) -> (
    bool,
    Map<Seq<char>, EntrySpec>,
) {
    if live(m, k, now) {
        (
            true,
            m.insert(
                k,
                EntrySpec {
                    value: m[k].value,
                    expires_at: Some(sat_add(now, (seconds as u128 * 1000) as u128)),
                },
            ),
        )
    } else {
        (false, m)
    }
}

/// TTL: whole seconds left (at most `i64::MAX`), `-1` without a time to live, `-2`
/// when missing or expired.
pub open spec fn ttl_spec(m: Map<Seq<char>, EntrySpec>, k: Seq<char>, now: u128) -> i64 {
    if !live(m, k, now) {
        -2i64
    } else {
        match m[k].expires_at {
            None => -1i64,
            Some(t) => if (t - now) / 1000 > i64::MAX {
                i64::MAX
            } else {
                ((t - now) / 1000) as i64
            },
        }
    }
}

/// PERSIST: a live key loses its time to live.
pub open spec fn persist_spec(m: Map<Seq<char>, EntrySpec>, k: Seq<char>, now: u128) -> (
    bool,
    Map<Seq<char>, EntrySpec>,
) {
    if live(m, k, now) {
        (true, m.insert(k, EntrySpec { value: m[k].value, expires_at: None }))
    } else {
        (false, m)
    }
}

/// COPY: the entry of a live source, time to live included, under the destination,
/// unless the destination is live and `replace` is not set.
pub open spec fn copy_spec(
    m: Map<Seq<char>, EntrySpec>,
    src: Seq<char>,
    dst: Seq<char>,
    replace: bool,
    now: u128,
) -> (bool, Map<Seq<char>, EntrySpec>) {
    if !live(m, src, now) {
        (false, m)
    } else if !replace && live(m, dst, now) {
        (false, m)
    } else {
        (true, m.insert(dst, m[src]))
    }
}

/// The entries of `m`, less those under the keys of `ks` that have expired at `now`.
pub open spec fn purge_keys(
    m: Map<Seq<char>, EntrySpec>,
    ks: Set<Seq<char>>,
    now: u128,
) -> Map<Seq<char>, EntrySpec> {
    Map::new(|k: Seq<char>| m.contains_key(k) && !(ks.contains(k) && m[k].expired(now)), |k| m[k])
}

/// The live entries of `m`.
pub open spec fn purge_spec(m: Map<Seq<char>, EntrySpec>, now: u128) -> Map<Seq<char>, EntrySpec> {
    Map::new(|k: Seq<char>| live(m, k, now), |k| m[k])
}

/// The map that inserting the snapshot's entries in order gives.
pub open spec fn snapshot_map(es: Seq<(Seq<char>, EntrySpec)>) -> Map<Seq<char>, EntrySpec>
    decreases es.len(),
{
    if es.len() == 0 {
        Map::empty()
    } else {
        snapshot_map(es.drop_last()).insert(es.last().0, es.last().1)
    }
}

pub open spec fn opt_view(r: Option<String>) -> Option<Seq<char>> {
    match r {
        Some(s) => Some(s@),
        None => None,
    }
}

// ---------------------------------------------------------------------------
// The store
// ---------------------------------------------------------------------------

/// One entry of a snapshot of the store.
#[derive(Debug)]
pub struct SnapshotEntry {
    pub key: String,
    pub value: EntryValue,
    pub expires_at: Option<u128>,
}

impl View for SnapshotEntry {
    type V = (Seq<char>, EntrySpec);

    open spec fn view(&self) -> (Seq<char>, EntrySpec) {
        (self.key@, EntrySpec { value: self.value@, expires_at: self.expires_at })
    }
}

pub open spec fn snapshot_view(es: Seq<SnapshotEntry>) -> Seq<(Seq<char>, EntrySpec)> {
    es.map_values(|e: SnapshotEntry| e@)
}

/// A snapshot of the live entries of `m`: each once, in some order.
pub open spec fn is_snapshot_of(
    es: Seq<(Seq<char>, EntrySpec)>,
    m: Map<Seq<char>, EntrySpec>,
    now: u128,
) -> bool {
    &&& es.map_values(|e: (Seq<char>, EntrySpec)| e.0).no_duplicates()
    &&& forall|i: int| 0 <= i < es.len() ==> live(m, #[trigger] es[i].0, now) && m[es[i].0] == es[i].1
    &&& forall|k: Seq<char>| live(m, k, now) ==> exists|i: int| 0 <= i < es.len() && #[trigger] es[i].0 == k
}

/// The key-value store: the entries in a `DashMap`, and, as ghost state, the record
/// of the clock readings the store's own operations took.
pub struct Store {
    data: DashMap<String, StoreEntry>,
    clock: ClockReads,
}

impl View for Store {
    type V = Map<Seq<char>, EntrySpec>;

    closed spec fn view(&self) -> Map<Seq<char>, EntrySpec> {
        dash_entries(self.data)
    }
}

fn render_value(v: &EntryValue) -> (s: String)
    ensures
        s@ == render(v@),
{
    match v {
        EntryValue::Str(s) => s.clone(),
        EntryValue::Int(n) => i64_to_string(*n),
    }
}

impl Store {
    /// An empty store.
    pub fn new() -> (s: Store)
        ensures
            s@ == Map::<Seq<char>, EntrySpec>::empty(),
    {
        Store { data: map_new(), clock: ClockReads::new() }
    }

    /// The readings of the clock that the store's operations took, in order.
    pub closed spec fn clock_reads(&self) -> Seq<u128> {
        self.clock@
    }

    /// Reads the clock, and records the reading; the entries stay as they are.
    pub fn read_clock(&mut self) -> (now: u128)
        ensures
            final(self)@ == old(self)@,
            final(self).clock_reads() == old(self).clock_reads().push(now),
    {
        now_millis(&mut self.clock)
    }

    /// A store that holds the snapshot's entries; of two entries under one key the
    /// later one stays.
    pub fn from_snapshot(entries: Vec<SnapshotEntry>) -> (s: Store)
        ensures
            s@ == snapshot_map(snapshot_view(entries@)),
    {
        let ghost es = snapshot_view(entries@);
        let mut data = map_new();
        let mut i: usize = 0;
        proof {
            assert(es.take(0) =~= Seq::<(Seq<char>, EntrySpec)>::empty());
        }
        while i < entries.len()
            invariant
                es == snapshot_view(entries@),
                i <= entries@.len(),
                dash_entries(data) == snapshot_map(es.take(i as int)),
            decreases entries.len() - i,
        {
            let e = &entries[i];
            let entry = StoreEntry { value: e.value.copy(), expires_at: e.expires_at };
            map_insert(&mut data, e.key.clone(), entry);
            proof {
                assert(es.take(i + 1).drop_last() =~= es.take(i as int));
                assert(es[i as int] == entries@[i as int]@);
            }
            i += 1;
        }
        proof {
            assert(es.take(i as int) =~= es);
        }
        Store { data, clock: ClockReads::new() }
    }

    /// The value of a live key, as text. A key that has expired is removed and reads
    /// as missing.
    pub fn get_at(&mut self, key: &str, now: u128) -> (r: Option<String>)
        ensures
            final(self).clock_reads() == old(self).clock_reads(),
            (opt_view(r), final(self)@) == get_spec(old(self)@, key@, now),
    {
        match map_get(&self.data, key) {
            None => None,
            Some(e) => {
                if e.is_expired_at(now) {
                    map_remove(&mut self.data, key);
                    None
                } else {
                    Some(render_value(&e.value))
                }
            },
        }
    }

    /// Stores text under the key, replacing whatever was there; with `ttl_ms` it
    /// expires that many milliseconds after `now`.
    pub fn set_at(&mut self, key: String, value: String, ttl_ms: Option<u128>, now: u128)
        ensures
            final(self).clock_reads() == old(self).clock_reads(),
            final(self)@ == set_spec(old(self)@, key@, value@, ttl_ms, now),
    {
        let expires_at = match ttl_ms {
            Some(t) => Some(now.saturating_add(t)),
            None => None,
        };
        map_insert(&mut self.data, key, StoreEntry::str(value, expires_at));
    }

    /// Removes a key. Returns `true` if the key existed and had not expired.
    pub fn del_at(&mut self, key: &str, now: u128) -> (r: bool)
        ensures
            final(self).clock_reads() == old(self).clock_reads(),
            r == live(old(self)@, key@, now),
            final(self)@ == old(self)@.remove(key@),
    {
        match map_remove(&mut self.data, key) {
            Some(e) => !e.is_expired_at(now),
            None => false,
        }
    }

    /// Whether the key exists and has not expired.
    pub fn key_exists_at(&self, key: &str, now: u128) -> (r: bool)
        ensures
            r == live(self@, key@, now),
    {
        match map_get(&self.data, key) {
            Some(e) => !e.is_expired_at(now),
            None => false,
        }
    }

    /// Adds `delta` to the integer value of a key (use -1 for DECR). A missing key, or
    /// one whose time to live has passed, counts as 0 without a time to live; text
    /// counts when it parses as an integer.
    pub fn incrby_at(&mut self, key: &str, delta: i64, now: u128) -> (r: Result<i64, IncrError>)
        ensures
            final(self).clock_reads() == old(self).clock_reads(),
            (r, final(self)@) == incr_spec(old(self)@, key@, delta, now),
    {
        let e = match map_get(&self.data, key) {
            Some(e) => if e.is_expired_at(now) {
                StoreEntry::integer(0, None)
            } else {
                e
            },
            None => StoreEntry::integer(0, None),
        };
        let current = match &e.value {
            EntryValue::Int(n) => Some(*n),
            EntryValue::Str(s) => {
                let cs = chars_of(s.as_str());
                parse_i64_chars(&cs)
            },
        };
        match current {
            None => {
                map_insert(&mut self.data, key.to_string(), e);
                Err(IncrError::NotInteger)
            },
            Some(c) => match c.checked_add(delta) {
                None => {
                    map_insert(&mut self.data, key.to_string(), e);
                    Err(IncrError::Overflow)
                },
                Some(v) => {
                    let expires_at = e.expires_at;
                    map_insert(&mut self.data, key.to_string(), StoreEntry::integer(v, expires_at));
                    Ok(v)
                },
            },
        }
    }

    /// Sets a time to live of `seconds` on a key. Returns `false` if the key does not
    /// exist or has expired.
    pub fn expire_at(&mut self, key: &str, seconds: u64, now: u128) -> (r: bool)
        ensures
            final(self).clock_reads() == old(self).clock_reads(),
            (r, final(self)@) == expire_spec(old(self)@, key@, seconds, now),
    {
        match map_get(&self.data, key) {
            None => false,
            Some(e) => {
                if e.is_expired_at(now) {
                    false
                } else {
                    let t = now.saturating_add(seconds as u128 * 1000);
                    map_insert(
                        &mut self.data,
                        key.to_string(),
                        StoreEntry { value: e.value, expires_at: Some(t) },
                    );
                    true
                }
            },
        }
    }

    /// The whole seconds a key has left, at most `i64::MAX`; -1 if it has no time to
    /// live, -2 if it is missing or has expired.
    pub fn ttl_at(&self, key: &str, now: u128) -> (r: i64)
        ensures
            r == ttl_spec(self@, key@, now),
    {
        match map_get(&self.data, key) {
            None => -2,
            Some(e) => {
                if e.is_expired_at(now) {
                    -2
                } else {
                    match e.expires_at {
                        None => -1,
                        Some(t) => {
                            let secs: u128 = (t - now) / 1000;
                            if secs > i64::MAX as u128 {
                                i64::MAX
                            } else {
                                secs as i64
                            }
                        },
                    }
                }
            },
        }
    }

    /// Drops the time to live of a key. Returns `false` if the key does not exist or
    /// has expired.
    pub fn persist_at(&mut self, key: &str, now: u128) -> (r: bool)
        ensures
            final(self).clock_reads() == old(self).clock_reads(),
            (r, final(self)@) == persist_spec(old(self)@, key@, now),
    {
        match map_get(&self.data, key) {
            None => false,
            Some(e) => {
                if e.is_expired_at(now) {
                    false
                } else {
                    map_insert(
                        &mut self.data,
                        key.to_string(),
                        StoreEntry { value: e.value, expires_at: None },
                    );
                    true
                }
            },
        }
    }

    /// Copies the value and time to live of `source` to `dest`. Returns `false` if the
    /// source is missing or has expired, or if `dest` exists and `replace` is not set.
    pub fn copy_at(&mut self, source: &str, dest: &str, replace: bool, now: u128) -> (r: bool)
        ensures
            final(self).clock_reads() == old(self).clock_reads(),
            (r, final(self)@) == copy_spec(old(self)@, source@, dest@, replace, now),
    {
        let e = match map_get(&self.data, source) {
            None => {
                return false;
            },
            Some(e) => e,
        };
        if e.is_expired_at(now) {
            return false;
        }
        if !replace && self.key_exists_at(dest, now) {
            return false;
        }
        map_insert(&mut self.data, dest.to_string(), e);
        true
    }

    /// Removes every entry that has expired at `now`.
    pub fn purge_expired_at(&mut self, now: u128)
        ensures
            final(self).clock_reads() == old(self).clock_reads(),
            final(self)@ == purge_spec(old(self)@, now),
    {
        let ghost m0 = self@;
        let keys = map_keys(&self.data);
        let ghost ks = strings_view(keys@);
        let mut i: usize = 0;
        proof {
            assert(purge_keys(m0, ks.take(0).to_set(), now) =~= m0);
        }
        while i < keys.len()
            invariant
                i <= keys@.len(),
                ks == strings_view(keys@),
                ks.no_duplicates(),
                ks.to_set() == m0.dom(),
                self@ == purge_keys(m0, ks.take(i as int).to_set(), now),
                self.clock_reads() == old(self).clock_reads(),
            decreases keys.len() - i,
        {
            let key = keys[i].as_str();
            proof {
                assert(ks[i as int] == key@);
                assert(ks.take(i + 1) =~= ks.take(i as int).push(key@));
                ks.take(i as int).lemma_push_to_set_commute(key@);
                assert(!ks.take(i as int).to_set().contains(key@)) by {
                    if ks.take(i as int).to_set().contains(key@) {
                        let j = choose|j: int| 0 <= j < i && ks.take(i as int)[j] == key@;
                        assert(ks[j] == ks[i as int]);
                    }
                }
                assert(ks.to_set().contains(key@)) by {
                    assert(ks[i as int] == key@);
                }
            }
            match map_get(&self.data, key) {
                Some(e) => {
                    if e.is_expired_at(now) {
                        map_remove(&mut self.data, key);
                    }
                },
                None => {},
            }
            proof {
                assert(self@ =~= purge_keys(m0, ks.take(i + 1).to_set(), now));
            }
            i += 1;
        }
        proof {
            assert(ks.take(i as int) =~= ks);
            assert(self@ =~= purge_spec(m0, now));
        }
    }

    /// The live entries at `now`, each once, in no particular order.
    pub fn to_snapshot_entries_at(&self, now: u128) -> (r: Vec<SnapshotEntry>)
        ensures
            is_snapshot_of(snapshot_view(r@), self@, now),
    {
        let ghost m = self@;
        let keys = map_keys(&self.data);
        let ghost ks = strings_view(keys@);
        let mut out: Vec<SnapshotEntry> = Vec::new();
        let mut i: usize = 0;
        while i < keys.len()
            invariant
                i <= keys@.len(),
                m == self@,
                ks == strings_view(keys@),
                ks.no_duplicates(),
                ks.to_set() == m.dom(),
                forall|j: int|
                    0 <= j < out@.len() ==> live(m, #[trigger] out@[j]@.0, now) && m[out@[j]@.0]
                        == out@[j]@.1,
                forall|j: int|
                    #![trigger out@[j]]
                    0 <= j < out@.len() ==> exists|l: int| 0 <= l < i && #[trigger] ks[l] == out@[j]@.0,
                forall|j1: int, j2: int|
                    0 <= j1 < j2 < out@.len() ==> out@[j1]@.0 != out@[j2]@.0,
                forall|l: int|
                    0 <= l < i && live(m, #[trigger] ks[l], now) ==> exists|j: int|
                        0 <= j < out@.len() && out@[j]@.0 == ks[l],
            decreases keys.len() - i,
        {
            let key = &keys[i];
            proof {
                assert(ks[i as int] == key@);
            }
            match map_get(&self.data, key.as_str()) {
                Some(e) => {
                    if !e.is_expired_at(now) {
                        let ghost before = out@;
                        proof {
                            assert forall|j: int| 0 <= j < before.len() implies (#[trigger] before[j])@.0 != key@ by {
                                let l = choose|l: int| 0 <= l < i && #[trigger] ks[l] == before[j]@.0;
                                assert(ks[l] != ks[i as int]);
                            }
                        }
                        out.push(SnapshotEntry { key: key.clone(), value: e.value, expires_at: e.expires_at });
                        proof {
                            assert(out@[before.len() as int]@.0 == key@);
                            assert forall|j: int|
                                #![trigger out@[j]]
                                0 <= j < out@.len() implies exists|l: int| 0 <= l < i + 1 && #[trigger] ks[l] == out@[j]@.0 by {
                                if j < before.len() {
                                    assert(out@[j] == before[j]);
                                    let l = choose|l: int| 0 <= l < i && #[trigger] ks[l] == before[j]@.0;
                                    assert(ks[l] == out@[j]@.0);
                                } else {
                                    assert(ks[i as int] == out@[j]@.0);
                                }
                            }
                            assert forall|l: int|
                                0 <= l < i + 1 && live(m, #[trigger] ks[l], now) implies exists|j: int|
                                    0 <= j < out@.len() && out@[j]@.0 == ks[l] by {
                                if l < i {
                                    let j = choose|j: int| 0 <= j < before.len() && before[j]@.0 == ks[l];
                                    assert(out@[j] == before[j]);
                                } else {
                                    assert(out@[before.len() as int]@.0 == ks[l]);
                                }
                            }
                        }
                    }
                },
                None => {},
            }
            i += 1;
        }
        proof {
            let es = snapshot_view(out@);
            let names = es.map_values(|e: (Seq<char>, EntrySpec)| e.0);
            assert forall|a: int, b: int| 0 <= a < names.len() && 0 <= b < names.len() && a != b implies names[a] != names[b] by {
                if a < b {
                    assert(out@[a]@.0 != out@[b]@.0);
                } else {
                    assert(out@[b]@.0 != out@[a]@.0);
                }
            }
            assert forall|k: Seq<char>| live(m, k, now) implies exists|j: int| 0 <= j < es.len() && #[trigger] es[j].0 == k by {
                assert(ks.to_set().contains(k));
                let l = choose|l: int| 0 <= l < ks.len() && ks[l] == k;
                assert(live(m, ks[l], now));
                let j = choose|j: int| 0 <= j < out@.len() && out@[j]@.0 == ks[l];
                assert(es[j].0 == k);
            }
            assert forall|j: int| 0 <= j < es.len() implies live(m, #[trigger] es[j].0, now) && m[es[j].0] == es[j].1 by {
                assert(es[j] == out@[j]@);
            }
        }
        out
    }

    /// [`Store::get_at`] at the current time.
    pub fn get(&mut self, key: &str) -> (r: Option<String>)
        ensures
            exists|now: u128|
                (opt_view(r), final(self)@) == get_spec(old(self)@, key@, now) && final(self).clock_reads() == old(self).clock_reads().push(now),
    {
        let now = self.read_clock();
        self.get_at(key, now)
    }

    /// [`Store::set_at`] at the current time.
    pub fn set(&mut self, key: String, value: String, ttl_ms: Option<u128>)
        ensures
            exists|now: u128|
                final(self)@ == set_spec(old(self)@, key@, value@, ttl_ms, now) && final(self).clock_reads() == old(self).clock_reads().push(now),
    {
        let now = self.read_clock();
        self.set_at(key, value, ttl_ms, now)
    }

    /// [`Store::del_at`] at the current time.
    pub fn del(&mut self, key: &str) -> (r: bool)
        ensures
            exists|now: u128| r == live(old(self)@, key@, now) && final(self).clock_reads() == old(self).clock_reads().push(now),
            final(self)@ == old(self)@.remove(key@),
    {
        let now = self.read_clock();
        self.del_at(key, now)
    }

    /// [`Store::key_exists_at`] at the current time.
    pub fn key_exists(&self, key: &str) -> (r: bool)
        ensures
            exists|now: u128| r == live(self@, key@, now),
    {
        let mut reads = ClockReads::new();
        let now = now_millis(&mut reads);
        self.key_exists_at(key, now)
    }

    /// [`Store::incrby_at`] at the current time.
    pub fn incrby(&mut self, key: &str, delta: i64) -> (r: Result<i64, IncrError>)
        ensures
            exists|now: u128|
                (r, final(self)@) == incr_spec(old(self)@, key@, delta, now) && final(self).clock_reads() == old(self).clock_reads().push(now),
    {
        let now = self.read_clock();
        self.incrby_at(key, delta, now)
    }

    /// [`Store::expire_at`] at the current time.
    pub fn expire(&mut self, key: &str, seconds: u64) -> (r: bool)
        ensures
            exists|now: u128|
                (r, final(self)@) == expire_spec(old(self)@, key@, seconds, now) && final(self).clock_reads() == old(self).clock_reads().push(now),
    {
        let now = self.read_clock();
        self.expire_at(key, seconds, now)
    }

    /// [`Store::ttl_at`] at the current time.
    pub fn ttl(&self, key: &str) -> (r: i64)
        ensures
            exists|now: u128| r == ttl_spec(self@, key@, now),
    {
        let mut reads = ClockReads::new();
        let now = now_millis(&mut reads);
        self.ttl_at(key, now)
    }

    /// [`Store::persist_at`] at the current time.
    pub fn persist(&mut self, key: &str) -> (r: bool)
        ensures
            exists|now: u128|
                (r, final(self)@) == persist_spec(old(self)@, key@, now) && final(self).clock_reads() == old(self).clock_reads().push(now),
    {
        let now = self.read_clock();
        self.persist_at(key, now)
    }

    /// [`Store::copy_at`] at the current time.
    pub fn copy(&mut self, source: &str, dest: &str, replace: bool) -> (r: bool)
        ensures
            exists|now: u128|
                (r, final(self)@) == copy_spec(old(self)@, source@, dest@, replace, now) && final(self).clock_reads() == old(self).clock_reads().push(now),
    {
        let now = self.read_clock();
        self.copy_at(source, dest, replace, now)
    }

    /// [`Store::purge_expired_at`] at the current time: the time used is the clock
    /// reading that the call takes, the last one in the store's record.
    pub fn purge_expired(&mut self)
        ensures
            exists|now: u128| final(self)@ == purge_spec(old(self)@, now) && final(self).clock_reads() == old(self).clock_reads().push(now),
    {
        let now = self.read_clock();
        self.purge_expired_at(now)
    }

    /// [`Store::to_snapshot_entries_at`] at the current time.
    pub fn to_snapshot_entries(&self) -> (r: Vec<SnapshotEntry>)
        ensures
            exists|now: u128| is_snapshot_of(snapshot_view(r@), self@, now),
    {
        let mut reads = ClockReads::new();
        let now = now_millis(&mut reads);
        self.to_snapshot_entries_at(now)
    }
}

impl Default for Store {
    fn default() -> (s: Store)
        ensures
            s@ == Map::<Seq<char>, EntrySpec>::empty(),
    {
        Store::new()
    }
}

} // verus!
