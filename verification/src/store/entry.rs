//! One stored value and the moment it expires.
use vstd::prelude::*;

use crate::clock::{now_millis, ClockReads};

verus! {

/// A stored value: text or an integer.
#[derive(Debug)]
pub enum EntryValue {
    Str(String),
    Int(i64),
}

/// A stored value and, when it has a time to live, the moment (milliseconds since the
/// Unix epoch) at which it expires.
#[derive(Debug)]
pub struct StoreEntry {
    pub value: EntryValue,
    pub expires_at: Option<u128>,
}

pub enum ValueSpec {
    Str(Seq<char>),
    Int(i64),
}

pub struct EntrySpec {
    pub value: ValueSpec,
    pub expires_at: Option<u128>,
}

impl View for EntryValue {
    type V = ValueSpec;

    open spec fn view(&self) -> ValueSpec {
        match self {
            EntryValue::Str(s) => ValueSpec::Str(s@),
            EntryValue::Int(n) => ValueSpec::Int(*n),
        }
    }
}

impl View for StoreEntry {
    type V = EntrySpec;

    open spec fn view(&self) -> EntrySpec {
        EntrySpec { value: self.value@, expires_at: self.expires_at }
    }
}

impl EntrySpec {
    /// An entry has expired once its moment has come.
    pub open spec fn expired(self, now: u128) -> bool {
        match self.expires_at {
            Some(t) => t <= now,
            None => false,
        }
    }

    /// The entry emptied of its value and its time to live: text becomes empty,
    /// an integer becomes zero.
    pub open spec fn flushed(self) -> EntrySpec {
        EntrySpec {
            value: match self.value {
                ValueSpec::Str(_) => ValueSpec::Str(seq![]),
                ValueSpec::Int(_) => ValueSpec::Int(0),
            },
            expires_at: None,
        }
    }
}

impl EntryValue {
    pub fn copy(&self) -> (r: EntryValue)
        ensures
            r@ == self@,
    {
        match self {
            EntryValue::Str(s) => EntryValue::Str(s.clone()),
            EntryValue::Int(n) => EntryValue::Int(*n),
        }
    }
}

impl StoreEntry {
    /// An entry that holds text.
    pub fn str(value: String, expires_at: Option<u128>) -> (e: StoreEntry)
        ensures
            e@ == (EntrySpec { value: ValueSpec::Str(value@), expires_at }),
    {
        StoreEntry { value: EntryValue::Str(value), expires_at }
    }

    /// An entry that holds an integer.
    pub fn integer(value: i64, expires_at: Option<u128>) -> (e: StoreEntry)
        ensures
            e@ == (EntrySpec { value: ValueSpec::Int(value), expires_at }),
    {
        StoreEntry { value: EntryValue::Int(value), expires_at }
    }

    /// A copy of the entry.
    pub fn copy(&self) -> (e: StoreEntry)
        ensures
            e@ == self@,
    {
        StoreEntry { value: self.value.copy(), expires_at: self.expires_at }
    }

    /// Whether the entry has expired at the moment `now`.
    pub fn is_expired_at(&self, now: u128) -> (b: bool)
        ensures
            b == self@.expired(now),
    {
        match self.expires_at {
            Some(t) => t <= now,
            None => false,
        }
    }

    /// Whether the entry has expired now. An entry without a time to live never has.
    pub fn is_expired(&self) -> (b: bool)
        ensures
            exists|now: u128| b == self@.expired(now),
            self.expires_at is None ==> !b,
    {
        let mut reads = ClockReads::new();
        let now = now_millis(&mut reads);
        self.is_expired_at(now)
    }

    /// Empties the entry: text becomes empty, an integer becomes zero, and the time
    /// to live is dropped.
    pub fn flush(&mut self) -> (r: &mut Self)
        ensures
            (*r)@ == old(self)@.flushed(),
            *final(self) == *final(r),
    {
        self.value = match self.value {
            EntryValue::Str(_) => EntryValue::Str(String::new()),
            EntryValue::Int(_) => EntryValue::Int(0),
        };
        self.expires_at = None;
        self
    }
}

} // verus!
