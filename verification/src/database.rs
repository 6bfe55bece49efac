//! The keyspace: values with a time to live, and the store that holds them.
//!
//! Expiry is a matter of reading, not of storing: a value past its time to
//! live stays where it is until it is overwritten, and each read judges
//! anew whether it may still be seen.

use vstd::prelude::*;
use vstd::hash_map::StringHashMap;
use vstd::std_specs::cmp::PartialEqSpecImpl;
use std::time::Instant;
use crate::clock::{nanos_between, now};

verus! {

/// What a value is filed under.
pub type Key = String;

/// How many nanoseconds a millisecond has.
pub const NANOS_PER_MILLI: u128 = 1_000_000;

/// A stored string with the metadata that decides whether it can still be
/// read.
#[derive(Debug)]
pub struct Value {
    /// The string itself.
    pub data: String,
    /// How long the value lives, in milliseconds; forever where `None`.
    pub(crate) ttl: Option<u64>,
    /// When the value was made.
    pub(crate) created: Instant,
}

/// The mathematical value of a [`Value`]: its string and its time to live.
/// The moment it was made is no part of it.
pub struct ValueView {
    pub data: Seq<char>,
    pub ttl: Option<u64>,
}

impl ValueView {
    /// Whether the value is past its time to live once `elapsed` nanoseconds
    /// have passed since it was made.
    pub open spec fn expired_after(self, elapsed: nat) -> bool {
        match self.ttl {
            Some(ttl) => elapsed > ttl * NANOS_PER_MILLI,
            None => false,
        }
    }
}

impl Value {
    /// The string and the time to live.
    pub open(crate) spec fn view(&self) -> ValueView {
        ValueView { data: self.data@, ttl: self.ttl }
    }

    /// A value made now, to live for `ttl` milliseconds, or forever.
    pub fn new(data: String, ttl: Option<u64>) -> (value: Value)
        ensures
            value@ == (ValueView { data: data@, ttl }),
    {
        Value { data, ttl, created: now() }
    }

    /// A value made now that lives forever.
    pub fn without_ttl(data: String) -> (value: Value)
        ensures
            value@ == (ValueView { data: data@, ttl: None }),
    {
        Value { data, ttl: None, created: now() }
    }

    /// A value made now that lives for `ttl` milliseconds.
    pub fn with_ttl(data: String, ttl: u64) -> (value: Value)
        ensures
            value@ == (ValueView { data: data@, ttl: Some(ttl) }),
    {
        Value { data, ttl: Some(ttl), created: now() }
    }

    /// Whether the value is past its time to live once `elapsed` nanoseconds
    /// have passed since it was made.
    pub fn is_expired_after(&self, elapsed: u128) -> (expired: bool)
        ensures
            expired == self@.expired_after(elapsed as nat),
    {
        match self.ttl {
            Some(ttl) => elapsed > ttl as u128 * NANOS_PER_MILLI,
            None => false,
        }
    }
}

impl Clone for Value {
    fn clone(&self) -> (copy: Value)
        ensures
            copy == *self,
    {
        Value { data: self.data.clone(), ttl: self.ttl, created: self.created }
    }
}

impl PartialEq for Value {
    /// Two values are equal when their strings are: when a value was made
    /// and how long it lives is no part of what it is.
    fn eq(&self, other: &Self) -> (equal: bool) {
        self.data == other.data
    }
}

impl Eq for Value {

}

impl PartialEqSpecImpl for Value {
    open spec fn obeys_eq_spec() -> bool {
        true
    }

    closed spec fn eq_spec(&self, other: &Self) -> bool {
        self.data@ == other.data@
    }
}

/// Why a key gave no value.
#[derive(Debug, Clone, Copy, PartialEq, Eq)]
pub enum Error {
    /// Nothing was ever stored under the key.
    KeyNotFound,
    /// What is stored under the key is past its time to live.
    Expired,
}

/// What reading `key` gives once `elapsed` nanoseconds have passed since
/// the value under it was made.
pub open spec fn lookup(store: Map<Seq<char>, ValueView>, key: Seq<char>, elapsed: nat) -> Result<
    ValueView,
    Error,
> {
    if !store.contains_key(key) {
        Err(Error::KeyNotFound)
    } else if store[key].expired_after(elapsed) {
        Err(Error::Expired)
    } else {
        Ok(store[key])
    }
}

/// What a read gave, with the value found taken by its view.
pub open spec fn found(outcome: Result<&Value, Error>) -> Result<ValueView, Error> {
    match outcome {
        Ok(value) => Ok(value@),
        Err(error) => Err(error),
    }
}

/// The store: values filed under keys.
pub struct Database {
    storage: StringHashMap<Value>,
}

impl View for Database {
    type V = Map<Seq<char>, ValueView>;

    closed spec fn view(&self) -> Map<Seq<char>, ValueView> {
        self.storage@.map_values(|value: Value| value@)
    }
}

/// Judges what was found under a key, `elapsed` nanoseconds after it was
/// made.
fn judge(entry: Option<&Value>, elapsed: u128) -> (outcome: Result<&Value, Error>)
    ensures
        outcome == match entry {
            None => Err::<&Value, Error>(Error::KeyNotFound),
            Some(value) => if value@.expired_after(elapsed as nat) {
                Err(Error::Expired)
            } else {
                Ok(value)
            },
        },
{
    match entry {
        None => Err(Error::KeyNotFound),
        Some(value) => if value.is_expired_after(elapsed) {
            Err(Error::Expired)
        } else {
            Ok(value)
        },
    }
}

impl Database {
    /// A store that holds nothing.
    pub fn new() -> (db: Database)
        ensures
            db@ == Map::<Seq<char>, ValueView>::empty(),
    {
        Database { storage: StringHashMap::new() }
    }

    /// Reads `key` as of now.
    ///
    /// How much time has passed since the value was made is for the clock
    /// to say. Whatever it says, the outcome is that of [`lookup`] for that
    /// much time. So a key that was never set is not found, a value without
    /// a time to live is always read, and nothing but a value with a time
    /// to live is ever said to have expired.
    pub fn get(&self, key: &str) -> (outcome: Result<&Value, Error>)
        ensures
            exists|elapsed: nat| found(outcome) == lookup(self@, key@, elapsed),
            !self@.contains_key(key@) ==> outcome == Err::<&Value, Error>(Error::KeyNotFound),
            self@.contains_key(key@) && self@[key@].ttl is None ==> found(outcome) == Ok::<
                ValueView,
                Error,
            >(self@[key@]),
    {
        let now = now();
        let entry = self.storage.get(key);
        let elapsed = match entry {
            Some(value) => nanos_between(&value.created, &now),
            None => 0,
        };
        let outcome = judge(entry, elapsed);
        assert(found(outcome) == lookup(self@, key@, elapsed as nat));
        outcome
    }

    /// Reads `key` as of `elapsed` nanoseconds after the value under it was
    /// made.
    pub fn get_after(&self, key: &str, elapsed: u128) -> (outcome: Result<&Value, Error>)
        ensures
            found(outcome) == lookup(self@, key@, elapsed as nat),
    {
        judge(self.storage.get(key), elapsed)
    }

    /// Stores `value` under `key`, in place of what was there: the value
    /// that was there is gone, and its time to live with it.
    pub fn set(&mut self, key: Key, value: Value)
        ensures
            final(self)@ == old(self)@.insert(key@, value@),
    {
        self.storage.insert(key, value);
    }
}

/// The store that some sets leave, made one after the other on a store that
/// held nothing.
pub open spec fn after_sets(sets: Seq<(Seq<char>, ValueView)>) -> Map<Seq<char>, ValueView>
    decreases sets.len(),
{
    if sets.len() == 0 {
        Map::empty()
    } else {
        after_sets(sets.drop_last()).insert(sets.last().0, sets.last().1)
    }
}

/// A value set without a time to live is read back, at once and at any
/// later time.
pub proof fn lemma_value_without_ttl_is_read(
    store: Map<Seq<char>, ValueView>,
    key: Seq<char>,
    value: ValueView,
    elapsed: nat,
)
    requires
        value.ttl is None,
    ensures
        lookup(store.insert(key, value), key, elapsed) == Ok::<ValueView, Error>(value),
{
}

/// A value set with a time to live is read back until that much time has
/// passed, and has expired once more has.
pub proof fn lemma_ttl_decides(
    store: Map<Seq<char>, ValueView>,
    key: Seq<char>,
    value: ValueView,
    ttl: u64,
    elapsed: nat,
)
    requires
        value.ttl == Some(ttl),
    ensures
        elapsed <= ttl * NANOS_PER_MILLI ==> lookup(store.insert(key, value), key, elapsed) == Ok::<
            ValueView,
            Error,
        >(value),
        elapsed > ttl * NANOS_PER_MILLI ==> lookup(store.insert(key, value), key, elapsed) == Err::<
            ValueView,
            Error,
        >(Error::Expired),
{
}

/// A key that was never set is not found.
pub proof fn lemma_never_set_is_not_found(
    sets: Seq<(Seq<char>, ValueView)>,
    key: Seq<char>,
    elapsed: nat,
)
    requires
        forall|i: int| 0 <= i < sets.len() ==> (#[trigger] sets[i]).0 != key,
    ensures
        lookup(after_sets(sets), key, elapsed) == Err::<ValueView, Error>(Error::KeyNotFound),
    decreases sets.len(),
{
    if sets.len() > 0 {
        lemma_never_set_is_not_found(sets.drop_last(), key, elapsed);
    }
}

/// A second set under a key replaces the value and its time to live: the
/// store is as if the first had not been, and what a read gives depends on
/// the second alone.
pub proof fn lemma_second_set_replaces(
    store: Map<Seq<char>, ValueView>,
    key: Seq<char>,
    first: ValueView,
    second: ValueView,
    elapsed: nat,
)
    ensures
        store.insert(key, first).insert(key, second) == store.insert(key, second),
        lookup(store.insert(key, first).insert(key, second), key, elapsed) == lookup(
            Map::<Seq<char>, ValueView>::empty().insert(key, second),
            key,
            elapsed,
        ),
{
}

} // verus!
