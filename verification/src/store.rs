//! The keyspace: a `DashMap` from keys to entries, and the clock that
//! expiry times are measured on.

use vstd::prelude::*;
use dashmap::DashMap;
use tokio::time::Instant;
use crate::command::{EntryModel, ValueEntry};

verus! {

#[verifier::external_type_specification]
#[verifier::external_body]
#[verifier::reject_recursive_types(K)]
#[verifier::reject_recursive_types(V)]
#[verifier::reject_recursive_types(S)]
pub struct ExDashMap<K, V, S>(DashMap<K, V, S>);

#[verifier::external_type_specification]
#[verifier::external_body]
pub struct ExInstant(Instant);

/// The map type of the keyspace.
pub type KeyMap = DashMap<Vec<u8>, ValueEntry>;

/// What a keyspace map holds: for each key (by its bytes), the model of its
/// entry.
pub uninterp spec fn stored_entries(m: KeyMap) -> Map<Seq<u8>, EntryModel>;

/// The keyspace with no keys.
pub open spec fn empty_keyspace() -> Map<Seq<u8>, EntryModel> {
    Map::empty()
}

/// `DashMap::new`: the map starts empty.
#[verifier::external_body]
fn map_new() -> (m: KeyMap)
    ensures
        stored_entries(m) == empty_keyspace(),
{
    DashMap::new()
}

/// `DashMap::get`, with the entry copied out of the read guard: the entry
/// stored under `key`, or `None` when the map has none.
#[verifier::external_body]
fn map_get(m: &KeyMap, key: &[u8]) -> (r: Option<ValueEntry>)
    ensures
        match r {
            Some(e) => stored_entries(*m).contains_key(key@) && e@ == stored_entries(*m)[key@],
            None => !stored_entries(*m).contains_key(key@),
        },
{
    m.get(key).map(|entry| entry.value().clone())
}

/// `DashMap::insert`: afterwards `key` maps to `value`, every other key as
/// before.  The entry it replaces is dropped.
#[verifier::external_body]
fn map_insert(m: &mut KeyMap, key: Vec<u8>, value: ValueEntry)
    ensures
        stored_entries(*final(m)) == stored_entries(*old(m)).insert(key@, value@),
{
    m.insert(key, value);
}

/// `DashMap::remove`: afterwards `key` maps to nothing, every other key as
/// before; the entry taken out is handed back.
#[verifier::external_body]
fn map_remove(m: &mut KeyMap, key: &[u8]) -> (r: Option<ValueEntry>)
    ensures
        stored_entries(*final(m)) == stored_entries(*old(m)).remove(key@),
        match r {
            Some(e) => stored_entries(*old(m)).contains_key(key@) && e@ == stored_entries(
                *old(m),
            )[key@],
            None => !stored_entries(*old(m)).contains_key(key@),
        },
{
    m.remove(key).map(|(_, value)| value)
}

/// `tokio::time::Instant::now`.  Nothing is stated of the result: it is the
/// current time.
#[verifier::external_body]
fn instant_now() -> Instant {
    Instant::now()
}

/// `tokio::time::Instant::elapsed`, in nanoseconds.  Nothing is stated of
/// the result: it depends on the current time.
#[verifier::external_body]
fn nanos_since(origin: &Instant) -> u128 {
    origin.elapsed().as_nanos()
}

/// The keyspace shared by all connections, with the instant from which its
/// expiry times are counted.
pub struct Storage {
    map: KeyMap,
    origin: Instant,
}

impl View for Storage {
    type V = Map<Seq<u8>, EntryModel>;

    closed spec fn view(&self) -> Map<Seq<u8>, EntryModel> {
        stored_entries(self.map)
    }
}

impl Storage {
    /// An empty keyspace whose clock starts now.
    pub fn new() -> (s: Self)
        ensures
            s@ == empty_keyspace(),
    {
        Storage { map: map_new(), origin: instant_now() }
    }

    /// Nanoseconds since the keyspace was made.
    pub fn now(&self) -> u128 {
        nanos_since(&self.origin)
    }

    /// A copy of the entry under `key`.
    pub fn get(&self, key: &[u8]) -> (r: Option<ValueEntry>)
        ensures
            match r {
                Some(e) => self@.contains_key(key@) && e@ == self@[key@],
                None => !self@.contains_key(key@),
            },
    {
        map_get(&self.map, key)
    }

    /// Stores `value` under `key`.
    pub fn insert(&mut self, key: Vec<u8>, value: ValueEntry)
        ensures
            final(self)@ == old(self)@.insert(key@, value@),
    {
        map_insert(&mut self.map, key, value)
    }

    /// Takes the entry under `key` out of the keyspace.
    pub fn remove(&mut self, key: &[u8]) -> (r: Option<ValueEntry>)
        ensures
            final(self)@ == old(self)@.remove(key@),
            match r {
                Some(e) => old(self)@.contains_key(key@) && e@ == old(self)@[key@],
                None => !old(self)@.contains_key(key@),
            },
    {
        map_remove(&mut self.map, key)
    }
}

} // verus!
