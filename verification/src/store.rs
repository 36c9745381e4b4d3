//! The concurrent hash map storage backend.
//!
//! `ConcurrentMap` wraps a `dashmap::DashMap` keyed by the decoded key
//! text.  The map itself guarantees per-key atomicity under concurrent
//! access; here its operations are specified against a mathematical
//! `Map` from key text to value bytes, and the surrounding logic is
//! verified against those contracts.

use vstd::prelude::*;

verus! {

/// An error reported by a storage backend.
#[derive(Debug, Clone, Copy, PartialEq, Eq, Structural)]
pub enum StoreError {
    /// The arena has no free range large enough: the operation needed
    /// `requested` bytes and the largest free range holds `available`.
    StorageExhausted { requested: usize, available: usize },
}

/// Declares `dashmap::DashMap` so that values of it can stand in
/// fields and signatures; the type is opaque to the verifier.
#[verifier::external_type_specification]
#[verifier::external_body]
#[verifier::reject_recursive_types(K)]
#[verifier::reject_recursive_types(V)]
#[verifier::reject_recursive_types(S)]
pub struct ExDashMap<K, V, S>(dashmap::DashMap<K, V, S>);

/// An empty contents map: no key is bound.
pub open spec fn empty_contents() -> Map<Seq<char>, Seq<u8>> {
    Map::empty()
}

/// What a `DashMap` holds, as a map from key text to value bytes.
pub uninterp spec fn dash_contents(
    m: dashmap::DashMap<String, Vec<u8>, std::collections::hash_map::RandomState>,
) -> Map<Seq<char>, Seq<u8>>;

/// Relies on `DashMap::get`: returns the value bound to the key, if
/// there is one.  Two `String` keys are equal exactly when their
/// character sequences are.
#[verifier::external_body]
fn dash_get(
    m: &dashmap::DashMap<String, Vec<u8>, std::collections::hash_map::RandomState>,
    key: &String,
) -> (r: Option<Vec<u8>>)
    ensures
        match r {
            Some(v) => dash_contents(*m).contains_key(key@) && v@ == dash_contents(*m)[key@],
            None => !dash_contents(*m).contains_key(key@),
        },
{
    m.get(key).map(|entry| entry.value().clone())
}

/// Relies on `DashMap::insert`: binds the key to the value, replacing
/// any previous binding for an equal key.
#[verifier::external_body]
fn dash_insert(
    m: &mut dashmap::DashMap<String, Vec<u8>, std::collections::hash_map::RandomState>,
    key: String,
    value: Vec<u8>,
)
    ensures
        dash_contents(*final(m)) == dash_contents(*old(m)).insert(key@, value@),
{
    let _ = m.insert(key, value);
}

/// Relies on `DashMap::remove`: unbinds the key; a map without a
/// binding for the key is left as it is.
#[verifier::external_body]
fn dash_remove(
    m: &mut dashmap::DashMap<String, Vec<u8>, std::collections::hash_map::RandomState>,
    key: &String,
)
    ensures
        dash_contents(*final(m)) == dash_contents(*old(m)).remove(key@),
{
    let _ = m.remove(key);
}

/// Relies on `DashMap::contains_key`: tells whether the key is bound.
#[verifier::external_body]
fn dash_contains(
    m: &dashmap::DashMap<String, Vec<u8>, std::collections::hash_map::RandomState>,
    key: &String,
) -> (r: bool)
    ensures
        r == dash_contents(*m).contains_key(key@),
{
    m.contains_key(key)
}

/// A key-value store backed by a concurrent hash map.  Each stored
/// entry owns a copy of its value bytes.
pub struct ConcurrentMap {
    inner: dashmap::DashMap<String, Vec<u8>, std::collections::hash_map::RandomState>,
}

impl View for ConcurrentMap {
    type V = Map<Seq<char>, Seq<u8>>;

    closed spec fn view(&self) -> Map<Seq<char>, Seq<u8>> {
        dash_contents(self.inner)
    }
}

impl ConcurrentMap {
    /// Relies on `DashMap::new`: the new map is empty.
    #[verifier::external_body]
    fn empty() -> (r: ConcurrentMap)
        ensures
            r@ == empty_contents(),
    {
        ConcurrentMap { inner: dashmap::DashMap::new() }
    }

    /// Creates an empty store.
    pub fn new() -> (r: ConcurrentMap)
        ensures
            r@ == Map::<Seq<char>, Seq<u8>>::empty(),
    {
        ConcurrentMap::empty()
    }

    /// Looks a key up; a hit returns a copy of the stored bytes.
    pub fn get(&self, key: &String) -> (r: Option<Vec<u8>>)
        ensures
            match r {
                Some(v) => self@.contains_key(key@) && v@ == self@[key@],
                None => !self@.contains_key(key@),
            },
    {
        dash_get(&self.inner, key)
    }

    /// Stores a value under a key; a later `set` on an equal key
    /// replaces it.  This backend has no capacity bound, so the call
    /// always succeeds.
    pub fn set(&mut self, key: String, value: Vec<u8>) -> (r: Result<(), StoreError>)
        ensures
            r is Ok,
            final(self)@ == old(self)@.insert(key@, value@),
    {
        dash_insert(&mut self.inner, key, value);
        Ok(())
    }

    /// Tells whether a key is present.
    pub fn contains(&self, key: &String) -> (r: bool)
        ensures
            r == self@.contains_key(key@),
    {
        dash_contains(&self.inner, key)
    }

    /// Removes a key.  Absence is not an error: deleting an absent key
    /// leaves the store as it is.
    pub fn delete(&mut self, key: &String)
        ensures
            final(self)@ == old(self)@.remove(key@),
    {
        dash_remove(&mut self.inner, key);
    }
}

} // verus!
