//! Hash tables that hash with the Fowler-Noll-Vo function.
//!
//! A table is std's `HashMap` with the hasher of the crate `fnv`, which is
//! fast on the short integer keys that the stores of a mesh have. What the
//! map's methods do with that hasher is stated here and not proved; the
//! rest of the library rests on these statements alone.

use vstd::prelude::*;
use std::collections::HashMap;
use std::hash::{BuildHasherDefault, Hash};
use fnv::FnvHasher;
use vstd::std_specs::hash::obeys_key_model;

verus! {

broadcast use vstd::std_specs::hash::group_hash_axioms;

/// `fnv::FnvHasher`, the state of the hash function. Nothing is said of
/// what is inside.
#[verifier::external_type_specification]
#[verifier::external_body]
pub struct ExFnvHasher(FnvHasher);

/// `std::hash::BuildHasherDefault`, which makes a hasher by its `Default`.
/// Nothing is said of what is inside.
#[verifier::external_type_specification]
#[verifier::external_body]
#[verifier::reject_recursive_types(H)]
pub struct ExBuildHasherDefault<H>(BuildHasherDefault<H>);

/// `HashMap::default` for a map that hashes with `FnvHasher`: the map is
/// empty.
#[verifier::external_body]
fn fnv_new<K, V>() -> (m: HashMap<K, V, BuildHasherDefault<FnvHasher>>)
    ensures
        forall|k: K| !m@.contains_key(k),
{
    HashMap::default()
}

/// `HashMap::insert` on a map that hashes with `FnvHasher`: afterwards the
/// key has the value and every other key is as it was; the value that the
/// key had before comes back.
#[verifier::external_body]
fn fnv_insert<K: Eq + Hash, V>(
    m: &mut HashMap<K, V, BuildHasherDefault<FnvHasher>>,
    k: K,
    v: V,
) -> (r: Option<V>)
    requires
        obeys_key_model::<K>(),
    ensures
        final(m)@ == old(m)@.insert(k, v),
        r == old(m)@.get(k),
{
    m.insert(k, v)
}

/// `HashMap::remove` on a map that hashes with `FnvHasher`: afterwards the
/// key is not in the map and every other key is as it was; the value that
/// the key had before comes back.
#[verifier::external_body]
fn fnv_remove<K: Eq + Hash, V>(m: &mut HashMap<K, V, BuildHasherDefault<FnvHasher>>, k: &K) -> (r:
    Option<V>)
    requires
        obeys_key_model::<K>(),
    ensures
        final(m)@ == old(m)@.remove(*k),
        r == old(m)@.get(*k),
{
    m.remove(k)
}

/// `HashMap::get` on a map that hashes with `FnvHasher`: the value of the
/// key, if the key is in the map.
#[verifier::external_body]
fn fnv_get<'a, K: Eq + Hash, V>(m: &'a HashMap<K, V, BuildHasherDefault<FnvHasher>>, k: &K) -> (r:
    Option<&'a V>)
    requires
        obeys_key_model::<K>(),
    ensures
        r is Some <==> m@.contains_key(*k),
        r is Some ==> *r->0 == m@[*k],
{
    m.get(k)
}

/// `HashMap::len` on a map that hashes with `FnvHasher`: the number of keys.
#[verifier::external_body]
fn fnv_len<K, V>(m: &HashMap<K, V, BuildHasherDefault<FnvHasher>>) -> (r: usize)
    ensures
        r == m@.dom().len(),
{
    m.len()
}

/// `HashMap::keys` on a map that hashes with `FnvHasher`, gathered in a
/// vector: every key of the map, each once. Nothing is said of their order.
#[verifier::external_body]
fn fnv_keys<K: Copy, V>(m: &HashMap<K, V, BuildHasherDefault<FnvHasher>>) -> (r: Vec<K>)
    ensures
        r@.no_duplicates(),
        forall|k: K| r@.contains(k) <==> m@.contains_key(k),
{
    m.keys().copied().collect()
}

/// A hash table that hashes with the Fowler-Noll-Vo function.
#[derive(Clone)]
pub struct Table<K, V> {
    map: HashMap<K, V, BuildHasherDefault<FnvHasher>>,
}

impl<K, V> View for Table<K, V> {
    type V = Map<K, V>;

    closed spec fn view(&self) -> Map<K, V> {
        self.map@
    }
}

impl<K: Eq + Hash, V> Table<K, V> {
    /// The empty table.
    pub fn new() -> (t: Self)
        ensures
            t@ == Map::<K, V>::empty(),
    {
        let map = fnv_new();
        proof {
            assert(map@ =~= Map::<K, V>::empty());
        }
        Table { map }
    }

    /// Puts the value at the key and returns the value that was there.
    pub fn insert(&mut self, k: K, v: V) -> (r: Option<V>)
        requires
            obeys_key_model::<K>(),
        ensures
            final(self)@ == old(self)@.insert(k, v),
            r == old(self)@.get(k),
    {
        fnv_insert(&mut self.map, k, v)
    }

    /// Takes the key out and returns the value that was there.
    pub fn remove(&mut self, k: &K) -> (r: Option<V>)
        requires
            obeys_key_model::<K>(),
        ensures
            final(self)@ == old(self)@.remove(*k),
            r == old(self)@.get(*k),
    {
        fnv_remove(&mut self.map, k)
    }

    /// The value at the key.
    pub fn get(&self, k: &K) -> (r: Option<&V>)
        requires
            obeys_key_model::<K>(),
        ensures
            r is Some <==> self@.contains_key(*k),
            r is Some ==> *r->0 == self@[*k],
    {
        fnv_get(&self.map, k)
    }

    /// Whether the key is in the table.
    pub fn contains_key(&self, k: &K) -> (r: bool)
        requires
            obeys_key_model::<K>(),
        ensures
            r == self@.contains_key(*k),
    {
        fnv_get(&self.map, k).is_some()
    }

    /// The number of keys.
    pub fn len(&self) -> (r: usize)
        ensures
            r == self@.dom().len(),
    {
        fnv_len(&self.map)
    }

    /// Empties the table.
    pub fn clear(&mut self)
        ensures
            final(self)@ == Map::<K, V>::empty(),
    {
        let map = fnv_new();
        proof {
            assert(map@ =~= Map::<K, V>::empty());
        }
        self.map = map;
    }
}

impl<K: Eq + Hash + Copy, V> Table<K, V> {
    /// The keys, each once, in the order in which the table walks them.
    pub fn keys(&self) -> (r: Vec<K>)
        ensures
            r@.no_duplicates(),
            forall|k: K| r@.contains(k) <==> self@.contains_key(k),
    {
        fnv_keys(&self.map)
    }
}

/// A set of keys that hashes with the Fowler-Noll-Vo function.
pub struct KeySet {
    table: Table<u128, ()>,
}

impl View for KeySet {
    type V = Set<u128>;

    closed spec fn view(&self) -> Set<u128> {
        self.table@.dom()
    }
}

impl KeySet {
    /// The empty set.
    pub fn new() -> (s: Self)
        ensures
            s@ == Set::<u128>::empty(),
    {
        let s = KeySet { table: Table::new() };
        proof {
            assert(s@ =~= Set::<u128>::empty());
        }
        s
    }

    /// Puts the key into the set, and says whether it was new.
    pub fn insert(&mut self, k: u128) -> (r: bool)
        ensures
            final(self)@ == old(self)@.insert(k),
            r == !old(self)@.contains(k),
    {
        let was = self.table.insert(k, ());
        proof {
            assert(self@ =~= old(self)@.insert(k));
        }
        was.is_none()
    }

    /// Whether the key is in the set.
    pub fn contains(&self, k: &u128) -> (r: bool)
        ensures
            r == self@.contains(*k),
    {
        self.table.contains_key(k)
    }
}

} // verus!
