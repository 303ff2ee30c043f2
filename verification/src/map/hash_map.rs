use std::collections::hash_map::Entry;
use std::collections::HashMap;
use std::hash::Hash;

use vstd::prelude::*;
use vstd::std_specs::hash::*;

use super::{BaseMap, MapFactory, MapInsert, MapQuery};

verus! {

/// Marker for maps stored as `std::collections::HashMap`s.
pub struct HashMapFactory;

impl<K: Hash + Eq, V> BaseMap<K, V> for HashMap<K, V> {
    open spec fn contents(&self) -> Map<K, V> {
        self@
    }

    /// Keys whose hashing and equality agree with spec equality.
    open spec fn accepts(&self, k: K) -> bool {
        obeys_key_model::<K>()
    }

    fn insert(&mut self, k: K, v: V) -> (r: Option<V>) {
        broadcast use group_hash_axioms;

        HashMap::insert(self, k, v)
    }
}

impl<K: Hash + Eq, V> MapQuery<K, V> for HashMap<K, V> {
    fn get(&self, q: &K) -> (r: Option<&V>) {
        broadcast use group_hash_axioms;

        HashMap::get(self, q)
    }
}

impl<K: Hash + Eq + Copy, V> MapInsert<K, V> for HashMap<K, V> {
    fn get_mut_or_insert_with<F: FnOnce() -> V>(&mut self, q: &K, f: F) -> (r: &mut V) {
        broadcast use group_hash_axioms;

        match self.entry(*q) {
            Entry::Occupied(o) => o.into_mut(),
            Entry::Vacant(v) => v.insert(f()),
        }
    }
}

impl<K: Hash + Eq + Copy, V> MapFactory<K, V> for HashMapFactory {
    type MapKind = HashMap<K, V>;
}

} // verus!
