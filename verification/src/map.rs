//! Small maps behind one interface: a fixed array of slots indexed by the
//! key, and a sorted vector searched by bisection.
use vstd::prelude::*;

pub mod hash_map;
pub mod index_map;
pub mod small_map;

pub use hash_map::HashMapFactory;
pub use index_map::{IndexMapFactory, Slice};
pub use small_map::{SmallMap, SmallMapFactory};

verus! {

/// A finite map that can be written to.
///
/// `contents` is what the map holds; `accepts` says which keys it can hold
/// (a bounded table refuses keys outside its range).
pub trait BaseMap<K, V>: Sized {
    spec fn contents(&self) -> Map<K, V>;

    spec fn accepts(&self, k: K) -> bool;

    /// Stores `v` under `k` and gives back what `k` held before.
    fn insert(&mut self, k: K, v: V) -> (r: Option<V>)
        requires
            old(self).accepts(k),
        ensures
            final(self).contents() == old(self).contents().insert(k, v),
            r == (if old(self).contents().dom().contains(k) {
                Some(old(self).contents()[k])
            } else {
                None
            }),
            forall|q: K| #[trigger] final(self).accepts(q) == old(self).accepts(q),
    ;
}

/// A map that can be read.
pub trait MapQuery<K, V>: BaseMap<K, V> {
    /// What `q` maps to, if anything.
    fn get(&self, q: &K) -> (r: Option<&V>)
        requires
            self.accepts(*q),
        ensures
            r == (if self.contents().dom().contains(*q) {
                Some(&self.contents()[*q])
            } else {
                None
            }),
    ;
}

/// A map that hands out a place to write, creating the entry on demand.
pub trait MapInsert<K, V>: MapQuery<K, V> {
    /// The value under `q`, first storing `f()` there if `q` held nothing.
    fn get_mut_or_insert_with<F: FnOnce() -> V>(&mut self, q: &K, f: F) -> (r: &mut V)
        requires
            old(self).accepts(*q),
            !old(self).contents().dom().contains(*q) ==> f.requires(()),
        ensures
            old(self).contents().dom().contains(*q) ==> *r == old(self).contents()[*q],
            !old(self).contents().dom().contains(*q) ==> f.ensures((), *r),
            final(self).contents() == old(self).contents().insert(*q, *final(r)),
            forall|k: K| #[trigger] final(self).accepts(k) == old(self).accepts(k),
    ;
}

/// Chooses the map type that holds values of type `V` under keys of type
/// `K`.
pub trait MapFactory<K, V> {
    type MapKind: MapInsert<K, V>;
}

/// Chooses the map type for a fixed key type `K`; every `MapFactory` is
/// one.
pub trait TMapFactory<K, V> {
    type MapKind: MapInsert<K, V>;
}

impl<K, V, T: MapFactory<K, V>> TMapFactory<K, V> for T {
    type MapKind = <T as MapFactory<K, V>>::MapKind;
}

} // verus!
