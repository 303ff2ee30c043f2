use vstd::prelude::*;

use super::{BaseMap, MapFactory, MapInsert, MapQuery};

verus! {

/// A map from `0..N` held as `N` slots.
pub struct Slice<T, const N: usize>(Vec<Option<T>>);

/// Marker for maps keyed by small integers, stored as `Slice`s of `N` slots.
pub struct IndexMapFactory<const N: usize>;

impl<T, const N: usize> Slice<T, N> {
    /// There are exactly `N` slots.
    #[verifier::type_invariant]
    closed spec fn slot_count(self) -> bool {
        self.0@.len() == N
    }

    /// The slots, in key order.
    pub closed spec fn slots(&self) -> Seq<Option<T>> {
        self.0@
    }

    /// A map with all `N` slots empty.
    pub fn new() -> (r: Self)
        ensures
            r.contents() == Map::<usize, T>::empty(),
            forall|k: usize| #[trigger] r.accepts(k) == (k < N),
    {
        let mut v: Vec<Option<T>> = Vec::new();
        let mut i: usize = 0;
        while i < N
            invariant
                i <= N,
                v@.len() == i,
                forall|j: int| 0 <= j < i ==> v@[j] is None,
            decreases N - i,
        {
            v.push(None);
            i = i + 1;
        }
        let r = Slice(v);
        assert(r.contents() =~= Map::<usize, T>::empty());
        r
    }
}

impl<T, const N: usize> Default for Slice<T, N> {
    fn default() -> (r: Self)
        ensures
            r.contents() == Map::<usize, T>::empty(),
            forall|k: usize| #[trigger] r.accepts(k) == (k < N),
    {
        Self::new()
    }
}

impl<T, const N: usize> BaseMap<usize, T> for Slice<T, N> {
    closed spec fn contents(&self) -> Map<usize, T> {
        Map::new(|k: usize| k < self.0@.len() && self.0@[k as int] is Some, |k: usize| self.0@[k as int]->0)
    }

    open spec fn accepts(&self, k: usize) -> bool {
        k < N
    }

    fn insert(&mut self, k: usize, v: T) -> (r: Option<T>) {
        proof {
            use_type_invariant(&*self);
        }
        let mut slot: Option<T> = Some(v);
        std::mem::swap(&mut slot, &mut self.0[k]);
        assert(self.contents() =~= old(self).contents().insert(k, v));
        slot
    }
}

impl<T, const N: usize> MapQuery<usize, T> for Slice<T, N> {
    fn get(&self, q: &usize) -> (r: Option<&T>) {
        proof {
            use_type_invariant(self);
        }
        self.0[*q].as_ref()
    }
}

impl<T, const N: usize> MapInsert<usize, T> for Slice<T, N> {
    fn get_mut_or_insert_with<F: FnOnce() -> T>(&mut self, q: &usize, f: F) -> (r: &mut T) {
        proof {
            use_type_invariant(&*self);
        }
        let k = *q;
        let slot = &mut self.0[k];
        if slot.is_none() {
            let v = f();
            slot.insert(v)
        } else {
            slot.as_mut().unwrap()
        }
    }
}

impl<V, const N: usize> MapFactory<usize, V> for IndexMapFactory<N> {
    type MapKind = Slice<V, N>;
}

} // verus!
