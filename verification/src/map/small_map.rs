use vstd::prelude::*;

use super::{BaseMap, MapFactory, MapInsert, MapQuery};
use vstd::std_specs::cmp::OrdSpec;

verus! {

/// A map held as a vector of entries sorted by key, searched by bisection.
pub struct SmallMap<K: Ord, V>(Vec<(K, V)>);

/// Marker for maps stored as `SmallMap`s.
pub struct SmallMapFactory;

/// The keys of `s` increase strictly.
pub open spec fn keys_increasing<V>(s: Seq<(u64, V)>) -> bool {
    forall|i: int, j: int| 0 <= i < j < s.len() ==> s[i].0 < s[j].0
}

/// Some entry of `s` has key `k`.
pub open spec fn has_key<V>(s: Seq<(u64, V)>, k: u64) -> bool {
    exists|i: int| 0 <= i < s.len() && s[i].0 == k
}

/// The position of the entry with key `k`.
pub open spec fn position_of<V>(s: Seq<(u64, V)>, k: u64) -> int {
    choose|i: int| 0 <= i < s.len() && s[i].0 == k
}

/// The map that the entries of `s` make.
pub open spec fn entries_map<V>(s: Seq<(u64, V)>) -> Map<u64, V> {
    Map::new(|k: u64| has_key(s, k), |k: u64| s[position_of(s, k)].1)
}

proof fn lemma_position<V>(s: Seq<(u64, V)>, i: int)
    requires
        keys_increasing(s),
        0 <= i < s.len(),
    ensures
        has_key(s, s[i].0),
        position_of(s, s[i].0) == i,
        entries_map(s).dom().contains(s[i].0),
        entries_map(s)[s[i].0] == s[i].1,
{
    let k = s[i].0;
    assert(has_key(s, k));
    let p = position_of(s, k);
    if p < i {
        assert(s[p].0 < s[i].0);
    } else if p > i {
        assert(s[i].0 < s[p].0);
    }
}

/// `<[T]>::binary_search_by_key` on the keys of entries whose keys increase
/// strictly: `Ok` with the position of the entry with key `key`, or `Err`
/// with the position where such an entry would go, after the smaller keys
/// and before the larger ones.
#[verifier::external_body]
fn search_key<V>(entries: &Vec<(u64, V)>, key: u64) -> (r: Result<usize, usize>)
    requires
        keys_increasing(entries@),
    ensures
        match r {
            Ok(i) => i < entries@.len() && entries@[i as int].0 == key,
            Err(i) => i <= entries@.len() && (forall|j: int| 0 <= j < i ==> #[trigger] entries@[j].0
                < key) && (forall|j: int| i <= j < entries@.len() ==> #[trigger] entries@[j].0 > key),
        },
{
    entries.binary_search_by_key(&key, |e| e.0)
}

impl<K: Ord, V> SmallMap<K, V> {
    /// The keys increase strictly, in the order of `K`.
    #[verifier::type_invariant]
    spec fn keys_in_order(self) -> bool {
        forall|i: int, j: int|
            0 <= i < j < self.0@.len() ==> #[trigger] self.0@[i].0.cmp_spec(&self.0@[j].0)
                == core::cmp::Ordering::Less
    }
}

impl<K: Ord, V> SmallMap<K, V> {
    /// An empty map.
    pub fn new() -> (r: Self)
        ensures
            r.entries() == Seq::<(K, V)>::empty(),
    {
        SmallMap(Vec::new())
    }

    /// The entries, in key order.
    pub closed spec fn entries(&self) -> Seq<(K, V)> {
        self.0@
    }
}

impl<K: Ord, V> Default for SmallMap<K, V> {
    fn default() -> (r: Self)
        ensures
            r.entries() == Seq::<(K, V)>::empty(),
    {
        SmallMap(Vec::new())
    }
}

/// For `u64` keys, being in the order of `u64` is increasing strictly.
proof fn lemma_u64_order<V>(m: SmallMap<u64, V>)
    ensures
        m.keys_in_order() <==> keys_increasing(m.0@),
{
    let s = m.0@;
    if m.keys_in_order() {
        assert forall|i: int, j: int| 0 <= i < j < s.len() implies s[i].0 < s[j].0 by {
            assert(s[i].0.cmp_spec(&s[j].0) == core::cmp::Ordering::Less);
        }
    }
    if keys_increasing(s) {
        assert forall|i: int, j: int| 0 <= i < j < s.len() implies #[trigger] s[i].0.cmp_spec(
            &s[j].0,
        ) == core::cmp::Ordering::Less by {
            assert(s[i].0 < s[j].0);
        }
    }
}

proof fn lemma_insert_entry<V>(s: Seq<(u64, V)>, i: int, k: u64, v: V)
    requires
        keys_increasing(s),
        0 <= i <= s.len(),
        forall|j: int| 0 <= j < i ==> #[trigger] s[j].0 < k,
        forall|j: int| i <= j < s.len() ==> #[trigger] s[j].0 > k,
    ensures
        keys_increasing(s.insert(i, (k, v))),
        entries_map(s.insert(i, (k, v))) == entries_map(s).insert(k, v),
        !entries_map(s).dom().contains(k),
{
    let t = s.insert(i, (k, v));
    assert forall|a: int, b: int| 0 <= a < b < t.len() implies t[a].0 < t[b].0 by {
        if b < i {
        } else if b == i {
        } else if a < i {
            assert(t[b] == s[b - 1]);
        } else if a == i {
            assert(t[b] == s[b - 1]);
        } else {
            assert(t[a] == s[a - 1]);
            assert(t[b] == s[b - 1]);
        }
    }
    assert(!has_key(s, k)) by {
        if has_key(s, k) {
            let p = choose|p: int| 0 <= p < s.len() && s[p].0 == k;
            if p < i {
            } else {
            }
        }
    }
    assert forall|q: u64| #![trigger entries_map(t).dom().contains(q)]
        entries_map(t).dom().contains(q) == entries_map(s).insert(k, v).dom().contains(q)
        && (entries_map(t).dom().contains(q) ==> entries_map(t)[q] == entries_map(s).insert(k, v)[q]) by {
        if q == k {
            lemma_position(t, i);
        } else if has_key(s, q) {
            let p = choose|p: int| 0 <= p < s.len() && s[p].0 == q;
            lemma_position(s, p);
            if p < i {
                assert(t[p] == s[p]);
                lemma_position(t, p);
            } else {
                assert(t[p + 1] == s[p]);
                lemma_position(t, p + 1);
            }
        } else {
            if has_key(t, q) {
                let p = choose|p: int| 0 <= p < t.len() && t[p].0 == q;
                if p < i {
                    assert(s[p] == t[p]);
                } else if p > i {
                    assert(s[p - 1] == t[p]);
                }
            }
        }
    }
    assert(entries_map(t) =~= entries_map(s).insert(k, v));
}

proof fn lemma_update_entry<V>(s: Seq<(u64, V)>, i: int, v: V)
    requires
        keys_increasing(s),
        0 <= i < s.len(),
    ensures
        keys_increasing(s.update(i, (s[i].0, v))),
        entries_map(s.update(i, (s[i].0, v))) == entries_map(s).insert(s[i].0, v),
{
    let t = s.update(i, (s[i].0, v));
    let k = s[i].0;
    assert forall|q: u64| #![trigger entries_map(t).dom().contains(q)]
        entries_map(t).dom().contains(q) == entries_map(s).insert(k, v).dom().contains(q)
        && (entries_map(t).dom().contains(q) ==> entries_map(t)[q] == entries_map(s).insert(k, v)[q]) by {
        if q == k {
            lemma_position(t, i);
        } else if has_key(s, q) {
            let p = choose|p: int| 0 <= p < s.len() && s[p].0 == q;
            lemma_position(s, p);
            lemma_position(t, p);
        } else {
            if has_key(t, q) {
                let p = choose|p: int| 0 <= p < t.len() && t[p].0 == q;
                assert(s[p].0 == t[p].0);
            }
        }
    }
    assert(entries_map(t) =~= entries_map(s).insert(k, v));
}

proof fn lemma_absent<V>(s: Seq<(u64, V)>, i: int, k: u64)
    requires
        0 <= i <= s.len(),
        forall|j: int| 0 <= j < i ==> #[trigger] s[j].0 < k,
        forall|j: int| i <= j < s.len() ==> #[trigger] s[j].0 > k,
    ensures
        !entries_map(s).dom().contains(k),
{
    if has_key(s, k) {
        let p = choose|p: int| 0 <= p < s.len() && s[p].0 == k;
        if p < i {
        } else {
        }
    }
}

impl<V> BaseMap<u64, V> for SmallMap<u64, V> {
    open spec fn contents(&self) -> Map<u64, V> {
        entries_map(self.entries())
    }

    open spec fn accepts(&self, k: u64) -> bool {
        true
    }

    /// Beyond the contents: the keys still increase strictly, and there is
    /// one entry more exactly when `k` was new.
    fn insert(&mut self, k: u64, value: V) -> (r: Option<V>)
        ensures
            keys_increasing(final(self).entries()),
            final(self).entries().len() == old(self).entries().len() + if r is None {
                1int
            } else {
                0int
            },
    {
        proof {
            use_type_invariant(&*self);
            lemma_u64_order(*self);
        }
        match search_key(&self.0, k) {
            Ok(index) => {
                proof {
                    lemma_position(self.0@, index as int);
                    lemma_update_entry(self.0@, index as int, value);
                }
                let mut v = value;
                std::mem::swap(&mut v, value_mut(&mut self.0, index));
                Some(v)
            },
            Err(index) => {
                proof {
                    lemma_insert_entry(self.0@, index as int, k, value);
                }
                let mut entries: Vec<(u64, V)> = Vec::new();
                std::mem::swap(&mut entries, &mut self.0);
                entries.insert(index, (k, value));
                proof {
                    lemma_u64_order(SmallMap(entries));
                }
                self.0 = entries;
                None
            },
        }
    }
}

/// The value of entry `i`, to write to; the key stays.
fn value_mut<V>(entries: &mut Vec<(u64, V)>, i: usize) -> (r: &mut V)
    requires
        i < old(entries)@.len(),
    ensures
        *r == old(entries)@[i as int].1,
        final(entries)@ == old(entries)@.update(i as int, (old(entries)@[i as int].0, *final(r))),
    no_unwind
{
    &mut entries[i].1
}

impl<V> MapQuery<u64, V> for SmallMap<u64, V> {
    /// Beyond the contents: the keys increase strictly, and the value
    /// given is that of the one entry with key `q`.
    fn get(&self, q: &u64) -> (r: Option<&V>)
        ensures
            keys_increasing(self.entries()),
            r is None <==> !has_key(self.entries(), *q),
            forall|i: int|
                0 <= i < self.entries().len() && #[trigger] self.entries()[i].0 == *q ==> r == Some(
                    &self.entries()[i].1,
                ),
    {
        proof {
            use_type_invariant(self);
            lemma_u64_order(*self);
        }
        match search_key(&self.0, *q) {
            Ok(index) => {
                proof {
                    lemma_position(self.0@, index as int);
                }
                Some(&self.0[index].1)
            },
            Err(index) => {
                proof {
                    lemma_absent(self.0@, index as int, *q);
                }
                None
            },
        }
    }
}

impl<V> MapInsert<u64, V> for SmallMap<u64, V> {
    /// Beyond the contents: the keys still increase strictly, and there is
    /// one entry more exactly when `q` was new.
    fn get_mut_or_insert_with<F: FnOnce() -> V>(&mut self, q: &u64, f: F) -> (r: &mut V)
        ensures
            keys_increasing(final(self).entries()),
            final(self).entries().len() == old(self).entries().len() + if has_key(
                old(self).entries(),
                *q,
            ) {
                0int
            } else {
                1int
            },
    {
        proof {
            use_type_invariant(&*self);
            lemma_u64_order(*self);
        }
        let k = *q;
        match search_key(&self.0, k) {
            Ok(index) => {
                proof {
                    lemma_position(self.0@, index as int);
                }
                let ghost old_entries = self.0@;
                let r = value_mut(&mut self.0, index);
                proof {
                    lemma_update_entry(old_entries, index as int, *final(r));
                }
                r
            },
            Err(index) => {
                let v = f();
                let ghost before = self.0@;
                proof {
                    lemma_insert_entry(before, index as int, k, v);
                }
                let mut entries: Vec<(u64, V)> = Vec::new();
                std::mem::swap(&mut entries, &mut self.0);
                entries.insert(index, (k, v));
                proof {
                    lemma_u64_order(SmallMap(entries));
                }
                self.0 = entries;
                let ghost old_entries = self.0@;
                let r = value_mut(&mut self.0, index);
                proof {
                    lemma_update_entry(old_entries, index as int, *final(r));
                    assert(old_entries.update(index as int, (k, *final(r))) =~= before.insert(
                        index as int,
                        (k, *final(r)),
                    ));
                    lemma_insert_entry(before, index as int, k, *final(r));
                }
                r
            },
        }
    }
}

impl<V> MapFactory<u64, V> for SmallMapFactory {
    type MapKind = SmallMap<u64, V>;
}

} // verus!
