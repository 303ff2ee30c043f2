//! A trie over byte strings, stored as a tree of sixteen-way nodes: every
//! byte of a key is walked as two nibbles, low nibble first.
use vstd::prelude::*;
use vstd::utf8::*;

use crate::map::{BaseMap, MapInsert, MapQuery, Slice};

verus! {

pub open spec fn low_nibble(b: u8) -> u8 {
    b & 0x0F
}

pub open spec fn high_nibble(b: u8) -> u8 {
    (b >> 4) & 0x0F
}

/// The nibbles of `bytes`, two per byte, the low nibble first.
pub open spec fn nibbles(bytes: Seq<u8>) -> Seq<u8>
    decreases bytes.len(),
{
    if bytes.len() == 0 {
        seq![]
    } else {
        seq![low_nibble(bytes[0]), high_nibble(bytes[0])] + nibbles(bytes.drop_first())
    }
}

pub proof fn lemma_nibble_bounds(b: u8)
    ensures
        low_nibble(b) < 16,
        high_nibble(b) < 16,
{
    assert(b & 0x0F < 16) by (bit_vector);
    assert((b >> 4) & 0x0F < 16) by (bit_vector);
}

pub proof fn lemma_nibbles_len(bytes: Seq<u8>)
    ensures
        nibbles(bytes).len() == 2 * bytes.len(),
    decreases bytes.len(),
{
    if bytes.len() > 0 {
        lemma_nibbles_len(bytes.drop_first());
    }
}

pub proof fn lemma_nibbles_small(bytes: Seq<u8>)
    ensures
        forall|i: int| 0 <= i < nibbles(bytes).len() ==> #[trigger] nibbles(bytes)[i] < 16,
    decreases bytes.len(),
{
    if bytes.len() > 0 {
        lemma_nibble_bounds(bytes[0]);
        lemma_nibbles_small(bytes.drop_first());
        let head = seq![low_nibble(bytes[0]), high_nibble(bytes[0])];
        assert forall|i: int| 0 <= i < nibbles(bytes).len() implies #[trigger] nibbles(bytes)[i]
            < 16 by {
            if i >= 2 {
                assert(nibbles(bytes)[i] == nibbles(bytes.drop_first())[i - 2]);
            } else {
                assert(nibbles(bytes)[i] == head[i]);
            }
        }
    }
}

pub proof fn lemma_nibbles_append(x: Seq<u8>, y: Seq<u8>)
    ensures
        nibbles(x + y) == nibbles(x) + nibbles(y),
    decreases x.len(),
{
    if x.len() == 0 {
        assert(x + y =~= y);
    } else {
        lemma_nibbles_append(x.drop_first(), y);
        assert((x + y).drop_first() =~= x.drop_first() + y);
        assert(nibbles(x + y) =~= nibbles(x) + nibbles(y));
    }
}

pub proof fn lemma_nibbles_injective(x: Seq<u8>, y: Seq<u8>)
    requires
        nibbles(x) == nibbles(y),
    ensures
        x == y,
    decreases x.len(),
{
    lemma_nibbles_len(x);
    lemma_nibbles_len(y);
    if x.len() > 0 {
        let (a, b) = (x[0], y[0]);
        assert(nibbles(x)[0] == low_nibble(a));
        assert(nibbles(x)[1] == high_nibble(a));
        assert(nibbles(y)[0] == low_nibble(b));
        assert(nibbles(y)[1] == high_nibble(b));
        assert(a & 0x0F == b & 0x0F && (a >> 4) & 0x0F == (b >> 4) & 0x0F ==> a == b)
            by (bit_vector);
        assert(nibbles(x.drop_first()) =~= nibbles(x).skip(2));
        assert(nibbles(y.drop_first()) =~= nibbles(y).skip(2));
        lemma_nibbles_injective(x.drop_first(), y.drop_first());
        assert(a == b);
        assert forall|i: int| 0 <= i < x.len() implies x[i] == y[i] by {
            if i > 0 {
                assert(x[i] == x.drop_first()[i - 1]);
                assert(y[i] == y.drop_first()[i - 1]);
            }
        }
        assert(x =~= y);
    }
}

/// Walks a byte string as nibbles, low nibble first.
pub struct Iter<'a> {
    inner: &'a [u8],
    pos: usize,
    last: Option<u8>,
}

impl<'a> Iter<'a> {
    #[verifier::type_invariant]
    closed spec fn in_bounds(self) -> bool {
        self.pos <= self.inner@.len()
    }

    /// The nibbles that are still to come.
    pub closed spec fn remaining(self) -> Seq<u8> {
        (match self.last {
            Some(h) => seq![h],
            None => Seq::<u8>::empty(),
        }) + nibbles(self.inner@.skip(self.pos as int))
    }

    /// An iterator over the nibbles of `iter`.
    pub fn new(iter: &'a [u8]) -> (r: Self)
        ensures
            r.remaining() == nibbles(iter@),
    {
        let r = Iter { inner: iter, pos: 0, last: None };
        assert(iter@.skip(0) =~= iter@);
        assert(r.remaining() =~= nibbles(iter@));
        r
    }

    /// The next nibble, if any.
    pub fn next(&mut self) -> (r: Option<u8>)
        ensures
            old(self).remaining().len() == 0 ==> r is None
                && final(self).remaining() == old(self).remaining(),
            old(self).remaining().len() > 0 ==> r == Some(old(self).remaining()[0])
                && final(self).remaining() == old(self).remaining().drop_first(),
    {
        proof {
            use_type_invariant(&*self);
        }
        if self.last.is_some() {
            let r = self.last;
            self.last = None;
            assert(final(self).remaining() =~= old(self).remaining().drop_first());
            return r;
        }
        assert(self.remaining() =~= nibbles(self.inner@.skip(self.pos as int)));
        if self.pos >= self.inner.len() {
            assert(self.inner@.skip(self.pos as int) =~= Seq::<u8>::empty());
            return None;
        }
        let c = self.inner[self.pos];
        let low = c & 0x0F;
        let high = (c >> 4) & 0x0F;
        proof {
            let rest = self.inner@.skip(self.pos as int);
            assert(rest.drop_first() =~= self.inner@.skip(self.pos + 1));
            assert(rest[0] == c);
        }
        self.pos = self.pos + 1;
        self.last = Some(high);
        assert(final(self).remaining() =~= old(self).remaining().drop_first());
        Some(low)
    }
}

/// A trie node: the value stored at its key, if any, and up to sixteen
/// children, one per nibble, in a table made at the first child.
pub struct Node<V> {
    value: Option<V>,
    next: Option<Slice<Box<Node<V>>, 16>>,
}

/// A trie of dictionary entries, keyed by their UTF-8 bytes.
pub type TrieNode = Node<i64>;

impl<V> Node<V> {
    /// The children of this node, keyed by nibble.
    pub closed spec fn children(self) -> Map<usize, Box<Node<V>>> {
        match self.next {
            Some(t) => t.contents(),
            None => Map::empty(),
        }
    }

    /// The node reached from this one by following the nibble path `q`.
    pub closed spec fn node_at(self, q: Seq<u8>) -> Option<Node<V>>
        decreases q.len(),
    {
        if q.len() == 0 {
            Some(self)
        } else if self.children().dom().contains(q[0] as usize) {
            (*self.children()[q[0] as usize]).node_at(q.drop_first())
        } else {
            None
        }
    }

    /// The value stored under the nibble path `q`.
    pub closed spec fn value_at(self, q: Seq<u8>) -> Option<V> {
        match self.node_at(q) {
            Some(n) => n.value,
            None => None,
        }
    }

    pub closed spec fn is_empty_node(self) -> bool {
        &&& self.value is None
        &&& self.children() == Map::<usize, Box<Node<V>>>::empty()
    }

    proof fn lemma_empty_node(self, q: Seq<u8>)
        requires
            self.is_empty_node(),
        ensures
            self.value_at(q) is None,
    {
    }

    /// Following `a` then `b` is following `a + b`.
    pub proof fn lemma_node_at_append(self, a: Seq<u8>, b: Seq<u8>)
        ensures
            self.node_at(a + b) == (match self.node_at(a) {
                Some(m) => m.node_at(b),
                None => None,
            }),
        decreases a.len(),
    {
        if a.len() == 0 {
            assert(a + b =~= b);
        } else {
            assert((a + b)[0] == a[0]);
            assert((a + b).drop_first() =~= a.drop_first() + b);
            if self.children().dom().contains(a[0] as usize) {
                (*self.children()[a[0] as usize]).lemma_node_at_append(a.drop_first(), b);
            }
        }
    }
}

impl<V> Node<V> {
    /// Every node below this one leads to a stored key: a node is made only
    /// on the way to a key, and keys are never removed.
    pub closed spec fn wf(self) -> bool {
        forall|q: Seq<u8>|
            q.len() > 0 && #[trigger] self.node_at(q) is Some ==> exists|k: Seq<u8>|
                q.is_prefix_of(nibbles(k)) && #[trigger] self.value_at(nibbles(k)) is Some
    }

    /// A node with no value and no children has nothing below it.
    proof fn lemma_empty_node_at(self, q: Seq<u8>)
        requires
            self.is_empty_node(),
            self.node_at(q) is Some,
        ensures
            q.len() == 0,
    {
    }
}

/// A byte string whose nibbles start the nibbles of `k` starts `k`.
proof fn lemma_nibble_prefix(p: Seq<u8>, k: Seq<u8>)
    requires
        nibbles(p).is_prefix_of(nibbles(k)),
    ensures
        k == p + k.skip(p.len() as int),
{
    let m = p.len() as int;
    lemma_nibbles_len(p);
    lemma_nibbles_len(k);
    assert(m <= k.len());
    assert(k =~= k.take(m) + k.skip(m));
    lemma_nibbles_append(k.take(m), k.skip(m));
    lemma_nibbles_len(k.take(m));
    assert(nibbles(k).subrange(0, 2 * m) =~= nibbles(k.take(m)));
    lemma_nibbles_injective(p, k.take(m));
}

impl<V> View for Node<V> {
    type V = Map<Seq<u8>, V>;

    /// The entries of the trie below this node, keyed by bytes.
    closed spec fn view(&self) -> Map<Seq<u8>, V> {
        Map::new(
            |k: Seq<u8>| self.value_at(nibbles(k)) is Some,
            |k: Seq<u8>| self.value_at(nibbles(k))->0,
        )
    }
}

/// The entries of `m` whose key starts with `p`, with `p` cut off.
pub open spec fn entries_below<V>(m: Map<Seq<u8>, V>, p: Seq<u8>) -> Map<Seq<u8>, V> {
    Map::new(|k: Seq<u8>| m.contains_key(p + k), |k: Seq<u8>| m[p + k])
}

/// No key of `m` starts with `p`.
pub open spec fn no_key_below<V>(m: Map<Seq<u8>, V>, p: Seq<u8>) -> bool {
    forall|k: Seq<u8>| !#[trigger] m.contains_key(p + k)
}

impl<V: Copy> Node<V> {
    /// An empty trie.
    pub fn new() -> (r: Node<V>)
        ensures
            r@ == Map::<Seq<u8>, V>::empty(),
            r.is_empty_node(),
            r.wf(),
    {
        let r = Node { value: None, next: None };
        assert(r@ =~= Map::<Seq<u8>, V>::empty());
        assert forall|q: Seq<u8>| q.len() > 0 && #[trigger] r.node_at(q) is Some implies exists|
            k: Seq<u8>,
        | q.is_prefix_of(nibbles(k)) && #[trigger] r.value_at(nibbles(k)) is Some by {
            r.lemma_empty_node_at(q);
        }
        r
    }

    /// The value stored at this node itself, that is under the empty key.
    pub fn value(&self) -> (r: Option<V>)
        ensures
            r == (if self@.contains_key(Seq::empty()) {
                Some(self@[Seq::empty()])
            } else {
                None
            }),
            r == self.value_at(Seq::empty()),
    {
        assert(nibbles(Seq::<u8>::empty()) =~= Seq::<u8>::empty());
        self.value
    }

    fn insert_nibbles(&mut self, nibs: &Vec<u8>, pos: usize, value: V)
        requires
            pos <= nibs@.len(),
            forall|i: int| 0 <= i < nibs@.len() ==> #[trigger] nibs@[i] < 16,
        ensures
            forall|q: Seq<u8>| #[trigger]
                final(self).value_at(q) == if q == nibs@.skip(pos as int) {
                    Some(value)
                } else {
                    old(self).value_at(q)
                },
            forall|q: Seq<u8>| #[trigger] old(self).node_at(q) is Some ==> final(self).node_at(q) is Some,
            forall|q: Seq<u8>| #[trigger] final(self).node_at(q) is Some ==> old(self).node_at(q) is Some
                || q.is_prefix_of(nibs@.skip(pos as int)),
        decreases nibs@.len() - pos,
    {
        if pos == nibs.len() {
            self.value = Some(value);
            assert forall|q: Seq<u8>| #[trigger]
                final(self).value_at(q) == if q == nibs@.skip(pos as int) {
                    Some(value)
                } else {
                    old(self).value_at(q)
                } by {
                if q.len() == 0 {
                    assert(q =~= nibs@.skip(pos as int));
                }
            }
        } else {
            let k = nibs[pos] as usize;
            let ghost old_next = self.children();
            if self.next.is_none() {
                self.next = Some(Slice::new());
            }
            let table = self.next.as_mut().unwrap();
            let child = table.get_mut_or_insert_with(&k, empty_child);
            let ghost old_child = *child;
            child.insert_nibbles(nibs, pos + 1, value);
            proof {
                let tail = nibs@.skip(pos as int);
                assert(tail[0] == nibs@[pos as int]);
                assert(tail.drop_first() =~= nibs@.skip(pos + 1));
                assert(final(self).children() == old_next.insert(k, *child));
                assert forall|q: Seq<u8>| #[trigger]
                    final(self).value_at(q) == if q == tail {
                        Some(value)
                    } else {
                        old(self).value_at(q)
                    } by {
                    if q.len() == 0 {
                        assert(q != tail);
                    } else if q[0] as usize == k {
                        let qd = q.drop_first();
                        assert(final(self).node_at(q) == (*child).node_at(qd));
                        assert(final(self).value_at(q) == (*child).value_at(qd));
                        if old_next.dom().contains(k) {
                            assert(old(self).node_at(q) == old_child.node_at(qd));
                            assert(old(self).value_at(q) == old_child.value_at(qd));
                        } else {
                            old_child.lemma_empty_node(qd);
                            assert(old(self).node_at(q) is None);
                            assert(old(self).value_at(q) == old_child.value_at(qd));
                        }
                        if qd == tail.drop_first() {
                            assert(q.len() == tail.len());
                            assert forall|i: int| 0 <= i < q.len() implies q[i] == tail[i] by {
                                if i > 0 {
                                    assert(q[i] == qd[i - 1]);
                                    assert(tail[i] == tail.drop_first()[i - 1]);
                                }
                            }
                            assert(q =~= tail);
                        } else {
                            assert(q != tail);
                        }
                    } else {
                        assert(q != tail);
                        assert(final(self).node_at(q) == old(self).node_at(q));
                    }
                }
                assert forall|q: Seq<u8>| #[trigger] old(self).node_at(q) is Some implies
                    final(self).node_at(q) is Some by {
                    if q.len() > 0 && q[0] as usize == k {
                        let qd = q.drop_first();
                        assert(old_next.dom().contains(k));
                        assert(old(self).node_at(q) == old_child.node_at(qd));
                        assert(final(self).node_at(q) == (*child).node_at(qd));
                    }
                }
                assert forall|q: Seq<u8>| #[trigger] final(self).node_at(q) is Some implies
                    old(self).node_at(q) is Some || q.is_prefix_of(tail) by {
                    if q.len() > 0 && q[0] as usize == k {
                        let qd = q.drop_first();
                        assert(final(self).node_at(q) == (*child).node_at(qd));
                        if old_next.dom().contains(k) {
                            assert(old(self).node_at(q) == old_child.node_at(qd));
                        } else if old_child.node_at(qd) is Some {
                            old_child.lemma_empty_node_at(qd);
                            assert(q =~= seq![tail[0]]);
                        }
                        if qd.is_prefix_of(tail.drop_first()) && !(old(self).node_at(q) is Some) {
                            assert forall|i: int| 0 <= i < q.len() implies q[i] == tail[i] by {
                                if i > 0 {
                                    assert(q[i] == qd[i - 1]);
                                    assert(tail[i] == tail.drop_first()[i - 1]);
                                }
                            }
                            assert(tail.subrange(0, q.len() as int) =~= q);
                        }
                    } else if q.len() > 0 {
                        assert(final(self).node_at(q) == old(self).node_at(q));
                    }
                }
            }
        }
    }

    /// Stores `value` under the bytes of `path`.
    pub fn insert(&mut self, path: &[u8], value: V)
        ensures
            final(self)@ == old(self)@.insert(path@, value),
            old(self).wf() ==> final(self).wf(),
            forall|p: Seq<u8>| #[trigger] old(self).node_at(nibbles(p)) is Some ==> final(self).node_at(nibbles(p)) is Some,
    {
        let mut nibs: Vec<u8> = Vec::new();
        let mut it = Iter::new(path);
        loop
            invariant
                nibs@ + it.remaining() == nibbles(path@),
            ensures
                nibs@ == nibbles(path@),
            decreases it.remaining().len(),
        {
            match it.next() {
                Some(c) => {
                    nibs.push(c);
                    assert(nibs@ + it.remaining() =~= nibbles(path@));
                },
                None => {
                    assert(nibs@ =~= nibbles(path@));
                    break;
                },
            }
        }
        proof {
            lemma_nibbles_small(path@);
        }
        self.insert_nibbles(&nibs, 0, value);
        proof {
            assert(nibs@.skip(0) =~= nibs@);
            assert forall|k: Seq<u8>|
                #![trigger final(self)@.contains_key(k)]
                #![trigger old(self)@.insert(path@, value).contains_key(k)]
                true implies
                final(self)@.contains_key(k) == old(self)@.insert(path@, value).contains_key(k)
                && (final(self)@.contains_key(k) ==> final(self)@[k] == old(self)@.insert(path@, value)[k]) by {
                if nibbles(k) == nibbles(path@) {
                    lemma_nibbles_injective(k, path@);
                }
            }
            assert(final(self)@ =~= old(self)@.insert(path@, value));
            if old(self).wf() {
                assert forall|q: Seq<u8>| q.len() > 0 && #[trigger] final(self).node_at(q) is Some implies exists|
                    k: Seq<u8>,
                | q.is_prefix_of(nibbles(k)) && #[trigger] final(self).value_at(nibbles(k)) is Some by {
                    if old(self).node_at(q) is Some {
                        let k = choose|k: Seq<u8>|
                            q.is_prefix_of(nibbles(k)) && #[trigger] old(self).value_at(nibbles(k)) is Some;
                        assert(final(self).value_at(nibbles(k)) is Some);
                    } else {
                        assert(q.is_prefix_of(nibs@.skip(0)));
                        assert(final(self).value_at(nibbles(path@)) is Some);
                    }
                }
            }
        }
    }

    /// The node under the bytes of `path`, if there is one.
    pub fn seek(&self, path: &[u8]) -> (r: Option<&Node<V>>)
        ensures
            match r {
                Some(n) => self.node_at(nibbles(path@)) == Some(*n) && n@ == entries_below(self@, path@),
                None => self.node_at(nibbles(path@)) is None && no_key_below(self@, path@),
            },
            self.wf() ==> (r is Some <==> (path@.len() == 0 || !no_key_below(self@, path@))),
    {
        proof {
            lemma_nibbles_len(path@);
        }
        let mut p: &Node<V> = self;
        let mut it = Iter::new(path);
        let ghost mut consumed: Seq<u8> = Seq::empty();
        proof {
            lemma_nibbles_small(path@);
        }
        loop
            invariant
                consumed + it.remaining() == nibbles(path@),
                self.node_at(consumed) == Some(*p),
                forall|i: int| 0 <= i < nibbles(path@).len() ==> #[trigger] nibbles(path@)[i] < 16,
            decreases it.remaining().len(),
        {
            let ghost before = it.remaining();
            match it.next() {
                None => {
                    assert(consumed =~= nibbles(path@));
                    proof {
                        self.lemma_seek_view(path@, *p);
                        if self.wf() && path@.len() > 0 {
                            self.lemma_wf_key_below(path@);
                        }
                    }
                    return Some(p);
                },
                Some(c) => {
                    assert(before[0] == c);
                    assert(nibbles(path@)[consumed.len() as int] == before[0]);
                    let k = c as usize;
                    let found = match &p.next {
                        Some(t) => t.get(&k),
                        None => None,
                    };
                    proof {
                        self.lemma_node_at_append(consumed, seq![c]);
                        assert(consumed + seq![c] =~= consumed.push(c));
                        assert(seq![c].drop_first() =~= Seq::<u8>::empty());
                        assert(consumed.push(c) + it.remaining() =~= nibbles(path@));
                    }
                    match found {
                        Some(n) => {
                            proof {
                                assert(seq![c][0] == c);
                                assert(p.children().dom().contains(k));
                                assert(*n == p.children()[k]);
                                assert((*p).node_at(seq![c]) == (*p.children()[k]).node_at(seq![c].drop_first()));
                                assert((*p).node_at(seq![c]) == Some(**n));
                                consumed = consumed.push(c);
                            }
                            p = n;
                        },
                        None => {
                            proof {
                                assert(seq![c][0] == c);
                                assert((*p).node_at(seq![c]) is None);
                                let rest = it.remaining();
                                self.lemma_node_at_append(consumed.push(c), rest);
                                self.lemma_no_key_below(path@);
                            }
                            return None;
                        },
                    }
                },
            }
        }
    }

    proof fn lemma_seek_view(self, p: Seq<u8>, n: Node<V>)
        requires
            self.node_at(nibbles(p)) == Some(n),
        ensures
            n@ == entries_below(self@, p),
    {
        assert forall|k: Seq<u8>|
            #![trigger n@.contains_key(k)]
            #![trigger self@.contains_key(p + k)]
            true implies n@.contains_key(k) == self@.contains_key(p + k)
            && n.value_at(nibbles(k)) == self.value_at(nibbles(p + k)) by {
            lemma_nibbles_append(p, k);
            self.lemma_node_at_append(nibbles(p), nibbles(k));
        }
        assert(n@ =~= entries_below(self@, p));
    }

    /// In a well-formed trie, a node under a non-empty path leads to a key
    /// that starts with that path.
    proof fn lemma_wf_key_below(self, p: Seq<u8>)
        requires
            self.wf(),
            p.len() > 0,
            self.node_at(nibbles(p)) is Some,
        ensures
            !no_key_below(self@, p),
    {
        lemma_nibbles_len(p);
        let k = choose|k: Seq<u8>|
            nibbles(p).is_prefix_of(nibbles(k)) && #[trigger] self.value_at(nibbles(k)) is Some;
        lemma_nibble_prefix(p, k);
        let rest = k.skip(p.len() as int);
        assert(self@.contains_key(k));
        assert(self@.contains_key(p + rest));
    }

    proof fn lemma_no_key_below(self, p: Seq<u8>)
        requires
            self.node_at(nibbles(p)) is None,
        ensures
            no_key_below(self@, p),
    {
        assert forall|k: Seq<u8>| !#[trigger] self@.contains_key(p + k) by {
            lemma_nibbles_append(p, k);
            self.lemma_node_at_append(nibbles(p), nibbles(k));
        }
    }
}

/// A fresh, empty child node.
fn empty_child<V: Copy>() -> (r: Box<Node<V>>)
    ensures
        r.is_empty_node(),
{
    Box::new(Node::new())
}

impl<V: Copy> Node<V> {
    /// The empty path leads to the node itself.
    pub proof fn lemma_node_at_empty(self)
        ensures
            self.node_at(Seq::empty()) == Some(self),
    {
    }

    /// What lies under `p + k` is what lies under `k` in the node at `p`;
    /// with no node at `p`, nothing lies under `p + k`.
    pub proof fn lemma_lookup_below(self, p: Seq<u8>, k: Seq<u8>)
        ensures
            match self.node_at(nibbles(p)) {
                Some(n) => self@.contains_key(p + k) == n@.contains_key(k) && (n@.contains_key(k)
                    ==> self@[p + k] == n@[k]),
                None => !self@.contains_key(p + k),
            },
    {
        lemma_nibbles_append(p, k);
        self.lemma_node_at_append(nibbles(p), nibbles(k));
    }

    /// The value stored under the bytes of `path`.
    pub fn get(&self, path: &[u8]) -> (r: Option<V>)
        ensures
            r == (if self@.contains_key(path@) {
                Some(self@[path@])
            } else {
                None
            }),
    {
        match self.seek(path) {
            Some(n) => {
                proof {
                    assert(path@ + Seq::<u8>::empty() =~= path@);
                }
                n.value()
            },
            None => {
                proof {
                    assert(path@ + Seq::<u8>::empty() =~= path@);
                }
                None
            },
        }
    }

    /// The node under the UTF-8 encoding of `c`, if there is one.
    pub fn seek_char(&self, path: char) -> (r: Option<&Node<V>>)
        ensures
            match r {
                Some(n) => self.node_at(nibbles(encode_scalar(path as u32))) == Some(*n) && n@
                    == entries_below(self@, encode_scalar(path as u32)),
                None => self.node_at(nibbles(encode_scalar(path as u32))) is None && no_key_below(
                    self@,
                    encode_scalar(path as u32),
                ),
            },
            self.wf() ==> (r is Some <==> !no_key_below(self@, encode_scalar(path as u32))),
    {
        proof {
            char_is_scalar(path);
        }
        let buf = encode_char(path);
        self.seek(buf.as_slice())
    }
}

/// The UTF-8 encoding of `c`.
pub fn encode_char(c: char) -> (r: Vec<u8>)
    ensures
        r@ == encode_scalar(c as u32),
{
    let u = c as u32;
    proof {
        char_is_scalar(c);
    }
    if u <= 0x7F {
        vec![(u & 0x7F) as u8]
    } else if u <= 0x7FF {
        vec![0xC0 | ((u >> 6) & 0x1F) as u8, 0x80 | (u & 0x3F) as u8]
    } else if u <= 0xFFFF {
        vec![
            0xE0 | ((u >> 12) & 0x0F) as u8,
            0x80 | ((u >> 6) & 0x3F) as u8,
            0x80 | (u & 0x3F) as u8,
        ]
    } else {
        vec![
            0xF0 | ((u >> 18) & 0x7) as u8,
            0x80 | ((u >> 12) & 0x3F) as u8,
            0x80 | ((u >> 6) & 0x3F) as u8,
            0x80 | (u & 0x3F) as u8,
        ]
    }
}

impl<V: Copy> Default for Node<V> {
    fn default() -> (r: Node<V>)
        ensures
            r@ == Map::<Seq<u8>, V>::empty(),
            r.wf(),
    {
        Node::new()
    }
}

/// Seeking `a` and then `b` reaches what seeking `a + b` reaches: the
/// entries below `b` in the entries below `a` are the entries below
/// `a + b`.
pub proof fn law_seek_compose<V>(m: Map<Seq<u8>, V>, a: Seq<u8>, b: Seq<u8>)
    ensures
        entries_below(entries_below(m, a), b) == entries_below(m, a + b),
        no_key_below(m, a) ==> no_key_below(m, a + b),
{
    assert forall|k: Seq<u8>| #![trigger (a + b) + k] (a + b) + k == a + (b + k) by {
        assert((a + b) + k =~= a + (b + k));
    }
    assert(entries_below(entries_below(m, a), b) =~= entries_below(m, a + b));
    if no_key_below(m, a) {
        assert forall|k: Seq<u8>| !#[trigger] m.contains_key((a + b) + k) by {
            assert((a + b) + k =~= a + (b + k));
            assert(!m.contains_key(a + (b + k)));
        }
    }
}

} // verus!
