//! What the index is built from: the terms of a document and how often
//! each occurs, the occurrences of each term across documents, and the
//! substrings of a search keyword that are looked up.
use vstd::prelude::*;
use vstd::utf8::*;

use std::collections::HashSet;

use crate::lexer::{
    best, byte_offset, byte_offsets, chars_of, encode_range, lemma_best_bounds, segment_ends,
    split_points, splits_from, terms, terms_from, MAX_TERM_LENGTH,
};
use crate::small_str::{str_from_utf8, SmallString};
use crate::trie::Node;

verus! {

broadcast use {encode_utf8_valid_utf8, encode_utf8_decode_utf8};

/// The sum of `s`.
pub open spec fn seq_sum(s: Seq<usize>) -> int
    decreases s.len(),
{
    if s.len() == 0 {
        0
    } else {
        seq_sum(s.drop_last()) + s.last()
    }
}

proof fn lemma_seq_sum_update(s: Seq<usize>, i: int, v: usize)
    requires
        0 <= i < s.len(),
    ensures
        seq_sum(s.update(i, v)) == seq_sum(s) - s[i] + v,
    decreases s.len(),
{
    let t = s.update(i, v);
    if i < s.len() - 1 {
        assert(t.drop_last() =~= s.drop_last().update(i, v));
        lemma_seq_sum_update(s.drop_last(), i, v);
    } else {
        assert(t.drop_last() =~= s.drop_last());
    }
}

proof fn lemma_seq_sum_push(s: Seq<usize>, v: usize)
    ensures
        seq_sum(s.push(v)) == seq_sum(s) + v,
{
    assert(s.push(v).drop_last() =~= s);
}

/// How many times `t` occurs in `ts`.
pub open spec fn count(ts: Seq<Seq<char>>, t: Seq<char>) -> nat
    decreases ts.len(),
{
    if ts.len() == 0 {
        0
    } else {
        count(ts.drop_last(), t) + if ts.last() == t {
            1nat
        } else {
            0nat
        }
    }
}

proof fn lemma_count_push(ts: Seq<Seq<char>>, x: Seq<char>, t: Seq<char>)
    ensures
        count(ts.push(x), t) == count(ts, t) + if x == t {
            1nat
        } else {
            0nat
        },
{
    assert(ts.push(x).drop_last() =~= ts);
}

proof fn lemma_count_bound(ts: Seq<Seq<char>>, t: Seq<char>)
    ensures
        count(ts, t) <= ts.len(),
    decreases ts.len(),
{
    if ts.len() > 0 {
        lemma_count_bound(ts.drop_last(), t);
    }
}

proof fn lemma_count_absent(ts: Seq<Seq<char>>, t: Seq<char>)
    requires
        !ts.contains(t),
    ensures
        count(ts, t) == 0,
    decreases ts.len(),
{
    if ts.len() > 0 {
        assert(!ts.drop_last().contains(t)) by {
            if ts.drop_last().contains(t) {
                let j = choose|j: int| 0 <= j < ts.drop_last().len() && ts.drop_last()[j] == t;
                assert(ts[j] == t);
            }
        }
        assert(ts.last() != t) by {
            if ts.last() == t {
                assert(ts[ts.len() - 1] == t);
            }
        }
        lemma_count_absent(ts.drop_last(), t);
    }
}

/// `a` occurs in `ts` before the first occurrence of `b`.
pub open spec fn occurs_first(ts: Seq<Seq<char>>, a: Seq<char>, b: Seq<char>) -> bool {
    forall|p: int| 0 <= p < ts.len() && #[trigger] ts[p] == b ==> exists|q: int| 0 <= q < p && ts[q] == a
}

proof fn lemma_occurs_first_push(ts: Seq<Seq<char>>, x: Seq<char>, a: Seq<char>, b: Seq<char>)
    requires
        occurs_first(ts, a, b),
        ts.contains(b),
    ensures
        occurs_first(ts.push(x), a, b),
{
    let t = ts.push(x);
    let p0 = choose|p: int| 0 <= p < ts.len() && ts[p] == b;
    assert(ts[p0] == b);
    assert forall|p: int| 0 <= p < t.len() && #[trigger] t[p] == b implies exists|q: int|
        0 <= q < p && t[q] == a by {
        let pp = if p < ts.len() { p } else { p0 };
        assert(ts[pp] == b);
        let q = choose|q: int| 0 <= q < pp && ts[q] == a;
        assert(t[q] == a);
    }
}

proof fn lemma_occurs_first_new(ts: Seq<Seq<char>>, a: Seq<char>, b: Seq<char>)
    requires
        ts.contains(a),
        !ts.contains(b),
    ensures
        occurs_first(ts.push(b), a, b),
{
    let t = ts.push(b);
    let q = choose|q: int| 0 <= q < ts.len() && ts[q] == a;
    assert forall|p: int| 0 <= p < t.len() && #[trigger] t[p] == b implies exists|q: int|
        0 <= q < p && t[q] == a by {
        if p < ts.len() {
            assert(ts[p] == b);
        }
        assert(t[q] == a);
    }
}

proof fn lemma_splits_terms(cs: Seq<char>, dict: Map<Seq<u8>, i64>, p: int)
    requires
        0 <= p <= cs.len(),
    ensures
        splits_from(cs, dict, p).len() == terms_from(cs, dict, p).len(),
        terms_from(cs, dict, p).len() <= cs.len() - p,
    decreases cs.len() - p,
{
    if p < cs.len() {
        lemma_best_bounds(cs, dict, p);
        lemma_splits_terms(cs, dict, best(cs, dict, p).1);
    }
}

/// The distinct terms of `content` under `dict`, each with how many times
/// it occurs, and the number of split points of `content`.
///
/// The terms are those of the best segmentation (see `tokenize`); every one
/// of them is listed once, in the order of its first occurrence.
pub fn term_counts(content: &str, dict: &Node<i64>) -> (r: (Vec<(String, usize)>, usize))
    requires
        content@.len() <= isize::MAX,
    ensures
        r.1 == split_points(content@, dict@).len(),
        content@.len() > 0 ==> r.1 + 1 == terms(content@, dict@).len(),
        seq_sum(r.0@.map_values(|e: (String, usize)| e.1)) == terms(content@, dict@).len(),
        forall|i: int, j: int|
            0 <= i < j < r.0@.len() ==> #[trigger] r.0@[i].0@ != #[trigger] r.0@[j].0@,
        forall|i: int|
            0 <= i < r.0@.len() ==> terms(content@, dict@).contains(#[trigger] r.0@[i].0@)
                && r.0@[i].1 == count(terms(content@, dict@), r.0@[i].0@),
        forall|t: Seq<char>|
            #[trigger] terms(content@, dict@).contains(t) ==> exists|i: int|
                0 <= i < r.0@.len() && #[trigger] r.0@[i].0@ == t,
        forall|i: int, j: int|
            0 <= i < j < r.0@.len() ==> occurs_first(
                terms(content@, dict@),
                #[trigger] r.0@[i].0@,
                #[trigger] r.0@[j].0@,
            ),
{
    let ghost dm = dict@;
    let cs = chars_of(content);
    let n = cs.len();
    let next = segment_ends(&cs, dict);
    let mut names: Vec<String> = Vec::new();
    let mut counts: Vec<usize> = Vec::new();
    let mut index: Node<usize> = Node::new();
    let mut p: usize = 0;
    let mut pieces: usize = 0;
    let ghost mut done: Seq<Seq<char>> = Seq::empty();
    while p < n
        invariant
            n == cs@.len(),
            n <= isize::MAX,
            dm == dict@,
            p <= n,
            next@.len() == n + 1,
            forall|m: int| 0 <= m < n ==> #[trigger] next@[m] == best(cs@, dm, m).1,
            done + terms_from(cs@, dm, p as int) == terms(cs@, dm),
            pieces == done.len(),
            done.len() <= p,
            names@.len() == counts@.len(),
            names@.len() <= done.len(),
            seq_sum(counts@) == done.len(),
            forall|i: int| 0 <= i < names@.len() ==> #[trigger] counts@[i] == count(done, names@[i]@),
            forall|i: int| 0 <= i < names@.len() ==> done.contains(#[trigger] names@[i]@),
            forall|i: int|
                0 <= i < names@.len() ==> #[trigger] index@.contains_key(encode_utf8(names@[i]@))
                    && index@[encode_utf8(names@[i]@)] == i,
            forall|k: Seq<u8>|
                #[trigger] index@.contains_key(k) ==> 0 <= index@[k] < names@.len() && k
                    == encode_utf8(names@[index@[k] as int]@),
            forall|j: int| 0 <= j < done.len() ==> #[trigger] index@.contains_key(encode_utf8(done[j])),
            forall|a: int, b: int|
                0 <= a < b < names@.len() ==> occurs_first(done, #[trigger] names@[a]@, #[trigger] names@[b]@),
        decreases n - p,
    {
        proof {
            lemma_best_bounds(cs@, dm, p as int);
        }
        let q = next[p];
        let ghost term = cs@.subrange(p as int, q as int);
        let bytes = encode_range(&cs, p, q);
        let found = index.get(bytes.as_slice());
        proof {
            assert(terms_from(cs@, dm, p as int) == seq![term] + terms_from(cs@, dm, q as int));
            assert(done.push(term) + terms_from(cs@, dm, q as int) =~= terms(cs@, dm));
            lemma_count_bound(done, term);
        }
        match found {
            Some(idx) => {
                proof {
                    assert(index@.contains_key(bytes@));
                    assert(0 <= idx < names@.len());
                }
                let i = idx;
                proof {
                    assert(encode_utf8(names@[i as int]@) == encode_utf8(term));
                    assert(decode_utf8(encode_utf8(names@[i as int]@)) == decode_utf8(
                        encode_utf8(term),
                    ));
                    assert(names@[i as int]@ == term);
                }
                let c = counts[i];
                proof {
                    lemma_seq_sum_update(counts@, i as int, (c + 1) as usize);
                }
                counts.set(i, c + 1);
                proof {
                    assert forall|m: int| 0 <= m < names@.len() implies #[trigger] counts@[m]
                        == count(done.push(term), names@[m]@) by {
                        lemma_count_push(done, term, names@[m]@);
                        if m != i && names@[m]@ == term {
                            assert(index@[encode_utf8(names@[m]@)] == m);
                        }
                    }
                    assert forall|a: int, b: int| 0 <= a < b < names@.len() implies occurs_first(
                        done.push(term),
                        #[trigger] names@[a]@,
                        #[trigger] names@[b]@,
                    ) by {
                        lemma_occurs_first_push(done, term, names@[a]@, names@[b]@);
                    }
                }
            },
            None => {
                let s = str_from_utf8(bytes.as_slice());
                let text = s.unwrap().to_owned();
                let at = names.len();
                let ghost old_index = index@;
                let ghost old_names = names@;
                proof {
                    assert(!old_index.contains_key(bytes@));
                }
                index.insert(bytes.as_slice(), at);
                names.push(text);
                proof {
                    lemma_seq_sum_push(counts@, 1);
                }
                counts.push(1);
                proof {
                    assert(names@[at as int]@ == term);
                    assert forall|m: int| 0 <= m < names@.len() implies #[trigger] index@.contains_key(
                        encode_utf8(names@[m]@),
                    ) && index@[encode_utf8(names@[m]@)] == m by {
                        if m < at {
                            assert(names@[m] == old_names[m]);
                            assert(old_index.contains_key(encode_utf8(old_names[m]@)));
                        }
                    }
                    assert forall|k: Seq<u8>| #[trigger] index@.contains_key(k) implies 0
                        <= index@[k] < names@.len() && k == encode_utf8(
                        names@[index@[k] as int]@,
                    ) by {
                        if k != bytes@ {
                            assert(old_index.contains_key(k));
                            assert(names@[old_index[k] as int] == old_names[old_index[k] as int]);
                        }
                    }
                    assert(!done.contains(term)) by {
                        if done.contains(term) {
                            let j = choose|j: int| 0 <= j < done.len() && done[j] == term;
                            assert(index@.contains_key(encode_utf8(done[j])));
                        }
                    }
                    lemma_count_absent(done, term);
                    lemma_count_push(done, term, term);
                    assert forall|m: int| 0 <= m < names@.len() implies #[trigger] counts@[m]
                        == count(done.push(term), names@[m]@) by {
                        lemma_count_push(done, term, names@[m]@);
                        if m < at {
                            assert(names@[m]@ != term);
                        }
                    }
                    assert forall|a: int, b: int| 0 <= a < b < names@.len() implies occurs_first(
                        done.push(term),
                        #[trigger] names@[a]@,
                        #[trigger] names@[b]@,
                    ) by {
                        assert(names@[a] == old_names[a]);
                        if b < at {
                            assert(names@[b] == old_names[b]);
                            assert(occurs_first(done, old_names[a]@, old_names[b]@));
                            lemma_occurs_first_push(done, term, names@[a]@, names@[b]@);
                        } else {
                            assert(done.contains(old_names[a]@));
                            lemma_occurs_first_new(done, names@[a]@, term);
                        }
                    }
                }
            },
        }
        proof {
            assert forall|m: int| 0 <= m < names@.len() implies done.push(term).contains(
                #[trigger] names@[m]@,
            ) by {
                if names@[m]@ == term {
                    assert(done.push(term)[done.len() as int] == term);
                } else {
                    let j = choose|j: int| 0 <= j < done.len() && done[j] == names@[m]@;
                    assert(done.push(term)[j] == names@[m]@);
                }
            }
            done = done.push(term);
        }
        pieces = pieces + 1;
        p = q;
    }
    proof {
        assert(terms_from(cs@, dm, n as int) =~= Seq::<Seq<char>>::empty());
        assert(done =~= terms(cs@, dm));
        lemma_splits_terms(cs@, dm, 0);
        if n > 0 {
            lemma_best_bounds(cs@, dm, 0);
            lemma_splits_terms(cs@, dm, best(cs@, dm, 0).1);
        }
    }
    let splits = if pieces == 0 {
        0
    } else {
        pieces - 1
    };
    let mut out: Vec<(String, usize)> = Vec::new();
    let mut i: usize = 0;
    let ghost listed = names@;
    proof {
        assert forall|a: int, b: int| 0 <= a < b < listed.len() implies #[trigger] listed[a]@
            != #[trigger] listed[b]@ by {
            if listed[a]@ == listed[b]@ {
                assert(index@.contains_key(encode_utf8(names@[a]@)));
                assert(index@.contains_key(encode_utf8(names@[b]@)));
            }
        }
        assert forall|t: Seq<char>| #[trigger] done.contains(t) implies exists|m: int|
            0 <= m < listed.len() && #[trigger] listed[m]@ == t by {
            let j = choose|j: int| 0 <= j < done.len() && done[j] == t;
            let k = encode_utf8(done[j]);
            assert(index@.contains_key(k));
            let m = index@[k] as int;
            assert(decode_utf8(encode_utf8(listed[m]@)) == decode_utf8(k));
            assert(listed[m]@ == t);
        }
    }
    while i < names.len()
        invariant
            names@.len() == counts@.len(),
            names@.len() == listed.len(),
            i <= names@.len(),
            out@.len() == i,
            forall|m: int| i <= m < names@.len() ==> #[trigger] names@[m] == listed[m],
            forall|m: int| 0 <= m < i ==> #[trigger] out@[m].0@ == listed[m]@ && out@[m].1
                == counts@[m],
            forall|a: int, b: int| 0 <= a < b < listed.len() ==> #[trigger] listed[a]@
                != #[trigger] listed[b]@,
            forall|t: Seq<char>| #[trigger] done.contains(t) ==> exists|m: int|
                0 <= m < listed.len() && #[trigger] listed[m]@ == t,
            done == terms(cs@, dm),
            seq_sum(counts@) == done.len(),
            forall|m: int| 0 <= m < listed.len() ==> done.contains(#[trigger] listed[m]@)
                && counts@[m] == count(done, listed[m]@),
            forall|a: int, b: int|
                0 <= a < b < listed.len() ==> occurs_first(done, #[trigger] listed[a]@, #[trigger] listed[b]@),
        decreases names@.len() - i,
    {
        let mut name = String::new();
        std::mem::swap(&mut name, &mut names[i]);
        out.push((name, counts[i]));
        i = i + 1;
    }
    let r = (out, splits);
    proof {
        let mapped = r.0@.map_values(|e: (String, usize)| e.1);
        assert(mapped.len() == counts@.len());
        assert forall|m: int| 0 <= m < mapped.len() implies mapped[m] == counts@[m] by {
            assert(r.0@[m].0@ == listed[m]@);
            assert(r.0@[m].1 == counts@[m]);
        }
        assert(mapped =~= counts@);
        if n > 0 {
            lemma_best_bounds(cs@, dm, 0);
            assert(terms(cs@, dm) == seq![cs@.subrange(0, best(cs@, dm, 0).1)] + terms_from(
                cs@,
                dm,
                best(cs@, dm, 0).1,
            ));
        }
        assert forall|t: Seq<char>| #[trigger] terms(content@, dict@).contains(t) implies exists|
            m: int,
        | 0 <= m < r.0@.len() && #[trigger] r.0@[m].0@ == t by {
            assert(done.contains(t));
            let m = choose|m: int| 0 <= m < listed.len() && #[trigger] listed[m]@ == t;
            assert(r.0@[m].0@ == t);
        }
    }
    r
}

/// `c` with `a`..=`z` mapped to `A`..=`Z`.
pub open spec fn ascii_upper(c: char) -> char {
    if 'a' <= c && c <= 'z' {
        ((c as u32) - 32) as char
    } else {
        c
    }
}

/// `s` with every ASCII lower-case letter made upper-case.
pub open spec fn ascii_upper_all(s: Seq<char>) -> Seq<char> {
    s.map_values(|c: char| ascii_upper(c))
}

/// `str::to_ascii_uppercase`: a copy of `s` in which `a`..=`z` become
/// `A`..=`Z` and every other character stays as it is.
#[verifier::external_body]
fn to_ascii_uppercase(s: &str) -> (r: String)
    ensures
        r@ == ascii_upper_all(s@),
{
    s.to_ascii_uppercase()
}

proof fn lemma_upper_width(s: Seq<char>)
    ensures
        encode_utf8(ascii_upper_all(s)).len() == encode_utf8(s).len(),
    decreases s.len(),
{
    if s.len() > 0 {
        let u = ascii_upper_all(s);
        assert(u.drop_first() =~= ascii_upper_all(s.drop_first()));
        lemma_upper_width(s.drop_first());
        let c = s[0];
        if 'a' <= c && c <= 'z' {
            assert((c as u32) < 0x80);
            assert(((c as u32) - 32) as char as u32 == (c as u32) - 32);
        }
    }
}

/// The UTF-8 byte offsets `(start, end)` of the substrings of `cs` that
/// start at character `a` and end at character `b`, for `b` from `b0` on,
/// as long as a substring takes at most `MAX_TERM_LENGTH` bytes.
pub open spec fn ranges_at(cs: Seq<char>, a: int, b: int) -> Seq<(usize, usize)>
    decreases cs.len() + 1 - b,
{
    if b > cs.len() || byte_offset(cs, b) - byte_offset(cs, a) > MAX_TERM_LENGTH {
        Seq::empty()
    } else {
        seq![(byte_offset(cs, a) as usize, byte_offset(cs, b) as usize)] + ranges_at(cs, a, b + 1)
    }
}

/// The byte ranges of all substrings of `cs` of at most `MAX_TERM_LENGTH`
/// bytes that start at character `a` or later, by start, then by end.
pub open spec fn ranges_from(cs: Seq<char>, a: int) -> Seq<(usize, usize)>
    decreases cs.len() - a,
{
    if a < 0 || a >= cs.len() {
        Seq::empty()
    } else {
        ranges_at(cs, a, a + 1) + ranges_from(cs, a + 1)
    }
}

/// The keyword a search looks for, in upper case, and the byte ranges of
/// its substrings that may be terms of the index: those of at most
/// `MAX_TERM_LENGTH` bytes, by start, then by end.
pub fn keyword_ranges(keyword: &str) -> (r: (String, Vec<(usize, usize)>))
    ensures
        r.0@ == ascii_upper_all(keyword@),
        r.1@ == ranges_from(r.0@, 0),
{
    let upper = to_ascii_uppercase(keyword);
    let cs = chars_of(upper.as_str());
    let offs = byte_offsets(upper.as_str(), &cs);
    let n = cs.len();
    let mut out: Vec<(usize, usize)> = Vec::new();
    let mut a: usize = 0;
    while a < n
        invariant
            n == cs@.len(),
            a <= n,
            offs@.len() == n + 1,
            forall|m: int| 0 <= m <= n ==> #[trigger] offs@[m] == byte_offset(cs@, m),
            out@ + ranges_from(cs@, a as int) == ranges_from(cs@, 0),
        decreases n - a,
    {
        let ghost before = out@;
        let mut b: usize = a + 1;
        while b <= n
            invariant_except_break
                out@ + ranges_at(cs@, a as int, b as int) == before + ranges_at(
                    cs@,
                    a as int,
                    a + 1,
                ),
            invariant
                n == cs@.len(),
                a < b <= n + 1,
                offs@.len() == n + 1,
                forall|m: int| 0 <= m <= n ==> #[trigger] offs@[m] == byte_offset(cs@, m),
            ensures
                out@ == before + ranges_at(cs@, a as int, a + 1),
            decreases n + 1 - b,
        {
            proof {
                crate::lexer::lemma_byte_offset_monotone(cs@, a as int, b as int);
            }
            if offs[b] - offs[a] > MAX_TERM_LENGTH {
                assert(out@ =~= before + ranges_at(cs@, a as int, a + 1));
                break;
            }
            out.push((offs[a], offs[b]));
            assert(out@ + ranges_at(cs@, a as int, b + 1) =~= before + ranges_at(
                cs@,
                a as int,
                a + 1,
            ));
            if b == n {
                assert(out@ =~= before + ranges_at(cs@, a as int, a + 1));
                break;
            }
            b = b + 1;
        }
        assert(out@ + ranges_from(cs@, a + 1) =~= ranges_from(cs@, 0));
        a = a + 1;
    }
    assert(out@ =~= ranges_from(cs@, 0));
    (upper, out)
}

/// The document numbers that occur in `occ`.
pub open spec fn document_ids<F>(occ: Seq<(u32, F)>) -> Set<u32> {
    Set::new(|d: u32| exists|k: int| 0 <= k < occ.len() && occ[k].0 == d)
}

/// How many distinct documents `occ` speaks of: the number that the
/// inverse document frequency of a term divides by.
pub fn document_count<F>(occ: &Vec<(u32, F)>) -> (r: usize)
    ensures
        r == document_ids(occ@).len(),
        document_ids(occ@).finite(),
{
    broadcast use vstd::std_specs::hash::group_hash_axioms;

    let mut seen: HashSet<u32> = HashSet::new();
    let mut i: usize = 0;
    assert(document_ids(occ@.take(0)) =~= Set::<u32>::empty());
    while i < occ.len()
        invariant
            i <= occ@.len(),
            seen@ == document_ids(occ@.take(i as int)),
            document_ids(occ@.take(i as int)).finite(),
        decreases occ@.len() - i,
    {
        seen.insert(occ[i].0);
        proof {
            let before = occ@.take(i as int);
            let after = occ@.take(i + 1);
            assert forall|d: u32| #[trigger] document_ids(after).contains(d) == document_ids(
                before,
            ).insert(occ@[i as int].0).contains(d) by {
                if document_ids(after).contains(d) && d != occ@[i as int].0 {
                    let k = choose|k: int| 0 <= k < after.len() && after[k].0 == d;
                    assert(before[k].0 == d);
                }
                if document_ids(before).contains(d) {
                    let k = choose|k: int| 0 <= k < before.len() && before[k].0 == d;
                    assert(after[k].0 == d);
                }
                if d == occ@[i as int].0 {
                    assert(after[i as int].0 == d);
                }
            }
            assert(document_ids(after) =~= document_ids(before).insert(occ@[i as int].0));
        }
        i = i + 1;
    }
    assert(occ@.take(i as int) =~= occ@);
    seen.len()
}

/// The documents' entries as plain values: for each document, its
/// `(term, frequency)` pairs.
pub open spec fn meta_view<F>(metas: Seq<Vec<(String, F)>>) -> Seq<Seq<(Seq<char>, F)>> {
    metas.map_values(|doc: Vec<(String, F)>| doc@.map_values(|e: (String, F)| (e.0@, e.1)))
}

/// The entries of one document, numbered `id`, whose term in upper case is
/// `key`, as `(id, frequency)`, in order.
pub open spec fn doc_occurrences<F>(doc: Seq<(Seq<char>, F)>, id: int, key: Seq<char>) -> Seq<
    (u32, F),
>
    decreases doc.len(),
{
    if doc.len() == 0 {
        Seq::empty()
    } else {
        doc_occurrences(doc.drop_last(), id, key) + if ascii_upper_all(doc.last().0) == key {
            seq![(id as u32, doc.last().1)]
        } else {
            Seq::empty()
        }
    }
}

/// Where the term `key` (in upper case) occurs across the documents, as
/// `(document number, frequency)`, by document, then by entry.
pub open spec fn occurrences<F>(metas: Seq<Seq<(Seq<char>, F)>>, key: Seq<char>) -> Seq<(u32, F)>
    decreases metas.len(),
{
    if metas.len() == 0 {
        Seq::empty()
    } else {
        occurrences(metas.drop_last(), key) + doc_occurrences(
            metas.last(),
            metas.len() - 1,
            key,
        )
    }
}

/// The occurrences in the documents before `d` and in the first `e`
/// entries of document `d`.
pub open spec fn occurrences_upto<F>(
    metas: Seq<Seq<(Seq<char>, F)>>,
    d: int,
    e: int,
    key: Seq<char>,
) -> Seq<(u32, F)> {
    occurrences(metas.take(d), key) + doc_occurrences(metas[d].take(e), d, key)
}

proof fn lemma_doc_occurrences_absent<F>(doc: Seq<(Seq<char>, F)>, id: int, key: Seq<char>)
    requires
        forall|e: int| 0 <= e < doc.len() ==> ascii_upper_all(#[trigger] doc[e].0) != key,
    ensures
        doc_occurrences(doc, id, key) == Seq::<(u32, F)>::empty(),
    decreases doc.len(),
{
    if doc.len() > 0 {
        assert(doc.last() == doc[doc.len() - 1]);
        lemma_doc_occurrences_absent(doc.drop_last(), id, key);
    }
}

proof fn lemma_all_occurrences_absent<F>(ms: Seq<Seq<(Seq<char>, F)>>, key: Seq<char>)
    requires
        forall|d: int, e: int|
            0 <= d < ms.len() && 0 <= e < ms[d].len() ==> ascii_upper_all(#[trigger] ms[d][e].0)
                != key,
    ensures
        occurrences(ms, key) == Seq::<(u32, F)>::empty(),
    decreases ms.len(),
{
    if ms.len() > 0 {
        let last = ms.last();
        assert forall|e: int| 0 <= e < last.len() implies ascii_upper_all(#[trigger] last[e].0)
            != key by {
            assert(last[e] == ms[ms.len() - 1][e]);
        }
        lemma_doc_occurrences_absent(last, ms.len() - 1, key);
        assert forall|d: int, e: int|
            0 <= d < ms.drop_last().len() && 0 <= e < ms.drop_last()[d].len() implies ascii_upper_all(
            #[trigger] ms.drop_last()[d][e].0,
        ) != key by {
            assert(ms.drop_last()[d] == ms[d]);
        }
        lemma_all_occurrences_absent(ms.drop_last(), key);
    }
}

/// A term that no entry before document `d`, entry `e` has, in upper case,
/// has not occurred yet.
proof fn lemma_occurrences_absent<F>(mv: Seq<Seq<(Seq<char>, F)>>, d: int, e: int, key: Seq<char>)
    requires
        0 <= d < mv.len(),
        0 <= e <= mv[d].len(),
        forall|d2: int, e2: int|
            0 <= d2 < d && 0 <= e2 < mv[d2].len() ==> ascii_upper_all(#[trigger] mv[d2][e2].0)
                != key,
        forall|e2: int| 0 <= e2 < e ==> ascii_upper_all(#[trigger] mv[d][e2].0) != key,
    ensures
        occurrences_upto(mv, d, e, key) == Seq::<(u32, F)>::empty(),
{
    let before = mv.take(d);
    assert forall|d2: int, e2: int|
        0 <= d2 < before.len() && 0 <= e2 < before[d2].len() implies ascii_upper_all(
        #[trigger] before[d2][e2].0,
    ) != key by {
        assert(before[d2] == mv[d2]);
    }
    lemma_all_occurrences_absent(before, key);
    let part = mv[d].take(e);
    assert forall|e2: int| 0 <= e2 < part.len() implies ascii_upper_all(#[trigger] part[e2].0)
        != key by {
        assert(part[e2] == mv[d][e2]);
    }
    lemma_doc_occurrences_absent(part, d, key);
    assert(occurrences_upto(mv, d, e, key) =~= Seq::<(u32, F)>::empty());
}

/// The terms of `groups`, in order.
pub open spec fn group_keys<F>(groups: Seq<(SmallString<50>, Vec<(u32, F)>)>) -> Seq<Seq<char>> {
    groups.map_values(|g: (SmallString<50>, Vec<(u32, F)>)| g.0@)
}

/// Groups the documents' entries by term, in upper case: each term with
/// where it occurs, as `(document number, frequency)`, by document, then by
/// entry. Every term occurs once among the groups.
pub fn group_occurrences<F: Copy>(metas: &Vec<Vec<(String, F)>>) -> (r: Vec<(SmallString<50>, Vec<(u32, F)>)>)
    requires
        forall|d: int, e: int|
            0 <= d < metas@.len() && 0 <= e < metas@[d]@.len() ==> encode_utf8(
                #[trigger] metas@[d]@[e].0@,
            ).len() <= MAX_TERM_LENGTH,
    ensures
        forall|i: int, j: int|
            0 <= i < j < r@.len() ==> #[trigger] r@[i].0@ != #[trigger] r@[j].0@,
        forall|i: int|
            0 <= i < r@.len() ==> #[trigger] r@[i].1@ == occurrences(meta_view(metas@), r@[i].0@)
                && r@[i].1@.len() > 0,
        forall|d: int, e: int|
            0 <= d < metas@.len() && 0 <= e < metas@[d]@.len() ==> group_keys(r@).contains(
                ascii_upper_all(#[trigger] metas@[d]@[e].0@),
            ),
{
    let ghost mv = meta_view(metas@);
    let mut groups: Vec<(SmallString<50>, Vec<(u32, F)>)> = Vec::new();
    let mut index: Node<usize> = Node::new();
    let mut d: usize = 0;
    while d < metas.len()
        invariant
            mv == meta_view(metas@),
            d <= metas@.len(),
            forall|d2: int, e: int|
                0 <= d2 < metas@.len() && 0 <= e < metas@[d2]@.len() ==> encode_utf8(
                    #[trigger] metas@[d2]@[e].0@,
                ).len() <= MAX_TERM_LENGTH,
            forall|i: int| 0 <= i < groups@.len() ==> #[trigger] groups@[i].1@ == occurrences(
                mv.take(d as int),
                groups@[i].0@,
            ) && groups@[i].1@.len() > 0,
            forall|i: int|
                0 <= i < groups@.len() ==> #[trigger] index@.contains_key(
                    encode_utf8(groups@[i].0@),
                ) && index@[encode_utf8(groups@[i].0@)] == i,
            forall|k: Seq<u8>|
                #[trigger] index@.contains_key(k) ==> 0 <= index@[k] < groups@.len() && k
                    == encode_utf8(groups@[index@[k] as int].0@),
            forall|d2: int, e: int|
                0 <= d2 < d && 0 <= e < metas@[d2]@.len() ==> #[trigger] index@.contains_key(
                    encode_utf8(ascii_upper_all(metas@[d2]@[e].0@)),
                ),
        decreases metas@.len() - d,
    {
        let doc = &metas[d];
        let mut e: usize = 0;
        proof {
            assert(mv.take(d as int + 1).drop_last() =~= mv.take(d as int));
            assert(mv[d as int].take(0) =~= Seq::<(Seq<char>, F)>::empty());
        }
        while e < doc.len()
            invariant
                mv == meta_view(metas@),
                d < metas@.len(),
                *doc == metas@[d as int],
                e <= doc@.len(),
                forall|d2: int, e2: int|
                    0 <= d2 < metas@.len() && 0 <= e2 < metas@[d2]@.len() ==> encode_utf8(
                        #[trigger] metas@[d2]@[e2].0@,
                    ).len() <= MAX_TERM_LENGTH,
                forall|i: int| 0 <= i < groups@.len() ==> #[trigger] groups@[i].1@
                    == occurrences_upto(mv, d as int, e as int, groups@[i].0@)
                    && groups@[i].1@.len() > 0,
                forall|i: int|
                    0 <= i < groups@.len() ==> #[trigger] index@.contains_key(
                        encode_utf8(groups@[i].0@),
                    ) && index@[encode_utf8(groups@[i].0@)] == i,
                forall|k: Seq<u8>|
                    #[trigger] index@.contains_key(k) ==> 0 <= index@[k] < groups@.len() && k
                        == encode_utf8(groups@[index@[k] as int].0@),
                forall|d2: int, e2: int|
                    0 <= d2 < d && 0 <= e2 < metas@[d2]@.len() ==> #[trigger] index@.contains_key(
                        encode_utf8(ascii_upper_all(metas@[d2]@[e2].0@)),
                    ),
                forall|e2: int|
                    0 <= e2 < e ==> #[trigger] index@.contains_key(
                        encode_utf8(ascii_upper_all(metas@[d as int]@[e2].0@)),
                    ),
            decreases doc@.len() - e,
        {
            let entry = &doc[e];
            let upper = to_ascii_uppercase(entry.0.as_str());
            let key_bytes = upper.as_str().as_bytes();
            let ghost key = upper@;
            let found = index.get(key_bytes);
            proof {
                lemma_upper_width(entry.0@);
                assert(mv[d as int] == metas@[d as int]@.map_values(|e: (String, F)| (e.0@, e.1)));
                assert(mv[d as int].take(e + 1).drop_last() =~= mv[d as int].take(e as int));
                assert(mv[d as int].take(e + 1).last() == (entry.0@, entry.1));
            }
            match found {
                Some(idx) => {
                    proof {
                        assert(key_bytes@ == encode_utf8(key));
                        assert(index@.contains_key(key_bytes@));
                    }
                    let i = idx;
                    proof {
                        assert(decode_utf8(encode_utf8(groups@[i as int].0@)) == decode_utf8(
                            encode_utf8(key),
                        ));
                        assert(groups@[i as int].0@ == key);
                    }
                    let ghost old_groups = groups@;
                    let g = &mut groups[i];
                    g.1.push((d as u32, entry.1));
                    proof {
                        assert(groups@[i as int].0 == old_groups[i as int].0);
                        assert forall|m: int| 0 <= m < groups@.len() implies #[trigger] groups@[m].0
                            == old_groups[m].0 by {
                            if m != i {
                                assert(groups@[m] == old_groups[m]);
                            }
                        }
                        assert forall|m: int| 0 <= m < groups@.len() implies #[trigger] index@.contains_key(
                            encode_utf8(groups@[m].0@),
                        ) && index@[encode_utf8(groups@[m].0@)] == m by {
                            assert(groups@[m].0 == old_groups[m].0);
                            assert(index@.contains_key(encode_utf8(old_groups[m].0@)));
                        }
                        assert forall|m: int| 0 <= m < groups@.len() implies #[trigger] groups@[m].1@
                            == occurrences_upto(mv, d as int, e + 1, groups@[m].0@)
                            && groups@[m].1@.len() > 0 by {
                            if m != i {
                                assert(groups@[m] == old_groups[m]);
                                if groups@[m].0@ == key {
                                    assert(index@.contains_key(encode_utf8(groups@[m].0@)));
                                }
                            }
                        }
                    }
                },
                None => {
                    let term = match SmallString::<50>::from_text(upper.as_str()) {
                        Ok(t) => t,
                        Err(_) => {
                            assert(false);
                            return Vec::new();
                        },
                    };
                    let at = groups.len();
                    let ghost old_index = index@;
                    let ghost old_groups = groups@;
                    proof {
                        assert(!old_index.contains_key(key_bytes@));
                    }
                    index.insert(key_bytes, at);
                    let mut list: Vec<(u32, F)> = Vec::new();
                    list.push((d as u32, entry.1));
                    groups.push((term, list));
                    proof {
                        assert(groups@[at as int].0@ == key);
                        assert forall|m: int| 0 <= m < groups@.len() implies #[trigger] groups@[m].1@
                            == occurrences_upto(mv, d as int, e + 1, groups@[m].0@)
                            && groups@[m].1@.len() > 0 by {
                            if m < at {
                                assert(groups@[m] == old_groups[m]);
                                assert(old_index.contains_key(encode_utf8(old_groups[m].0@)));
                            } else {
                                assert forall|d2: int, e2: int|
                                    0 <= d2 < d && 0 <= e2 < mv[d2].len() implies ascii_upper_all(
                                    #[trigger] mv[d2][e2].0,
                                ) != key by {
                                    assert(mv[d2][e2].0 == metas@[d2]@[e2].0@);
                                    assert(old_index.contains_key(
                                        encode_utf8(ascii_upper_all(metas@[d2]@[e2].0@)),
                                    ));
                                }
                                assert forall|e2: int| 0 <= e2 < e implies ascii_upper_all(
                                    #[trigger] mv[d as int][e2].0,
                                ) != key by {
                                    assert(mv[d as int][e2].0 == metas@[d as int]@[e2].0@);
                                    assert(old_index.contains_key(
                                        encode_utf8(ascii_upper_all(metas@[d as int]@[e2].0@)),
                                    ));
                                }
                                lemma_occurrences_absent(mv, d as int, e as int, key);
                            }
                        }
                        assert forall|m: int| 0 <= m < groups@.len() implies #[trigger] index@.contains_key(
                            encode_utf8(groups@[m].0@),
                        ) && index@[encode_utf8(groups@[m].0@)] == m by {
                            if m < at {
                                assert(groups@[m] == old_groups[m]);
                                assert(old_index.contains_key(encode_utf8(old_groups[m].0@)));
                            }
                        }
                        assert forall|k: Seq<u8>| #[trigger] index@.contains_key(k) implies 0
                            <= index@[k] < groups@.len() && k == encode_utf8(
                            groups@[index@[k] as int].0@,
                        ) by {
                            if k != key_bytes@ {
                                assert(old_index.contains_key(k));
                                assert(groups@[old_index[k] as int] == old_groups[old_index[k] as int]);
                            }
                        }
                    }
                },
            }
            e = e + 1;
        }
        proof {
            assert(mv[d as int].take(e as int) =~= mv[d as int]);
            assert(mv.take(d + 1).last() == mv[d as int]);
        }
        d = d + 1;
    }
    proof {
        assert(mv.take(d as int) =~= mv);
        assert forall|a: int, b: int| 0 <= a < b < groups@.len() implies #[trigger] groups@[a].0@
            != #[trigger] groups@[b].0@ by {
            assert(index@.contains_key(encode_utf8(groups@[a].0@)));
            assert(index@.contains_key(encode_utf8(groups@[b].0@)));
        }
        assert forall|d2: int, e: int|
            0 <= d2 < metas@.len() && 0 <= e < metas@[d2]@.len() implies group_keys(groups@).contains(
            ascii_upper_all(#[trigger] metas@[d2]@[e].0@),
        ) by {
            let k = encode_utf8(ascii_upper_all(metas@[d2]@[e].0@));
            assert(index@.contains_key(k));
            let m = index@[k] as int;
            assert(decode_utf8(encode_utf8(groups@[m].0@)) == decode_utf8(k));
            assert(groups@[m].0@ == ascii_upper_all(metas@[d2]@[e].0@));
            assert(group_keys(groups@)[m] == groups@[m].0@);
        }
    }
    groups
}

proof fn lemma_ranges_at(cs: Seq<char>, a: int, b: int)
    requires
        0 <= a < b,
        encode_utf8(cs).len() <= usize::MAX,
    ensures
        forall|k: int|
            0 <= k < ranges_at(cs, a, b).len() ==> exists|m: int|
                b <= m <= cs.len() && #[trigger] ranges_at(cs, a, b)[k] == (
                    byte_offset(cs, a) as usize,
                    byte_offset(cs, m) as usize,
                ) && byte_offset(cs, m) - byte_offset(cs, a) <= MAX_TERM_LENGTH,
    decreases cs.len() + 1 - b,
{
    if b <= cs.len() && byte_offset(cs, b) - byte_offset(cs, a) <= MAX_TERM_LENGTH {
        lemma_ranges_at(cs, a, b + 1);
        let r = ranges_at(cs, a, b);
        assert forall|k: int| 0 <= k < r.len() implies exists|m: int|
            b <= m <= cs.len() && #[trigger] r[k] == (
                byte_offset(cs, a) as usize,
                byte_offset(cs, m) as usize,
            ) && byte_offset(cs, m) - byte_offset(cs, a) <= MAX_TERM_LENGTH by {
            if k > 0 {
                assert(r[k] == ranges_at(cs, a, b + 1)[k - 1]);
            }
        }
    }
}

proof fn lemma_ranges_from(cs: Seq<char>, a: int)
    requires
        0 <= a,
        encode_utf8(cs).len() <= usize::MAX,
    ensures
        forall|k: int|
            0 <= k < ranges_from(cs, a).len() ==> exists|s: int, e: int|
                a <= s < e <= cs.len() && #[trigger] ranges_from(cs, a)[k] == (
                    byte_offset(cs, s) as usize,
                    byte_offset(cs, e) as usize,
                ) && byte_offset(cs, e) - byte_offset(cs, s) <= MAX_TERM_LENGTH,
    decreases cs.len() - a,
{
    if a < cs.len() {
        lemma_ranges_at(cs, a, a + 1);
        lemma_ranges_from(cs, a + 1);
        let x = ranges_at(cs, a, a + 1);
        let y = ranges_from(cs, a + 1);
        let r = ranges_from(cs, a);
        assert(r == x + y);
        assert forall|k: int| 0 <= k < r.len() implies exists|s: int, e: int|
            a <= s < e <= cs.len() && #[trigger] r[k] == (
                byte_offset(cs, s) as usize,
                byte_offset(cs, e) as usize,
            ) && byte_offset(cs, e) - byte_offset(cs, s) <= MAX_TERM_LENGTH by {
            if k < x.len() {
                assert(r[k] == x[k]);
                let m = choose|m: int|
                    a + 1 <= m <= cs.len() && #[trigger] x[k] == (
                        byte_offset(cs, a) as usize,
                        byte_offset(cs, m) as usize,
                    ) && byte_offset(cs, m) - byte_offset(cs, a) <= MAX_TERM_LENGTH;
                assert(a <= a < m <= cs.len());
            } else {
                assert(r[k] == y[k - x.len()]);
            }
        }
    }
}

/// Every range the search looks up is a substring of the keyword, between
/// two character boundaries, of one to `MAX_TERM_LENGTH` bytes.
pub proof fn law_keyword_ranges_are_terms(upper: Seq<char>)
    requires
        encode_utf8(upper).len() <= usize::MAX,
    ensures
        forall|k: int|
            0 <= k < ranges_from(upper, 0).len() ==> exists|s: int, e: int|
                0 <= s < e <= upper.len() && #[trigger] ranges_from(upper, 0)[k] == (
                    byte_offset(upper, s) as usize,
                    byte_offset(upper, e) as usize,
                ) && byte_offset(upper, e) - byte_offset(upper, s) <= MAX_TERM_LENGTH,
{
    lemma_ranges_from(upper, 0);
}

} // verus!
