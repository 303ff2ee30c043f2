//! How a space at either end of a text moves its split points, when no
//! dictionary word holds a space.
use vstd::prelude::*;
use vstd::utf8::*;

use crate::lexer::{
    best, byte_offset, char_type, chunk_end, ends_run, fit_end, is_whitespace_spec,
    lemma_best_bounds, lemma_byte_offset_monotone, lemma_chunk_end_bounds, lemma_encode_append,
    lemma_encode_one, match_limit, scan, scan_step, split_points, splits_from, utf8_len, CharType,
};

verus! {

/// No key of `dict` holds the byte of a space.
pub open spec fn no_space_key(dict: Map<Seq<u8>, i64>) -> bool {
    forall|k: Seq<u8>| #[trigger] dict.contains_key(k) ==> !k.contains(0x20u8)
}

proof fn lemma_space_encoding()
    ensures
        encode_utf8(seq![' ']) == seq![0x20u8],
        char_type(' ') == CharType::WhiteSpace,
{
    lemma_encode_one(' ');
    assert((0x20u32 & 0x7F) as u8 == 0x20u8) by (bit_vector);
    assert(encode_scalar(' ' as u32) =~= seq![0x20u8]);
}

/// A word that ends in a space is no dictionary word.
proof fn lemma_space_last(a: Seq<char>, dict: Map<Seq<u8>, i64>)
    requires
        no_space_key(dict),
    ensures
        !dict.contains_key(encode_utf8(a.push(' '))),
{
    lemma_space_encoding();
    lemma_encode_append(a, seq![' ']);
    assert(a.push(' ') =~= a + seq![' ']);
    let e = encode_utf8(a.push(' '));
    assert(e[e.len() - 1] == 0x20u8);
    assert(e.contains(0x20u8));
}

/// A word that starts with a space is no dictionary word.
proof fn lemma_space_first(a: Seq<char>, dict: Map<Seq<u8>, i64>)
    requires
        no_space_key(dict),
    ensures
        !dict.contains_key(encode_utf8(seq![' '] + a)),
{
    lemma_space_encoding();
    lemma_encode_append(seq![' '], a);
    let e = encode_utf8(seq![' '] + a);
    assert(e[0] == 0x20u8);
    assert(e.contains(0x20u8));
}

proof fn lemma_fit_end_push(cs: Seq<char>, i: int, k: int)
    requires
        0 <= i,
        k < cs.len(),
    ensures
        fit_end(cs.push(' '), i, k) == fit_end(cs, i, k),
    decreases k - i,
{
    if k > i {
        assert(cs.push(' ').subrange(i, k + 1) =~= cs.subrange(i, k + 1));
        assert(utf8_len(cs.push(' '), i, k + 1) == utf8_len(cs, i, k + 1));
        lemma_fit_end_push(cs, i, k - 1);
    }
}

proof fn lemma_chunk_end_push(cs: Seq<char>, i: int)
    requires
        0 <= i < cs.len(),
        !is_whitespace_spec(cs.last()),
    ensures
        chunk_end(cs.push(' '), i) == chunk_end(cs, i),
    decreases cs.len() - i,
{
    let t = cs.push(' ');
    lemma_space_encoding();
    assert(t[i] == cs[i]);
    if i + 1 < cs.len() {
        assert(t[i + 1] == cs[i + 1]);
    } else {
        assert(t[i + 1] == ' ');
        assert(char_type(cs[i]) != CharType::WhiteSpace);
    }
    assert(ends_run(t, i) == ends_run(cs, i));
    if !ends_run(cs, i) {
        lemma_chunk_end_push(cs, i + 1);
        lemma_chunk_end_bounds(cs, i + 1);
        lemma_fit_end_push(cs, i, chunk_end(cs, i + 1));
    }
}

/// At the appended space itself the best segmentation is the space alone,
/// with no weight.
proof fn lemma_best_last(cs: Seq<char>, dict: Map<Seq<u8>, i64>)
    requires
        no_space_key(dict),
    ensures
        best(cs.push(' '), dict, cs.len() as int) == (0int, cs.len() + 1int),
{
    let t = cs.push(' ');
    let n = cs.len() as int;
    assert(ends_run(t, n));
    assert(chunk_end(t, n) == n);
    assert(best(t, dict, n + 1) == (0int, n + 1));
    let acc = (0int, n + 1);
    assert(t.subrange(n, n + 1) =~= Seq::<char>::empty().push(' '));
    lemma_space_last(Seq::<char>::empty(), dict);
    assert(scan_step(t, dict, n, n, acc) == acc);
    assert(scan(t, dict, n, n + 1, acc) == acc);
    assert(scan(t, dict, n, n, acc) == acc);
}

proof fn lemma_scan_push(cs: Seq<char>, dict: Map<Seq<u8>, i64>, i: int, j: int, acc: (int, int))
    requires
        0 <= i < cs.len(),
        i <= j,
        no_space_key(dict),
        forall|m: int| i < m < cs.len() ==> #[trigger] best(cs.push(' '), dict, m) == best(cs, dict, m),
        best(cs.push(' '), dict, cs.len() as int) == (0int, cs.len() + 1int),
    ensures
        scan(cs.push(' '), dict, i, j, acc) == scan(cs, dict, i, j, acc),
    decreases cs.len() + 1 - j,
{
    let t = cs.push(' ');
    let n = cs.len() as int;
    if j >= match_limit(n + 1, i) {
    } else if j >= match_limit(n, i) {
        assert(j == n);
        assert(t.subrange(i, n + 1) =~= cs.subrange(i, n).push(' '));
        lemma_space_last(cs.subrange(i, n), dict);
        assert(scan_step(t, dict, i, j, acc) == acc);
        assert(scan(t, dict, i, j + 1, acc) == acc);
    } else {
        assert(t.subrange(i, j + 1) =~= cs.subrange(i, j + 1));
        if j + 1 < n {
            assert(best(t, dict, j + 1) == best(cs, dict, j + 1));
        }
        assert(best(t, dict, j + 1).0 == best(cs, dict, j + 1).0);
        assert(scan_step(t, dict, i, j, acc) == scan_step(cs, dict, i, j, acc));
        lemma_scan_push(cs, dict, i, j + 1, scan_step(cs, dict, i, j, acc));
    }
}

proof fn lemma_best_push(cs: Seq<char>, dict: Map<Seq<u8>, i64>, i: int)
    requires
        0 <= i <= cs.len(),
        no_space_key(dict),
        !is_whitespace_spec(cs.last()),
    ensures
        forall|m: int| i <= m < cs.len() ==> #[trigger] best(cs.push(' '), dict, m) == best(cs, dict, m),
    decreases cs.len() - i,
{
    let t = cs.push(' ');
    let n = cs.len() as int;
    if i < n {
        lemma_best_push(cs, dict, i + 1);
        lemma_best_last(cs, dict);
        lemma_chunk_end_push(cs, i);
        lemma_chunk_end_bounds(cs, i);
        let d = chunk_end(cs, i) + 1;
        assert(best(t, dict, d).0 == best(cs, dict, d).0);
        lemma_scan_push(cs, dict, i, i, (best(cs, dict, d).0, d));
        assert(best(t, dict, i) == best(cs, dict, i));
    }
}

proof fn lemma_splits_push(cs: Seq<char>, dict: Map<Seq<u8>, i64>, p: int)
    requires
        0 <= p <= cs.len(),
        forall|m: int| 0 <= m < cs.len() ==> #[trigger] best(cs.push(' '), dict, m) == best(cs, dict, m),
        best(cs.push(' '), dict, cs.len() as int) == (0int, cs.len() + 1int),
    ensures
        splits_from(cs.push(' '), dict, p) == splits_from(cs, dict, p).push(
            byte_offset(cs, cs.len() as int) as usize,
        ),
    decreases cs.len() - p,
{
    let t = cs.push(' ');
    let n = cs.len() as int;
    assert(t.take(p) =~= cs.take(p));
    if p == n {
        assert(splits_from(t, dict, n + 1) == Seq::<usize>::empty());
        assert(splits_from(t, dict, p) =~= splits_from(cs, dict, p).push(
            byte_offset(cs, n) as usize,
        ));
    } else {
        lemma_best_bounds(cs, dict, p);
        let q = best(cs, dict, p).1;
        lemma_splits_push(cs, dict, q);
        assert(best(t, dict, p) == best(cs, dict, p));
        assert(splits_from(t, dict, p) =~= splits_from(cs, dict, p).push(
            byte_offset(cs, n) as usize,
        ));
    }
}

/// A space appended to a text that does not end in white space adds one
/// split point, where the space starts, and keeps the others, provided no
/// dictionary word holds a space.
pub proof fn law_space_appended(content: Seq<char>, dict: Map<Seq<u8>, i64>)
    requires
        content.len() > 0,
        !is_whitespace_spec(content.last()),
        no_space_key(dict),
    ensures
        split_points(content.push(' '), dict) == split_points(content, dict).push(
            encode_utf8(content).len() as usize,
        ),
{
    let n = content.len() as int;
    lemma_best_push(content, dict, 0);
    lemma_best_last(content, dict);
    lemma_best_bounds(content, dict, 0);
    let q = best(content, dict, 0).1;
    lemma_splits_push(content, dict, q);
    assert(best(content.push(' '), dict, 0) == best(content, dict, 0));
    assert(content.take(n) =~= content);
}


/// `(s, e)` with the end moved one character on.
spec fn shifted(r: (int, int)) -> (int, int) {
    (r.0, r.1 + 1)
}

proof fn lemma_fit_end_pre(cs: Seq<char>, i: int, k: int)
    requires
        0 <= i,
        k < cs.len(),
    ensures
        fit_end(seq![' '] + cs, i + 1, k + 1) == fit_end(cs, i, k) + 1,
    decreases k - i,
{
    if k > i {
        assert((seq![' '] + cs).subrange(i + 1, k + 2) =~= cs.subrange(i, k + 1));
        assert(utf8_len(seq![' '] + cs, i + 1, k + 2) == utf8_len(cs, i, k + 1));
        lemma_fit_end_pre(cs, i, k - 1);
    }
}

proof fn lemma_chunk_end_pre(cs: Seq<char>, i: int)
    requires
        0 <= i < cs.len(),
    ensures
        chunk_end(seq![' '] + cs, i + 1) == chunk_end(cs, i) + 1,
    decreases cs.len() - i,
{
    let t = seq![' '] + cs;
    assert(t[i + 1] == cs[i]);
    if i + 1 < cs.len() {
        assert(t[i + 2] == cs[i + 1]);
    }
    assert(ends_run(t, i + 1) == ends_run(cs, i));
    if !ends_run(cs, i) {
        lemma_chunk_end_pre(cs, i + 1);
        lemma_chunk_end_bounds(cs, i + 1);
        lemma_fit_end_pre(cs, i, chunk_end(cs, i + 1));
    }
}

proof fn lemma_scan_pre(cs: Seq<char>, dict: Map<Seq<u8>, i64>, i: int, j: int, acc: (int, int))
    requires
        0 <= i < cs.len(),
        i <= j,
        forall|m: int|
            i < m <= cs.len() ==> #[trigger] best(seq![' '] + cs, dict, m + 1) == shifted(
                best(cs, dict, m),
            ),
    ensures
        scan(seq![' '] + cs, dict, i + 1, j + 1, shifted(acc)) == shifted(scan(cs, dict, i, j, acc)),
    decreases cs.len() - j,
{
    let t = seq![' '] + cs;
    let n = cs.len() as int;
    assert(match_limit(n + 1, i + 1) == match_limit(n, i) + 1);
    if j < match_limit(n, i) {
        assert(t.subrange(i + 1, j + 2) =~= cs.subrange(i, j + 1));
        assert(best(t, dict, j + 2) == shifted(best(cs, dict, j + 1)));
        assert(scan_step(t, dict, i + 1, j + 1, shifted(acc)) == shifted(
            scan_step(cs, dict, i, j, acc),
        ));
        lemma_scan_pre(cs, dict, i, j + 1, scan_step(cs, dict, i, j, acc));
    }
}

proof fn lemma_best_pre(cs: Seq<char>, dict: Map<Seq<u8>, i64>, i: int)
    requires
        0 <= i <= cs.len(),
    ensures
        forall|m: int|
            i <= m <= cs.len() ==> #[trigger] best(seq![' '] + cs, dict, m + 1) == shifted(
                best(cs, dict, m),
            ),
    decreases cs.len() - i,
{
    let t = seq![' '] + cs;
    let n = cs.len() as int;
    if i == n {
        assert(best(t, dict, n + 1) == shifted(best(cs, dict, n)));
    } else {
        lemma_best_pre(cs, dict, i + 1);
        lemma_chunk_end_pre(cs, i);
        lemma_chunk_end_bounds(cs, i);
        let d = chunk_end(cs, i) + 1;
        assert(best(t, dict, d + 1) == shifted(best(cs, dict, d)));
        lemma_scan_pre(cs, dict, i, i, (best(cs, dict, d).0, d));
        assert(best(t, dict, i + 1) == shifted(best(cs, dict, i)));
    }
}

/// A scan of the words that start with a space keeps what it has.
proof fn lemma_scan_space_first(cs: Seq<char>, dict: Map<Seq<u8>, i64>, j: int, acc: (int, int))
    requires
        0 <= j,
        no_space_key(dict),
    ensures
        scan(seq![' '] + cs, dict, 0, j, acc) == acc,
    decreases cs.len() + 1 - j,
{
    let t = seq![' '] + cs;
    if j < match_limit(t.len() as int, 0) {
        assert(t.subrange(0, j + 1) =~= seq![' '] + cs.subrange(0, j));
        lemma_space_first(cs.subrange(0, j), dict);
        assert(scan_step(t, dict, 0, j, acc) == acc);
        lemma_scan_space_first(cs, dict, j + 1, acc);
    }
}

proof fn lemma_splits_pre(cs: Seq<char>, dict: Map<Seq<u8>, i64>, p: int)
    requires
        0 <= p <= cs.len(),
        encode_utf8(cs).len() < usize::MAX,
        forall|m: int|
            0 <= m <= cs.len() ==> #[trigger] best(seq![' '] + cs, dict, m + 1) == shifted(
                best(cs, dict, m),
            ),
    ensures
        splits_from(seq![' '] + cs, dict, p + 1) == splits_from(cs, dict, p).map_values(
            |x: usize| (x + 1) as usize,
        ),
    decreases cs.len() - p,
{
    let t = seq![' '] + cs;
    let n = cs.len() as int;
    if p == n {
        assert(splits_from(cs, dict, p).map_values(|x: usize| (x + 1) as usize) =~= Seq::<
            usize,
        >::empty());
    } else {
        lemma_best_bounds(cs, dict, p);
        let q = best(cs, dict, p).1;
        lemma_splits_pre(cs, dict, q);
        lemma_space_encoding();
        assert(t.take(p + 1) =~= seq![' '] + cs.take(p));
        lemma_encode_append(seq![' '], cs.take(p));
        lemma_byte_offset_monotone(cs, p, n);
        assert(cs.take(n) =~= cs);
        assert(byte_offset(t, p + 1) == byte_offset(cs, p) + 1);
        assert(best(t, dict, p + 1) == shifted(best(cs, dict, p)));
        assert(splits_from(t, dict, p + 1) =~= splits_from(cs, dict, p).map_values(
            |x: usize| (x + 1) as usize,
        ));
    }
}

/// A space put before a text that does not start with white space makes a
/// split point after the space, and moves every other split point one byte
/// on, provided no dictionary word holds a space.
pub proof fn law_space_prepended(content: Seq<char>, dict: Map<Seq<u8>, i64>)
    requires
        content.len() > 0,
        !is_whitespace_spec(content[0]),
        no_space_key(dict),
        encode_utf8(content).len() < usize::MAX,
    ensures
        split_points(seq![' '] + content, dict) == seq![1usize] + split_points(
            content,
            dict,
        ).map_values(|x: usize| (x + 1) as usize),
{
    let t = seq![' '] + content;
    lemma_space_encoding();
    lemma_best_pre(content, dict, 0);
    assert(t[0] == ' ' && t[1] == content[0]);
    assert(char_type(content[0]) != CharType::WhiteSpace);
    assert(ends_run(t, 0));
    assert(chunk_end(t, 0) == 0);
    lemma_scan_space_first(content, dict, 0, (best(t, dict, 1).0, 1));
    assert(best(t, dict, 0).1 == 1);
    lemma_best_bounds(content, dict, 0);
    let q = best(content, dict, 0).1;
    lemma_splits_pre(content, dict, q);
    assert(t.take(1) =~= seq![' ']);
    assert(byte_offset(t, 1) == 1);
    assert(best(t, dict, 1) == shifted(best(content, dict, 0)));
    assert(split_points(t, dict) =~= seq![1usize] + split_points(content, dict).map_values(
        |x: usize| (x + 1) as usize,
    ));
}

} // verus!
