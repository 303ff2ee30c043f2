use vstd::prelude::*;
use vstd::utf8::*;

use crate::trie::{nibbles, lemma_nibbles_append, Node};

verus! {

/// Longest term, in UTF-8 bytes, that the segmenter produces from a run of
/// same-class characters.
pub const MAX_TERM_LENGTH: usize = 50;

/// The class of a character, which decides where the default segmentation
/// may cut.
#[derive(PartialEq, Eq, Structural, Debug, Clone, Copy)]
pub enum CharType {
    AsciiAlphabetic,
    AsciiDigit,
    AsciiPunctuation,
    AsciiOther,
    ChinesePunctuation,
    WhiteSpace,
    Other,
}

pub open spec fn is_ascii_alphabetic_spec(c: char) -> bool {
    ('A' <= c && c <= 'Z') || ('a' <= c && c <= 'z')
}

pub open spec fn is_ascii_digit_spec(c: char) -> bool {
    '0' <= c && c <= '9'
}

pub open spec fn is_ascii_punctuation_spec(c: char) -> bool {
    ||| ('!' <= c && c <= '/')
    ||| (':' <= c && c <= '@')
    ||| ('[' <= c && c <= '`')
    ||| ('{' <= c && c <= '~')
}

/// Unicode `White_Space`, as `char::is_whitespace` documents it.
pub open spec fn is_whitespace_spec(c: char) -> bool {
    let u = c as u32;
    ||| (0x09 <= u && u <= 0x0D)
    ||| u == 0x20
    ||| u == 0x85
    ||| u == 0xA0
    ||| u == 0x1680
    ||| (0x2000 <= u && u <= 0x200A)
    ||| u == 0x2028
    ||| u == 0x2029
    ||| u == 0x202F
    ||| u == 0x205F
    ||| u == 0x3000
}

pub open spec fn is_ascii_spec(c: char) -> bool {
    (c as u32) < 0x80
}

/// The full-width punctuation marks `，。《》？！￥（）【】；：‘’“”、`.
pub open spec fn is_chinese_punctuation_spec(c: char) -> bool {
    let u = c as u32;
    ||| u == 0xFF0C
    ||| u == 0x3002
    ||| u == 0x300A
    ||| u == 0x300B
    ||| u == 0xFF1F
    ||| u == 0xFF01
    ||| u == 0xFFE5
    ||| u == 0xFF08
    ||| u == 0xFF09
    ||| u == 0x3010
    ||| u == 0x3011
    ||| u == 0xFF1B
    ||| u == 0xFF1A
    ||| u == 0x2018
    ||| u == 0x2019
    ||| u == 0x201C
    ||| u == 0x201D
    ||| u == 0x3001
}

/// The class of `c`: the first test that `c` passes, in this order.
pub open spec fn char_type(c: char) -> CharType {
    if is_ascii_alphabetic_spec(c) {
        CharType::AsciiAlphabetic
    } else if is_ascii_digit_spec(c) {
        CharType::AsciiDigit
    } else if is_ascii_punctuation_spec(c) {
        CharType::AsciiPunctuation
    } else if is_whitespace_spec(c) {
        CharType::WhiteSpace
    } else if is_ascii_spec(c) {
        CharType::AsciiOther
    } else if is_chinese_punctuation_spec(c) {
        CharType::ChinesePunctuation
    } else {
        CharType::Other
    }
}

impl CharType {
    /// Classifies a character.
    pub fn new(c: char) -> (r: CharType)
        ensures
            r == char_type(c),
    {
        let u = c as u32;
        if ('A' <= c && c <= 'Z') || ('a' <= c && c <= 'z') {
            CharType::AsciiAlphabetic
        } else if '0' <= c && c <= '9' {
            CharType::AsciiDigit
        } else if ('!' <= c && c <= '/') || (':' <= c && c <= '@') || ('[' <= c && c <= '`') || (
        '{' <= c && c <= '~') {
            CharType::AsciiPunctuation
        } else if (0x09 <= u && u <= 0x0D) || u == 0x20 || u == 0x85 || u == 0xA0 || u == 0x1680
            || (0x2000 <= u && u <= 0x200A) || u == 0x2028 || u == 0x2029 || u == 0x202F || u
            == 0x205F || u == 0x3000 {
            CharType::WhiteSpace
        } else if u < 0x80 {
            CharType::AsciiOther
        } else if u == 0xFF0C || u == 0x3002 || u == 0x300A || u == 0x300B || u == 0xFF1F || u
            == 0xFF01 || u == 0xFFE5 || u == 0xFF08 || u == 0xFF09 || u == 0x3010 || u == 0x3011
            || u == 0xFF1B || u == 0xFF1A || u == 0x2018 || u == 0x2019 || u == 0x201C || u
            == 0x201D || u == 0x3001 {
            CharType::ChinesePunctuation
        } else {
            CharType::Other
        }
    }
}

/// The number of UTF-8 bytes of `c`.
pub open spec fn char_width(c: char) -> int {
    encode_scalar(c as u32).len() as int
}

/// The number of UTF-8 bytes of the characters `cs[a..b]`.
pub open spec fn utf8_len(cs: Seq<char>, a: int, b: int) -> int {
    encode_utf8(cs.subrange(a, b)).len() as int
}

/// The byte offset of character `k` in the UTF-8 encoding of `cs`.
pub open spec fn byte_offset(cs: Seq<char>, k: int) -> int {
    encode_utf8(cs.take(k)).len() as int
}

/// Character `i` is the last of its run: the next character, if any, is of
/// another class, or the class of `i` is `Other`, whose characters stand
/// alone.
pub open spec fn ends_run(cs: Seq<char>, i: int) -> bool {
    ||| i + 1 >= cs.len()
    ||| char_type(cs[i + 1]) != char_type(cs[i])
    ||| char_type(cs[i]) == CharType::Other
}

/// The largest `e <= k` such that `cs[i..=e]` fits in `MAX_TERM_LENGTH`
/// bytes (or `i` itself).
pub open spec fn fit_end(cs: Seq<char>, i: int, k: int) -> int
    decreases k - i,
{
    if k <= i || utf8_len(cs, i, k + 1) <= MAX_TERM_LENGTH {
        k
    } else {
        fit_end(cs, i, k - 1)
    }
}

/// The last character of the default term that starts at `i`: the term
/// stays within the run of `i`, within `MAX_TERM_LENGTH` bytes, and never
/// ends after the term that starts at `i + 1`.
pub open spec fn chunk_end(cs: Seq<char>, i: int) -> int
    decreases cs.len() - i,
{
    if i < 0 || ends_run(cs, i) {
        i
    } else {
        fit_end(cs, i, chunk_end(cs, i + 1))
    }
}

/// Dictionary terms start at `i` and end before this position.
pub open spec fn match_limit(n: int, i: int) -> int {
    if n < i + MAX_TERM_LENGTH - 1 {
        n
    } else {
        i + MAX_TERM_LENGTH - 1
    }
}

/// The best segmentation of `cs[i..]`: its score and where its first term
/// ends. The candidates are the default term at `i` and every dictionary
/// word `cs[i..=j]` with `j < match_limit`; a candidate scores the weight of
/// its word (none for the default term) plus the best score after it. The
/// first candidate is the default term, then the words by increasing `j`;
/// the last one with the highest score is chosen.
pub open spec fn best(cs: Seq<char>, dict: Map<Seq<u8>, i64>, i: int) -> (int, int)
    decreases cs.len() - i, 1int, 0int,
{
    if i < 0 || i >= cs.len() {
        (0, cs.len() as int)
    } else {
        proof {
            lemma_chunk_end_bounds(cs, i);
        }
        let d = chunk_end(cs, i) + 1;
        scan(cs, dict, i, i, (best(cs, dict, d).0, d))
    }
}

/// Goes through the dictionary words `cs[i..=j]`, from `j` up, keeping in
/// `acc` the best (score, end) so far; ties go to the later candidate.
pub open spec fn scan(cs: Seq<char>, dict: Map<Seq<u8>, i64>, i: int, j: int, acc: (int, int)) -> (
    int,
    int,
)
    decreases cs.len() - i, 0int, cs.len() - j,
{
    if i < 0 || j < i || j >= match_limit(cs.len() as int, i) {
        acc
    } else {
        scan(cs, dict, i, j + 1, scan_step(cs, dict, i, j, acc))
    }
}

/// One step of `scan`: the word `cs[i..=j]`, if the dictionary holds it,
/// replaces `acc` when it scores at least as much.
pub open spec fn scan_step(cs: Seq<char>, dict: Map<Seq<u8>, i64>, i: int, j: int, acc: (int, int)) -> (
    int,
    int,
)
    decreases cs.len() - i, 0int, cs.len() - j, 0int,
{
    let key = encode_utf8(cs.subrange(i, j + 1));
    if 0 <= i <= j < match_limit(cs.len() as int, i) && dict.contains_key(key) && acc.0 <= best(cs, dict, j + 1).0 + dict[key] {
        (best(cs, dict, j + 1).0 + dict[key], j + 1)
    } else {
        acc
    }
}

/// The byte offsets of the starts of the terms after the first, following
/// the best segmentation from position `p`.
pub open spec fn splits_from(cs: Seq<char>, dict: Map<Seq<u8>, i64>, p: int) -> Seq<usize>
    decreases cs.len() - p,
{
    if p < 0 || p >= cs.len() {
        Seq::empty()
    } else {
        proof {
            lemma_best_bounds(cs, dict, p);
        }
        seq![byte_offset(cs, p) as usize] + splits_from(cs, dict, best(cs, dict, p).1)
    }
}

proof fn lemma_fit_end_bounds(cs: Seq<char>, i: int, k: int)
    requires
        i <= k,
    ensures
        i <= fit_end(cs, i, k) <= k,
    decreases k - i,
{
    if k > i && utf8_len(cs, i, k + 1) > MAX_TERM_LENGTH {
        lemma_fit_end_bounds(cs, i, k - 1);
    }
}

/// The default term at `i` ends at `i` or later, and within `cs`.
pub proof fn lemma_chunk_end_bounds(cs: Seq<char>, i: int)
    requires
        0 <= i < cs.len(),
    ensures
        i <= chunk_end(cs, i) < cs.len(),
    decreases cs.len() - i,
{
    if !ends_run(cs, i) {
        lemma_chunk_end_bounds(cs, i + 1);
        lemma_fit_end_bounds(cs, i, chunk_end(cs, i + 1));
    }
}

/// Where the first term of the best segmentation of `cs[i..]` ends lies
/// after `i` and within `cs`.
pub proof fn lemma_best_bounds(cs: Seq<char>, dict: Map<Seq<u8>, i64>, i: int)
    requires
        0 <= i < cs.len(),
    ensures
        i < best(cs, dict, i).1 <= cs.len(),
{
    lemma_chunk_end_bounds(cs, i);
    let d = chunk_end(cs, i) + 1;
    lemma_scan_bounds(cs, dict, i, i, (best(cs, dict, d).0, d));
}

proof fn lemma_scan_bounds(cs: Seq<char>, dict: Map<Seq<u8>, i64>, i: int, j: int, acc: (int, int))
    requires
        0 <= i <= j,
        i < acc.1 <= cs.len(),
    ensures
        i < scan(cs, dict, i, j, acc).1 <= cs.len(),
    decreases cs.len() - j,
{
    if j < match_limit(cs.len() as int, i) {
        lemma_scan_bounds(cs, dict, i, j + 1, scan_step(cs, dict, i, j, acc));
    }
}

/// No dictionary weight is larger than this in magnitude; scores of `n`
/// characters stay within `n` times it.
pub open spec fn weight_bound() -> int {
    0x8000_0000_0000_0000
}

proof fn lemma_best_score(cs: Seq<char>, dict: Map<Seq<u8>, i64>, i: int)
    requires
        0 <= i <= cs.len(),
    ensures
        -(cs.len() - i) * weight_bound() <= best(cs, dict, i).0 <= (cs.len() - i) * weight_bound(),
    decreases cs.len() - i, 1int, 0int,
{
    if i < cs.len() {
        lemma_chunk_end_bounds(cs, i);
        let d = chunk_end(cs, i) + 1;
        lemma_best_score(cs, dict, d);
        lemma_scan_score(cs, dict, i, i, (best(cs, dict, d).0, d));
    }
}

proof fn lemma_scan_score(cs: Seq<char>, dict: Map<Seq<u8>, i64>, i: int, j: int, acc: (int, int))
    requires
        0 <= i <= j,
        i < cs.len(),
        -(cs.len() - i) * weight_bound() <= acc.0 <= (cs.len() - i) * weight_bound(),
    ensures
        -(cs.len() - i) * weight_bound() <= scan(cs, dict, i, j, acc).0 <= (cs.len() - i)
            * weight_bound(),
    decreases cs.len() - i, 0int, cs.len() - j,
{
    if j < match_limit(cs.len() as int, i) {
        lemma_best_score(cs, dict, j + 1);
        lemma_scan_score(cs, dict, i, j + 1, scan_step(cs, dict, i, j, acc));
    }
}

/// Once no dictionary word starts with `cs[i..=j]`, the scan keeps what it
/// has.
proof fn lemma_scan_stuck(cs: Seq<char>, dict: &Node<i64>, i: int, j0: int, j: int, acc: (int, int))
    requires
        0 <= i <= j0 <= j,
        j0 < cs.len(),
        dict.node_at(nibbles(encode_utf8(cs.subrange(i, j0 + 1)))) is None,
    ensures
        scan(cs, dict@, i, j, acc) == acc,
    decreases cs.len() - j,
{
    if j < match_limit(cs.len() as int, i) {
        let key = encode_utf8(cs.subrange(i, j + 1));
        let p = encode_utf8(cs.subrange(i, j0 + 1));
        let rest = encode_utf8(cs.subrange(j0 + 1, j + 1));
        lemma_encode_append(cs.subrange(i, j0 + 1), cs.subrange(j0 + 1, j + 1));
        assert(cs.subrange(i, j0 + 1) + cs.subrange(j0 + 1, j + 1) =~= cs.subrange(i, j + 1));
        dict.lemma_lookup_below(p, rest);
        assert(key == p + rest);
        assert(scan_step(cs, dict@, i, j, acc) == acc);
        lemma_scan_stuck(cs, dict, i, j0, j + 1, acc);
    }
}

/// The UTF-8 encoding of a concatenation is the concatenation of the
/// encodings.
pub proof fn lemma_encode_append(a: Seq<char>, b: Seq<char>)
    ensures
        encode_utf8(a + b) == encode_utf8(a) + encode_utf8(b),
    decreases a.len(),
{
    if a.len() == 0 {
        assert(a + b =~= b);
        assert(encode_utf8(a) =~= Seq::<u8>::empty());
        assert(encode_utf8(a) + encode_utf8(b) =~= encode_utf8(b));
    } else {
        lemma_encode_append(a.drop_first(), b);
        assert((a + b).drop_first() =~= a.drop_first() + b);
        assert((a + b)[0] == a[0]);
        assert(encode_utf8(a + b) =~= encode_utf8(a) + encode_utf8(b));
    }
}

pub proof fn lemma_encode_one(c: char)
    ensures
        encode_utf8(seq![c]) == encode_scalar(c as u32),
        1 <= char_width(c) <= 4,
{
    let one = seq![c];
    assert(one.len() == 1);
    assert(one[0] == c);
    assert(one.drop_first() =~= Seq::<char>::empty());
    assert(encode_utf8(one.drop_first()) =~= Seq::<u8>::empty());
    assert(encode_utf8(one) == encode_scalar(c as u32) + encode_utf8(one.drop_first()));
    assert(encode_utf8(one) =~= encode_scalar(c as u32));
}

/// Extending a stretch of characters by one, at either end, adds the width
/// of that character.
pub proof fn lemma_utf8_len_step(cs: Seq<char>, a: int, b: int)
    requires
        0 <= a < b <= cs.len(),
    ensures
        utf8_len(cs, a, b) == utf8_len(cs, a, b - 1) + char_width(cs[b - 1]),
        utf8_len(cs, a, b) == char_width(cs[a]) + utf8_len(cs, a + 1, b),
        encode_utf8(cs.subrange(a, b)) == encode_utf8(cs.subrange(a, b - 1)) + encode_scalar(
            cs[b - 1] as u32,
        ),
{
    lemma_encode_one(cs[b - 1]);
    lemma_encode_one(cs[a]);
    lemma_encode_append(cs.subrange(a, b - 1), seq![cs[b - 1]]);
    assert(cs.subrange(a, b - 1) + seq![cs[b - 1]] =~= cs.subrange(a, b));
    lemma_encode_append(seq![cs[a]], cs.subrange(a + 1, b));
    assert(seq![cs[a]] + cs.subrange(a + 1, b) =~= cs.subrange(a, b));
}

proof fn lemma_byte_offset_step(cs: Seq<char>, k: int)
    requires
        0 <= k < cs.len(),
    ensures
        byte_offset(cs, k + 1) == byte_offset(cs, k) + char_width(cs[k]),
        byte_offset(cs, k + 1) <= encode_utf8(cs).len(),
{
    lemma_encode_one(cs[k]);
    lemma_encode_append(cs.take(k), seq![cs[k]]);
    assert(cs.take(k) + seq![cs[k]] =~= cs.take(k + 1));
    lemma_encode_append(cs.take(k + 1), cs.skip(k + 1));
    assert(cs.take(k + 1) + cs.skip(k + 1) =~= cs);
}

/// Byte offsets grow with the character index.
pub proof fn lemma_byte_offset_monotone(cs: Seq<char>, a: int, b: int)
    requires
        0 <= a <= b <= cs.len(),
    ensures
        byte_offset(cs, a) <= byte_offset(cs, b),
        byte_offset(cs, b) - byte_offset(cs, a) == utf8_len(cs, a, b),
{
    lemma_encode_append(cs.take(a), cs.subrange(a, b));
    assert(cs.take(a) + cs.subrange(a, b) =~= cs.take(b));
}

/// The UTF-8 width of `c`.
pub fn char_len_utf8(c: char) -> (r: usize)
    ensures
        r == char_width(c),
        1 <= r <= 4,
{
    let u = c as u32;
    proof {
        char_is_scalar(c);
    }
    if u <= 0x7F {
        1
    } else if u <= 0x7FF {
        2
    } else if u <= 0xFFFF {
        3
    } else {
        4
    }
}

/// The characters of `content`.
pub fn chars_of(content: &str) -> (cs: Vec<char>)
    ensures
        cs@ == content@,
{
    let mut cs: Vec<char> = Vec::new();
    for c in it: content.chars()
        invariant
            cs@ == it.seq().take(it.index()),
    {
        cs.push(c);
    }
    cs
}

/// The byte offset of every character of `content`, and of its end.
pub fn byte_offsets(content: &str, cs: &Vec<char>) -> (offs: Vec<usize>)
    requires
        cs@ == content@,
    ensures
        offs@.len() == cs@.len() + 1,
        forall|m: int| 0 <= m <= cs@.len() ==> #[trigger] offs@[m] == byte_offset(cs@, m),
{
    let n = cs.len();
    let total = content.as_bytes().len();
    assert(total == encode_utf8(cs@).len());
    let mut offs: Vec<usize> = Vec::new();
    offs.push(0);
    let mut k: usize = 0;
    assert(cs@.take(0) =~= Seq::<char>::empty());
    while k < n
        invariant
            k <= n,
            n == cs@.len(),
            total == encode_utf8(cs@).len(),
            offs@.len() == k + 1,
            forall|m: int| 0 <= m <= k ==> #[trigger] offs@[m] == byte_offset(cs@, m),
        decreases n - k,
    {
        proof {
            lemma_byte_offset_step(cs@, k as int);
        }
        let w = char_len_utf8(cs[k]);
        let next_off = offs[k] + w;
        offs.push(next_off);
        k = k + 1;
    }
    offs
}

/// For every position `i` of `cs`, where the first term of the best
/// segmentation of `cs[i..]` ends; the last entry is `cs.len()`.
pub fn segment_ends(cs: &Vec<char>, dict: &Node<i64>) -> (next: Vec<usize>)
    requires
        cs@.len() < usize::MAX,
    ensures
        next@.len() == cs@.len() + 1,
        forall|m: int| 0 <= m < cs@.len() ==> #[trigger] next@[m] == best(cs@, dict@, m).1,
        next@[cs@.len() as int] == cs@.len(),
{
    let ghost dm = dict@;
    let n = cs.len();
    let mut f: Vec<i128> = Vec::new();
    let mut next: Vec<usize> = Vec::new();
    let mut k: usize = 0;
    while k <= n
        invariant
            k <= n + 1,
            n == cs@.len(),
            n < usize::MAX,
            f@.len() == k,
            next@.len() == k,
            forall|m: int| 0 <= m < k ==> #[trigger] f@[m] == 0 && next@[m] == n,
        decreases n + 1 - k,
    {
        f.push(0);
        next.push(n);
        k = k + 1;
    }
    assert(f@[n as int] == 0);
    assert(next@[n as int] == n);
    let mut run_type = CharType::Other;
    let mut sub_end: usize = n;
    let mut cur_len: usize = 0;
    let mut i: usize = n;
    while i > 0
        invariant
            n == cs@.len(),
            n < usize::MAX,
            dm == dict@,
            i <= n,
            f@.len() == n + 1,
            next@.len() == n + 1,
            forall|m: int| i <= m <= n ==> #[trigger] f@[m] == best(cs@, dm, m).0,
            forall|m: int| i <= m < n ==> #[trigger] next@[m] == best(cs@, dm, m).1,
            next@[n as int] == n,
            i < n ==> run_type == char_type(cs@[i as int]) && sub_end == chunk_end(
                cs@,
                i as int,
            ) && cur_len == utf8_len(cs@, i as int, sub_end + 1) && cur_len <= MAX_TERM_LENGTH,
            i == n ==> run_type == CharType::Other,
        decreases i,
    {
        i = i - 1;
        let c = cs[i];
        let this_type = CharType::new(c);
        let ghost resets = run_type != this_type || this_type == CharType::Other;
        proof {
            if i + 1 < n {
                lemma_chunk_end_bounds(cs@, i + 1);
            }
        }
        assert(resets == ends_run(cs@, i as int));
        if run_type != this_type {
            run_type = this_type;
            sub_end = i;
            cur_len = 0;
        }
        if run_type == CharType::Other {
            sub_end = i;
            cur_len = 0;
        }
        let w = char_len_utf8(c);
        cur_len = cur_len + w;
        let ghost target = chunk_end(cs@, i as int);
        proof {
            lemma_utf8_len_step(cs@, i as int, sub_end + 1);
            if resets {
                assert(cs@.subrange(i as int, i as int) =~= Seq::<char>::empty());
            }
        }
        let mut t: usize = 0;
        while t < 4
            invariant
                n == cs@.len(),
                i <= sub_end < n,
                cur_len == utf8_len(cs@, i as int, sub_end + 1),
                cur_len + t <= MAX_TERM_LENGTH + 4,
                fit_end(cs@, i as int, sub_end as int) == target,
                t <= 4,
            ensures
                i <= sub_end < n,
                cur_len == utf8_len(cs@, i as int, sub_end + 1),
                cur_len <= MAX_TERM_LENGTH,
                fit_end(cs@, i as int, sub_end as int) == target,
            decreases 4 - t,
        {
            if cur_len > MAX_TERM_LENGTH {
                proof {
                    lemma_utf8_len_step(cs@, i as int, sub_end + 1);
                    if sub_end == i {
                        lemma_encode_one(cs@[i as int]);
                        assert(cs@.subrange(i as int, i as int) =~= Seq::<char>::empty());
                    }
                }
                let wl = char_len_utf8(cs[sub_end]);
                cur_len = cur_len - wl;
                sub_end = sub_end - 1;
            } else {
                break;
            }
            t = t + 1;
        }
        let d = sub_end + 1;
        proof {
            lemma_chunk_end_bounds(cs@, i as int);
        }
        let fd = f[d];
        f.set(i, fd);
        next.set(i, d);
        let limit = if n - i < MAX_TERM_LENGTH - 1 {
            n
        } else {
            i + MAX_TERM_LENGTH - 1
        };
        let mut node: &Node<i64> = dict;
        let mut j: usize = i;
        proof {
            assert(cs@.subrange(i as int, i as int) =~= Seq::<char>::empty());
            assert(nibbles(encode_utf8(Seq::<char>::empty())) =~= Seq::<u8>::empty());
            dict.lemma_node_at_empty();
            lemma_best_score(cs@, dm, d as int);
        }
        while j < limit
            invariant
                n == cs@.len(),
                dm == dict@,
                i < d <= n,
                i <= j <= limit,
                limit == match_limit(n as int, i as int),
                f@.len() == n + 1,
                next@.len() == n + 1,
                dict.node_at(nibbles(encode_utf8(cs@.subrange(i as int, j as int)))) == Some(*node),
                scan(cs@, dm, i as int, j as int, (f@[i as int] as int, next@[i as int] as int))
                    == best(cs@, dm, i as int),
                forall|m: int| i < m <= n ==> #[trigger] f@[m] == best(cs@, dm, m).0,
                forall|m: int| i < m < n ==> #[trigger] next@[m] == best(cs@, dm, m).1,
                next@[n as int] == n,
                -(n - i) * weight_bound() <= f@[i as int] <= (n - i) * weight_bound(),
                i < next@[i as int] <= n,
            ensures
                f@[i as int] == best(cs@, dm, i as int).0,
                next@[i as int] == best(cs@, dm, i as int).1,
                forall|m: int| i < m <= n ==> #[trigger] f@[m] == best(cs@, dm, m).0,
                forall|m: int| i < m < n ==> #[trigger] next@[m] == best(cs@, dm, m).1,
                next@[n as int] == n,
                f@.len() == n + 1,
                next@.len() == n + 1,
            decreases limit - j,
        {
            let ghost acc = (f@[i as int] as int, next@[i as int] as int);
            let found = node.seek_char(cs[j]);
            proof {
                lemma_utf8_len_step(cs@, i as int, j + 1);
                let pre = encode_utf8(cs@.subrange(i as int, j as int));
                let one = encode_scalar(cs@[j as int] as u32);
                lemma_nibbles_append(pre, one);
                dict.lemma_node_at_append(nibbles(pre), nibbles(one));
                assert(pre + one == encode_utf8(cs@.subrange(i as int, j + 1)));
                assert(dict.node_at(nibbles(encode_utf8(cs@.subrange(i as int, j + 1)))) == (
                *node).node_at(nibbles(one)));
                assert(j < match_limit(n as int, i as int));
                assert(scan(cs@, dm, i as int, j as int, acc) == scan(
                    cs@,
                    dm,
                    i as int,
                    j + 1,
                    scan_step(cs@, dm, i as int, j as int, acc),
                ));
            }
            match found {
                None => {
                    proof {
                        assert(dict.node_at(nibbles(encode_utf8(cs@.subrange(i as int, j + 1))))
                            is None);
                        lemma_scan_stuck(cs@, dict, i as int, j as int, j as int, acc);
                    }
                    break;
                },
                Some(nn) => {
                    let v = nn.value();
                    proof {
                        let key = encode_utf8(cs@.subrange(i as int, j + 1));
                        nn.lemma_node_at_empty();
                        assert(dict.node_at(nibbles(key)) == Some(*nn));
                        dict.lemma_lookup_below(key, Seq::empty());
                        assert(key + Seq::<u8>::empty() =~= key);
                        assert(dm.contains_key(key) == (v is Some));
                        assert(dm.contains_key(key) ==> v == Some(dm[key]));
                        lemma_best_score(cs@, dm, j + 1);
                    }
                    match v {
                        Some(v) => {
                            let nf = f[j + 1] + v as i128;
                            if f[i] <= nf {
                                f.set(i, nf);
                                next.set(i, j + 1);
                            }
                        },
                        None => {},
                    }
                    node = nn;
                    j = j + 1;
                },
            }
        }
    }
    next
}

/// Splits `content` into terms by the best segmentation under `dict` and
/// gives the byte offsets at which the second and later terms start.
///
/// Runs of characters of one class form default terms of at most
/// `MAX_TERM_LENGTH` bytes, each character of class `Other` stands alone,
/// and a dictionary word of fewer than `MAX_TERM_LENGTH` characters may
/// replace them; the segmentation with the highest total weight wins.
pub fn tokenize(content: &str, dict: &Node<i64>) -> (r: Vec<usize>)
    requires
        content@.len() < usize::MAX,
    ensures
        r@ == split_points(content@, dict@),
{
    let ghost dm = dict@;
    let cs = chars_of(content);
    let n = cs.len();
    let offs = byte_offsets(content, &cs);
    let next = segment_ends(&cs, dict);
    let mut ret: Vec<usize> = Vec::new();
    proof {
        if n > 0 {
            lemma_best_bounds(cs@, dm, 0);
        }
    }
    let mut p = next[0];
    while p < n
        invariant
            n == cs@.len(),
            cs@ == content@,
            p <= n,
            next@.len() == n + 1,
            offs@.len() == n + 1,
            forall|m: int| 0 <= m <= n ==> #[trigger] offs@[m] == byte_offset(cs@, m),
            forall|m: int| 0 <= m < n ==> #[trigger] next@[m] == best(cs@, dm, m).1,
            ret@ + splits_from(cs@, dm, p as int) == split_points(cs@, dm),
        decreases n - p,
    {
        proof {
            lemma_best_bounds(cs@, dm, p as int);
        }
        ret.push(offs[p]);
        p = next[p];
    }
    ret
}

/// The terms of the best segmentation of `cs[p..]`, in order.
pub open spec fn terms_from(cs: Seq<char>, dict: Map<Seq<u8>, i64>, p: int) -> Seq<Seq<char>>
    decreases cs.len() - p,
{
    if p < 0 || p >= cs.len() {
        Seq::empty()
    } else {
        proof {
            lemma_best_bounds(cs, dict, p);
        }
        seq![cs.subrange(p, best(cs, dict, p).1)] + terms_from(cs, dict, best(cs, dict, p).1)
    }
}

/// The terms of the best segmentation of `content`, in order.
pub open spec fn terms(content: Seq<char>, dict: Map<Seq<u8>, i64>) -> Seq<Seq<char>> {
    terms_from(content, dict, 0)
}

/// The UTF-8 encoding of `cs[a..b]`.
pub fn encode_range(cs: &Vec<char>, a: usize, b: usize) -> (r: Vec<u8>)
    requires
        a <= b <= cs@.len(),
    ensures
        r@ == encode_utf8(cs@.subrange(a as int, b as int)),
{
    let mut r: Vec<u8> = Vec::new();
    let mut k = a;
    assert(cs@.subrange(a as int, a as int) =~= Seq::<char>::empty());
    while k < b
        invariant
            a <= k <= b <= cs@.len(),
            r@ == encode_utf8(cs@.subrange(a as int, k as int)),
        decreases b - k,
    {
        proof {
            lemma_utf8_len_step(cs@, a as int, k + 1);
        }
        let mut e = crate::trie::encode_char(cs[k]);
        r.append(&mut e);
        k = k + 1;
    }
    r
}

/// The dictionary that `entries` make: every word, by its UTF-8 bytes,
/// with the weight of its first entry.
pub open spec fn first_weights(entries: Seq<(Seq<char>, i64)>) -> Map<Seq<u8>, i64>
    decreases entries.len(),
{
    if entries.len() == 0 {
        Map::empty()
    } else {
        let rest = first_weights(entries.drop_last());
        let word = encode_utf8(entries.last().0);
        if rest.contains_key(word) {
            rest
        } else {
            rest.insert(word, entries.last().1)
        }
    }
}

/// The entries as plain values.
pub open spec fn entries_view(entries: Seq<(String, i64)>) -> Seq<(Seq<char>, i64)> {
    entries.map_values(|e: (String, i64)| (e.0@, e.1))
}

/// A dictionary of `(word, weight)` entries; where a word comes more than
/// once, its first entry counts.
pub fn build_dictionary(entries: &Vec<(String, i64)>) -> (r: Node<i64>)
    ensures
        r@ == first_weights(entries_view(entries@)),
        r.wf(),
{
    let ghost ev = entries_view(entries@);
    let mut dict: Node<i64> = Node::new();
    let mut k: usize = 0;
    assert(ev.take(0) =~= Seq::<(Seq<char>, i64)>::empty());
    while k < entries.len()
        invariant
            k <= entries@.len(),
            ev == entries_view(entries@),
            dict@ == first_weights(ev.take(k as int)),
            dict.wf(),
        decreases entries@.len() - k,
    {
        let word = entries[k].0.as_str().as_bytes();
        proof {
            assert(ev.take(k + 1).drop_last() =~= ev.take(k as int));
            assert(ev.take(k + 1).last() == ev[k as int]);
        }
        if dict.get(word).is_none() {
            dict.insert(word, entries[k].1);
        }
        k = k + 1;
    }
    assert(ev.take(k as int) =~= ev);
    dict
}

/// The split points of `content`: the byte offsets where the second and
/// later terms of its best segmentation start.
pub open spec fn split_points(content: Seq<char>, dict: Map<Seq<u8>, i64>) -> Seq<usize> {
    splits_from(content, dict, best(content, dict, 0).1)
}

proof fn lemma_byte_offset_strict(cs: Seq<char>, a: int, b: int)
    requires
        0 <= a < b <= cs.len(),
    ensures
        byte_offset(cs, a) < byte_offset(cs, b),
        byte_offset(cs, b) <= encode_utf8(cs).len(),
    decreases b - a,
{
    lemma_byte_offset_step(cs, b - 1);
    lemma_encode_one(cs[b - 1]);
    if a < b - 1 {
        lemma_byte_offset_strict(cs, a, b - 1);
    }
}

proof fn lemma_splits_from_ordered(cs: Seq<char>, dict: Map<Seq<u8>, i64>, p: int)
    requires
        0 <= p <= cs.len(),
        encode_utf8(cs).len() <= usize::MAX,
    ensures
        forall|a: int, b: int|
            0 <= a < b < splits_from(cs, dict, p).len() ==> #[trigger] splits_from(cs, dict, p)[a]
                < #[trigger] splits_from(cs, dict, p)[b],
        forall|k: int|
            0 <= k < splits_from(cs, dict, p).len() ==> exists|m: int|
                p <= m < cs.len() && #[trigger] splits_from(cs, dict, p)[k] == byte_offset(cs, m),
    decreases cs.len() - p,
{
    if p < cs.len() {
        lemma_best_bounds(cs, dict, p);
        let q = best(cs, dict, p).1;
        lemma_splits_from_ordered(cs, dict, q);
        let s = splits_from(cs, dict, p);
        let rest = splits_from(cs, dict, q);
        if p > 0 {
            lemma_byte_offset_strict(cs, 0, p);
        } else {
            assert(cs.take(0) =~= Seq::<char>::empty());
        }
        lemma_byte_offset_strict(cs, p, cs.len() as int);
        assert(s == seq![byte_offset(cs, p) as usize] + rest);
        assert forall|k: int| 0 <= k < s.len() implies exists|m: int|
            p <= m < cs.len() && #[trigger] s[k] == byte_offset(cs, m) by {
            if k > 0 {
                assert(s[k] == rest[k - 1]);
            }
        }
        assert forall|a: int, b: int| 0 <= a < b < s.len() implies #[trigger] s[a] < #[trigger] s[b] by {
            if a == 0 {
                assert(s[b] == rest[b - 1]);
                let m = choose|m: int| q <= m < cs.len() && rest[b - 1] == byte_offset(cs, m);
                lemma_byte_offset_strict(cs, p, m);
            } else {
                assert(s[a] == rest[a - 1]);
                assert(s[b] == rest[b - 1]);
            }
        }
    }
}

/// The split points increase strictly, and each lies strictly inside the
/// UTF-8 encoding of the content, at the start of one of its characters.
pub proof fn law_split_points_ordered(content: Seq<char>, dict: Map<Seq<u8>, i64>)
    requires
        encode_utf8(content).len() <= usize::MAX,
    ensures
        forall|a: int, b: int|
            0 <= a < b < split_points(content, dict).len() ==> #[trigger] split_points(
                content,
                dict,
            )[a] < #[trigger] split_points(content, dict)[b],
        forall|k: int|
            0 <= k < split_points(content, dict).len() ==> exists|m: int|
                0 < m < content.len() && #[trigger] split_points(content, dict)[k] == byte_offset(
                    content,
                    m,
                ),
        forall|k: int|
            0 <= k < split_points(content, dict).len() ==> 0 < #[trigger] split_points(
                content,
                dict,
            )[k] < encode_utf8(content).len(),
{
    let n = content.len();
    if n == 0 {
        assert(split_points(content, dict) =~= Seq::<usize>::empty());
    } else {
        lemma_best_bounds(content, dict, 0);
        let q = best(content, dict, 0).1;
        lemma_splits_from_ordered(content, dict, q);
        assert(content.take(0) =~= Seq::<char>::empty());
        assert(content.take(n as int) =~= content);
        assert forall|k: int| 0 <= k < split_points(content, dict).len() implies 0
            < #[trigger] split_points(content, dict)[k] < encode_utf8(content).len() by {
            let m = choose|m: int|
                q <= m < n && split_points(content, dict)[k] == byte_offset(content, m);
            lemma_byte_offset_strict(content, 0, m);
            lemma_byte_offset_strict(content, m, n as int);
        }
    }
}

/// The term `cs[i..e]` may be a dictionary word: it has fewer than
/// `MAX_TERM_LENGTH` characters and the dictionary holds it.
pub open spec fn word_ok(cs: Seq<char>, dict: Map<Seq<u8>, i64>, i: int, e: int) -> bool {
    &&& i < e <= match_limit(cs.len() as int, i)
    &&& dict.contains_key(encode_utf8(cs.subrange(i, e)))
}

/// A term from `i` to `e` is allowed: a dictionary word when `word`, else
/// the default term at `i`.
pub open spec fn step_ok(cs: Seq<char>, dict: Map<Seq<u8>, i64>, i: int, e: int, word: bool) -> bool {
    if word {
        word_ok(cs, dict, i, e)
    } else {
        e == chunk_end(cs, i) + 1
    }
}

/// `seg` segments `cs[i..]`: every step `(e, word)` is an allowed term
/// that ends at `e`, and the last one ends at the end of `cs`.
pub open spec fn is_segmentation(
    cs: Seq<char>,
    dict: Map<Seq<u8>, i64>,
    i: int,
    seg: Seq<(int, bool)>,
) -> bool
    decreases seg.len(),
{
    if seg.len() == 0 {
        i == cs.len()
    } else {
        &&& 0 <= i < cs.len()
        &&& step_ok(cs, dict, i, seg[0].0, seg[0].1)
        &&& is_segmentation(cs, dict, seg[0].0, seg.drop_first())
    }
}

/// The weight of a segmentation: the sum of the weights of its dictionary
/// words.
pub open spec fn seg_score(cs: Seq<char>, dict: Map<Seq<u8>, i64>, i: int, seg: Seq<(int, bool)>) -> int
    decreases seg.len(),
{
    if seg.len() == 0 {
        0
    } else {
        (if seg[0].1 {
            dict[encode_utf8(cs.subrange(i, seg[0].0))] as int
        } else {
            0
        }) + seg_score(cs, dict, seg[0].0, seg.drop_first())
    }
}

/// The terms of a segmentation of `cs[i..]`.
pub open spec fn seg_terms(cs: Seq<char>, i: int, seg: Seq<(int, bool)>) -> Seq<Seq<char>>
    decreases seg.len(),
{
    if seg.len() == 0 {
        Seq::empty()
    } else {
        seq![cs.subrange(i, seg[0].0)] + seg_terms(cs, seg[0].0, seg.drop_first())
    }
}

/// The segmentation of `cs[i..]` that the best choices make.
pub open spec fn chosen_segmentation(cs: Seq<char>, dict: Map<Seq<u8>, i64>, i: int) -> Seq<
    (int, bool),
>
    decreases cs.len() - i,
{
    if i < 0 || i >= cs.len() {
        Seq::empty()
    } else {
        proof {
            lemma_best_bounds(cs, dict, i);
        }
        let e = best(cs, dict, i).1;
        let d = chunk_end(cs, i) + 1;
        let word = !(e == d && best(cs, dict, i).0 == best(cs, dict, d).0);
        seq![(e, word)] + chosen_segmentation(cs, dict, e)
    }
}

proof fn lemma_scan_upper(cs: Seq<char>, dict: Map<Seq<u8>, i64>, i: int, j: int, acc: (int, int))
    requires
        0 <= i <= j,
    ensures
        scan(cs, dict, i, j, acc).0 >= acc.0,
        forall|e: int|
            j < e && #[trigger] word_ok(cs, dict, i, e) ==> scan(cs, dict, i, j, acc).0 >= best(
                cs,
                dict,
                e,
            ).0 + dict[encode_utf8(cs.subrange(i, e))],
    decreases cs.len() - j,
{
    if j < match_limit(cs.len() as int, i) {
        lemma_scan_upper(cs, dict, i, j + 1, scan_step(cs, dict, i, j, acc));
    }
}

proof fn lemma_scan_choice(cs: Seq<char>, dict: Map<Seq<u8>, i64>, i: int, j: int, acc: (int, int))
    requires
        0 <= i <= j,
    ensures
        scan(cs, dict, i, j, acc) == acc || exists|e: int|
            j < e && #[trigger] word_ok(cs, dict, i, e) && scan(cs, dict, i, j, acc) == (
                best(cs, dict, e).0 + dict[encode_utf8(cs.subrange(i, e))],
                e,
            ),
    decreases cs.len() - j,
{
    if j < match_limit(cs.len() as int, i) {
        let st = scan_step(cs, dict, i, j, acc);
        lemma_scan_choice(cs, dict, i, j + 1, st);
        if scan(cs, dict, i, j + 1, st) == st && st != acc {
            assert(word_ok(cs, dict, i, j + 1));
        }
    }
}

/// No segmentation of `cs[i..]` weighs more than the best one.
pub proof fn law_segmentation_bound(
    cs: Seq<char>,
    dict: Map<Seq<u8>, i64>,
    i: int,
    seg: Seq<(int, bool)>,
)
    requires
        is_segmentation(cs, dict, i, seg),
    ensures
        seg_score(cs, dict, i, seg) <= best(cs, dict, i).0,
    decreases seg.len(),
{
    if seg.len() > 0 {
        let e = seg[0].0;
        law_segmentation_bound(cs, dict, e, seg.drop_first());
        lemma_chunk_end_bounds(cs, i);
        let d = chunk_end(cs, i) + 1;
        lemma_scan_upper(cs, dict, i, i, (best(cs, dict, d).0, d));
        if seg[0].1 {
            assert(word_ok(cs, dict, i, e));
        }
    }
}

/// The best choices make a segmentation of `cs[i..]` whose weight is the
/// best weight, and whose terms are those of `terms_from`.
pub proof fn law_best_attained(cs: Seq<char>, dict: Map<Seq<u8>, i64>, i: int)
    requires
        0 <= i <= cs.len(),
    ensures
        is_segmentation(cs, dict, i, chosen_segmentation(cs, dict, i)),
        seg_score(cs, dict, i, chosen_segmentation(cs, dict, i)) == best(cs, dict, i).0,
        seg_terms(cs, i, chosen_segmentation(cs, dict, i)) == terms_from(cs, dict, i),
    decreases cs.len() - i,
{
    if i < cs.len() {
        lemma_best_bounds(cs, dict, i);
        lemma_chunk_end_bounds(cs, i);
        let e = best(cs, dict, i).1;
        let d = chunk_end(cs, i) + 1;
        law_best_attained(cs, dict, e);
        let seg = chosen_segmentation(cs, dict, i);
        assert(seg[0] == (e, !(e == d && best(cs, dict, i).0 == best(cs, dict, d).0)));
        assert(seg.drop_first() =~= chosen_segmentation(cs, dict, e));
        lemma_scan_choice(cs, dict, i, i, (best(cs, dict, d).0, d));
    } else {
        assert(chosen_segmentation(cs, dict, i) =~= Seq::<(int, bool)>::empty());
    }
}

/// The terms that `tokenize` cuts `content` into are those of a
/// segmentation of the highest weight: every allowed term is either the
/// default term (a run of one character class, at most `MAX_TERM_LENGTH`
/// bytes) or a dictionary word, and no segmentation into allowed terms
/// weighs more.
pub proof fn law_tokenize_optimal(content: Seq<char>, dict: Map<Seq<u8>, i64>, seg: Seq<(int, bool)>)
    requires
        is_segmentation(content, dict, 0, seg),
    ensures
        is_segmentation(content, dict, 0, chosen_segmentation(content, dict, 0)),
        seg_terms(content, 0, chosen_segmentation(content, dict, 0)) == terms(content, dict),
        seg_score(content, dict, 0, seg) <= seg_score(
            content,
            dict,
            0,
            chosen_segmentation(content, dict, 0),
        ),
{
    law_segmentation_bound(content, dict, 0, seg);
    law_best_attained(content, dict, 0);
}

proof fn lemma_terms_from_concat(cs: Seq<char>, dict: Map<Seq<u8>, i64>, p: int)
    requires
        0 <= p <= cs.len(),
    ensures
        terms_from(cs, dict, p).flatten() == cs.subrange(p, cs.len() as int),
        forall|k: int| 0 <= k < terms_from(cs, dict, p).len() ==> #[trigger] terms_from(cs, dict, p)[k].len() > 0,
    decreases cs.len() - p,
{
    if p < cs.len() {
        lemma_best_bounds(cs, dict, p);
        let q = best(cs, dict, p).1;
        lemma_terms_from_concat(cs, dict, q);
        let ts = terms_from(cs, dict, p);
        assert(ts == seq![cs.subrange(p, q)] + terms_from(cs, dict, q));
        assert(ts.drop_first() =~= terms_from(cs, dict, q));
        assert(ts[0] == cs.subrange(p, q));
        assert(ts.flatten() == ts[0] + ts.drop_first().flatten());
        assert(cs.subrange(p, q) + cs.subrange(q, cs.len() as int) =~= cs.subrange(p, cs.len() as int));
        assert forall|k: int| 0 <= k < ts.len() implies #[trigger] ts[k].len() > 0 by {
            if k > 0 {
                assert(ts[k] == terms_from(cs, dict, q)[k - 1]);
            }
        }
    } else {
        assert(terms_from(cs, dict, p).flatten() =~= Seq::<char>::empty());
        assert(cs.subrange(p, cs.len() as int) =~= Seq::<char>::empty());
    }
}

/// The terms are not empty and, put back together, give the content.
pub proof fn law_terms_concatenate(content: Seq<char>, dict: Map<Seq<u8>, i64>)
    ensures
        terms(content, dict).flatten() == content,
        forall|k: int| 0 <= k < terms(content, dict).len() ==> #[trigger] terms(content, dict)[k].len() > 0,
{
    lemma_terms_from_concat(content, dict, 0);
    assert(content.subrange(0, content.len() as int) =~= content);
}

proof fn lemma_splits_from_terms(cs: Seq<char>, dict: Map<Seq<u8>, i64>, p: int)
    requires
        0 <= p <= cs.len(),
        encode_utf8(cs).len() <= usize::MAX,
    ensures
        splits_from(cs, dict, p).len() == terms_from(cs, dict, p).len(),
        forall|k: int|
            0 <= k < splits_from(cs, dict, p).len() ==> #[trigger] splits_from(cs, dict, p)[k]
                == byte_offset(cs, p) + encode_utf8(terms_from(cs, dict, p).take(k).flatten()).len(),
    decreases cs.len() - p,
{
    if p < cs.len() {
        lemma_best_bounds(cs, dict, p);
        let q = best(cs, dict, p).1;
        lemma_splits_from_terms(cs, dict, q);
        let s = splits_from(cs, dict, p);
        let ts = terms_from(cs, dict, p);
        let rest = terms_from(cs, dict, q);
        assert(ts == seq![cs.subrange(p, q)] + rest);
        lemma_byte_offset_strict(cs, p, cs.len() as int);
        lemma_byte_offset_monotone(cs, p, q);
        assert forall|k: int| 0 <= k < s.len() implies #[trigger] s[k] == byte_offset(cs, p)
            + encode_utf8(ts.take(k).flatten()).len() by {
            if k == 0 {
                assert(ts.take(0) =~= Seq::<Seq<char>>::empty());
                assert(ts.take(0).flatten() =~= Seq::<char>::empty());
            } else {
                assert(s[k] == splits_from(cs, dict, q)[k - 1]);
                let t = ts.take(k);
                assert(t.first() == cs.subrange(p, q));
                assert(t.drop_first() =~= rest.take(k - 1));
                assert(t.flatten() == cs.subrange(p, q) + rest.take(k - 1).flatten());
                lemma_encode_append(cs.subrange(p, q), rest.take(k - 1).flatten());
            }
        }
    }
}

/// There is one split point fewer than there are terms (for content that
/// is not empty), and each split point is the number of bytes of the terms
/// before it: the split points are where the second and later terms start.
pub proof fn law_split_points_between_terms(content: Seq<char>, dict: Map<Seq<u8>, i64>)
    requires
        encode_utf8(content).len() <= usize::MAX,
    ensures
        content.len() > 0 ==> split_points(content, dict).len() + 1 == terms(content, dict).len(),
        forall|k: int|
            0 <= k < split_points(content, dict).len() ==> #[trigger] split_points(content, dict)[k]
                == encode_utf8(terms(content, dict).take(k + 1).flatten()).len(),
{
    let n = content.len();
    if n == 0 {
        assert(split_points(content, dict) =~= Seq::<usize>::empty());
    } else {
        lemma_best_bounds(content, dict, 0);
        let q = best(content, dict, 0).1;
        lemma_splits_from_terms(content, dict, q);
        let ts = terms(content, dict);
        let rest = terms_from(content, dict, q);
        assert(ts == seq![content.subrange(0, q)] + rest);
        assert(content.take(q) =~= content.subrange(0, q));
        assert forall|k: int| 0 <= k < split_points(content, dict).len() implies #[trigger] split_points(
            content,
            dict,
        )[k] == encode_utf8(ts.take(k + 1).flatten()).len() by {
            let t = ts.take(k + 1);
            assert(t.first() == content.subrange(0, q));
            assert(t.drop_first() =~= rest.take(k));
            assert(t.flatten() == content.subrange(0, q) + rest.take(k).flatten());
            lemma_encode_append(content.subrange(0, q), rest.take(k).flatten());
        }
    }
}


/// The classes of the ASCII characters, by code point: the letters are
/// exactly `0x41..=0x5A` and `0x61..=0x7A`, the digits `0x30..=0x39`, the
/// punctuation the other printable characters of `0x21..=0x7E`, the white
/// space `0x09..=0x0D` and `0x20`, and the rest (the other controls and
/// `0x7F`) is other ASCII. A character outside ASCII is never of an ASCII
/// class.
pub proof fn law_ascii_classes(c: char)
    ensures
        (c as u32) < 0x80 ==> (char_type(c) == CharType::AsciiAlphabetic <==> (0x41 <= (c as u32)
            <= 0x5A || 0x61 <= (c as u32) <= 0x7A)),
        (c as u32) < 0x80 ==> (char_type(c) == CharType::AsciiDigit <==> 0x30 <= (c as u32)
            <= 0x39),
        (c as u32) < 0x80 ==> (char_type(c) == CharType::AsciiPunctuation <==> (0x21 <= (c as u32)
            <= 0x2F || 0x3A <= (c as u32) <= 0x40 || 0x5B <= (c as u32) <= 0x60 || 0x7B <= (
        c as u32) <= 0x7E)),
        (c as u32) < 0x80 ==> (char_type(c) == CharType::WhiteSpace <==> (0x09 <= (c as u32)
            <= 0x0D || (c as u32) == 0x20)),
        (c as u32) < 0x80 ==> (char_type(c) == CharType::AsciiOther <==> ((c as u32) < 0x09 || (
        0x0E <= (c as u32) <= 0x1F) || (c as u32) == 0x7F)),
        (c as u32) >= 0x80 ==> char_type(c) != CharType::AsciiAlphabetic && char_type(c)
            != CharType::AsciiDigit && char_type(c) != CharType::AsciiPunctuation && char_type(c)
            != CharType::AsciiOther,
{
}

/// The classes of the characters outside ASCII: the Unicode white space
/// characters U+0085, U+00A0, U+1680, U+2000..=U+200A, U+2028, U+2029,
/// U+202F, U+205F and U+3000 are white space, the full-width marks
/// `，。《》？！￥（）【】；：‘’“”、` are Chinese punctuation, and every other
/// character is of class `Other`.
pub proof fn law_non_ascii_classes(c: char)
    requires
        (c as u32) >= 0x80,
    ensures
        char_type(c) == CharType::WhiteSpace <==> ((c as u32) == 0x85 || (c as u32) == 0xA0 || (
        c as u32) == 0x1680 || (0x2000 <= (c as u32) <= 0x200A) || (c as u32) == 0x2028 || (
        c as u32) == 0x2029 || (c as u32) == 0x202F || (c as u32) == 0x205F || (c as u32)
            == 0x3000),
        char_type(c) == CharType::ChinesePunctuation <==> "，。《》？！￥（）【】；：‘’“”、"@.contains(c),
        char_type(c) == CharType::Other <==> !is_whitespace_spec(c)
            && !"，。《》？！￥（）【】；：‘’“”、"@.contains(c),
{
    reveal_strlit("，。《》？！￥（）【】；：‘’“”、");
    let p = "，。《》？！￥（）【】；：‘’“”、"@;
    assert(p.len() == 18);
    if p.contains(c) {
        let k = choose|k: int| 0 <= k < p.len() && p[k] == c;
        assert(is_chinese_punctuation_spec(c));
    }
    if is_chinese_punctuation_spec(c) {
        let u = c as u32;
        if u == 0xFF0C {
            assert(p[0] == c);
        } else if u == 0x3002 {
            assert(p[1] == c);
        } else if u == 0x300A {
            assert(p[2] == c);
        } else if u == 0x300B {
            assert(p[3] == c);
        } else if u == 0xFF1F {
            assert(p[4] == c);
        } else if u == 0xFF01 {
            assert(p[5] == c);
        } else if u == 0xFFE5 {
            assert(p[6] == c);
        } else if u == 0xFF08 {
            assert(p[7] == c);
        } else if u == 0xFF09 {
            assert(p[8] == c);
        } else if u == 0x3010 {
            assert(p[9] == c);
        } else if u == 0x3011 {
            assert(p[10] == c);
        } else if u == 0xFF1B {
            assert(p[11] == c);
        } else if u == 0xFF1A {
            assert(p[12] == c);
        } else if u == 0x2018 {
            assert(p[13] == c);
        } else if u == 0x2019 {
            assert(p[14] == c);
        } else if u == 0x201C {
            assert(p[15] == c);
        } else if u == 0x201D {
            assert(p[16] == c);
        } else {
            assert(p[17] == c);
        }
    }
}

proof fn lemma_fit_end_props(cs: Seq<char>, i: int, k: int)
    requires
        0 <= i <= k < cs.len(),
    ensures
        i <= fit_end(cs, i, k) <= k,
        utf8_len(cs, i, fit_end(cs, i, k) + 1) <= MAX_TERM_LENGTH,
        fit_end(cs, i, k) < k ==> utf8_len(cs, i, fit_end(cs, i, k) + 2) > MAX_TERM_LENGTH,
    decreases k - i,
{
    if k == i {
        lemma_utf8_len_step(cs, i, i + 1);
        lemma_encode_one(cs[i]);
        assert(cs.subrange(i, i) =~= Seq::<char>::empty());
    } else if utf8_len(cs, i, k + 1) > MAX_TERM_LENGTH {
        lemma_fit_end_props(cs, i, k - 1);
    }
}

/// The default term at `i` is the longest stretch that starts at `i`,
/// stays within the run of characters of the class of `cs[i]` (a class
/// other than `Other`; an `Other` character stands alone), and takes at
/// most 50 bytes (`MAX_TERM_LENGTH`): it ends where the run ends, or where one
/// more character would go over the byte limit.
pub proof fn law_default_term(cs: Seq<char>, i: int)
    requires
        0 <= i < cs.len(),
    ensures
        i <= chunk_end(cs, i) < cs.len(),
        forall|m: int|
            i < m <= chunk_end(cs, i) ==> char_type(#[trigger] cs[m]) == char_type(cs[i])
                && char_type(cs[i]) != CharType::Other,
        encode_utf8(cs.subrange(i, chunk_end(cs, i) + 1)).len() <= 50,
        chunk_end(cs, i) + 1 < cs.len() && char_type(cs[chunk_end(cs, i) + 1]) == char_type(cs[i])
            && char_type(cs[i]) != CharType::Other ==> encode_utf8(
            cs.subrange(i, chunk_end(cs, i) + 2),
        ).len() > 50,
    decreases cs.len() - i,
{
    let e = chunk_end(cs, i);
    if ends_run(cs, i) {
        lemma_fit_end_props(cs, i, i);
    } else {
        law_default_term(cs, i + 1);
        let k = chunk_end(cs, i + 1);
        lemma_fit_end_props(cs, i, k);
        assert(e == fit_end(cs, i, k));
        if e == k && k + 1 < cs.len() && char_type(cs[k + 1]) == char_type(cs[i]) && char_type(cs[i])
            != CharType::Other {
            lemma_utf8_len_step(cs, i, k + 2);
        }
    }
}

/// A dictionary word of fewer than 50 characters (`MAX_TERM_LENGTH`) is an
/// allowed term, and no other word is: wherever such a word starts, the
/// best weight is at least the word's weight plus the best weight after it.
pub proof fn law_dictionary_words_considered(
    cs: Seq<char>,
    dict: Map<Seq<u8>, i64>,
    i: int,
    e: int,
)
    requires
        0 <= i < e <= cs.len(),
    ensures
        word_ok(cs, dict, i, e) <==> (e - i < 50 && dict.contains_key(
            encode_utf8(cs.subrange(i, e)),
        )),
        e - i < 50 && dict.contains_key(encode_utf8(cs.subrange(i, e))) ==> best(
            cs,
            dict,
            i,
        ).0 >= dict[encode_utf8(cs.subrange(i, e))] + best(cs, dict, e).0,
{
    if e - i < MAX_TERM_LENGTH && dict.contains_key(encode_utf8(cs.subrange(i, e))) {
        law_best_attained(cs, dict, e);
        let rest = chosen_segmentation(cs, dict, e);
        let seg = seq![(e, true)] + rest;
        assert(seg[0] == (e, true));
        assert(seg.drop_first() =~= rest);
        assert(word_ok(cs, dict, i, e));
        assert(is_segmentation(cs, dict, i, seg));
        assert(seg_score(cs, dict, i, seg) == dict[encode_utf8(cs.subrange(i, e))] + best(
            cs,
            dict,
            e,
        ).0);
        law_segmentation_bound(cs, dict, i, seg);
    }
}

/// The weight of taking the word `cs[i..e]` and then the best after it.
pub open spec fn word_score(cs: Seq<char>, dict: Map<Seq<u8>, i64>, i: int, e: int) -> int {
    best(cs, dict, e).0 + dict[encode_utf8(cs.subrange(i, e))]
}

proof fn lemma_scan_ties(cs: Seq<char>, dict: Map<Seq<u8>, i64>, i: int, j: int, acc: (int, int))
    requires
        0 <= i <= j,
    ensures
        (exists|e: int|
            j < e && #[trigger] word_ok(cs, dict, i, e) && word_score(cs, dict, i, e) == scan(
                cs,
                dict,
                i,
                j,
                acc,
            ).0) ==> {
            let r = scan(cs, dict, i, j, acc);
            &&& j < r.1
            &&& word_ok(cs, dict, i, r.1)
            &&& word_score(cs, dict, i, r.1) == r.0
            &&& forall|e: int|
                j < e && #[trigger] word_ok(cs, dict, i, e) && word_score(cs, dict, i, e) == r.0
                    ==> e <= r.1
        },
    decreases cs.len() - j,
{
    let r = scan(cs, dict, i, j, acc);
    if j < match_limit(cs.len() as int, i) {
        let st = scan_step(cs, dict, i, j, acc);
        assert(r == scan(cs, dict, i, j + 1, st));
        lemma_scan_ties(cs, dict, i, j + 1, st);
        lemma_scan_upper(cs, dict, i, j + 1, st);
        lemma_scan_choice(cs, dict, i, j + 1, st);
        if exists|e: int|
            j < e && #[trigger] word_ok(cs, dict, i, e) && word_score(cs, dict, i, e) == r.0 {
            if !(exists|e: int|
                j + 1 < e && #[trigger] word_ok(cs, dict, i, e) && word_score(cs, dict, i, e)
                    == r.0) {
                let e0 = choose|e: int|
                    j < e && #[trigger] word_ok(cs, dict, i, e) && word_score(cs, dict, i, e)
                        == r.0;
                assert(e0 == j + 1);
                if r != st {
                    let e1 = choose|e: int|
                        j + 1 < e && #[trigger] word_ok(cs, dict, i, e) && r == (
                            best(cs, dict, e).0 + dict[encode_utf8(cs.subrange(i, e))],
                            e,
                        );
                    assert(word_score(cs, dict, i, e1) == r.0);
                }
                assert(r == st);
                assert(st == (word_score(cs, dict, i, j + 1), j + 1));
            }
        }
    }
}

/// How the first term is chosen: the best weight is at least that of the
/// default term and of every allowed dictionary word; when a dictionary
/// word reaches it, the first term is the longest such word (a word wins
/// a tie with the default term, a longer word a tie with a shorter one);
/// otherwise the first term is the default term.
pub proof fn law_first_term_choice(cs: Seq<char>, dict: Map<Seq<u8>, i64>, i: int)
    requires
        0 <= i < cs.len(),
    ensures
        best(cs, dict, i).0 >= best(cs, dict, chunk_end(cs, i) + 1).0,
        forall|e: int|
            #[trigger] word_ok(cs, dict, i, e) ==> best(cs, dict, i).0 >= word_score(cs, dict, i, e),
        (exists|e: int|
            #[trigger] word_ok(cs, dict, i, e) && word_score(cs, dict, i, e) == best(cs, dict, i).0)
            ==> word_ok(cs, dict, i, best(cs, dict, i).1) && word_score(
            cs,
            dict,
            i,
            best(cs, dict, i).1,
        ) == best(cs, dict, i).0 && forall|e: int|
            #[trigger] word_ok(cs, dict, i, e) && word_score(cs, dict, i, e) == best(cs, dict, i).0
                ==> e <= best(cs, dict, i).1,
        !(exists|e: int|
            #[trigger] word_ok(cs, dict, i, e) && word_score(cs, dict, i, e) == best(cs, dict, i).0)
            ==> best(cs, dict, i) == (best(cs, dict, chunk_end(cs, i) + 1).0, chunk_end(cs, i) + 1),
{
    lemma_chunk_end_bounds(cs, i);
    let d = chunk_end(cs, i) + 1;
    let acc = (best(cs, dict, d).0, d);
    assert(best(cs, dict, i) == scan(cs, dict, i, i, acc));
    lemma_scan_upper(cs, dict, i, i, acc);
    lemma_scan_ties(cs, dict, i, i, acc);
    lemma_scan_choice(cs, dict, i, i, acc);
    assert forall|e: int| #[trigger] word_ok(cs, dict, i, e) implies i < e by {}
}

proof fn lemma_encode_injective(a: Seq<char>, b: Seq<char>)
    requires
        encode_utf8(a) == encode_utf8(b),
    ensures
        a == b,
{
    encode_utf8_decode_utf8(a);
    encode_utf8_decode_utf8(b);
}

proof fn lemma_fw_has(entries: Seq<(Seq<char>, i64)>, k: int)
    requires
        0 <= k < entries.len(),
    ensures
        first_weights(entries).contains_key(encode_utf8(entries[k].0)),
    decreases entries.len(),
{
    let init = entries.drop_last();
    assert(entries.last() == entries[entries.len() - 1]);
    if k < entries.len() - 1 {
        assert(init[k] == entries[k]);
        lemma_fw_has(init, k);
    }
}

proof fn lemma_fw_from(entries: Seq<(Seq<char>, i64)>, key: Seq<u8>)
    requires
        first_weights(entries).contains_key(key),
    ensures
        exists|k: int| 0 <= k < entries.len() && key == encode_utf8(#[trigger] entries[k].0),
    decreases entries.len(),
{
    let init = entries.drop_last();
    let last = entries.len() - 1;
    assert(entries.last() == entries[last]);
    if first_weights(init).contains_key(key) {
        lemma_fw_from(init, key);
        let k = choose|k: int| 0 <= k < init.len() && key == encode_utf8(#[trigger] init[k].0);
        assert(init[k] == entries[k]);
    } else {
        assert(key == encode_utf8(entries[last].0));
    }
}

proof fn lemma_fw_first(entries: Seq<(Seq<char>, i64)>, j: int)
    requires
        0 <= j < entries.len(),
        forall|j2: int| 0 <= j2 < j ==> entries[j2].0 != entries[j].0,
    ensures
        first_weights(entries)[encode_utf8(entries[j].0)] == entries[j].1,
    decreases entries.len(),
{
    let init = entries.drop_last();
    let last = entries.len() - 1;
    let rest = first_weights(init);
    let word = encode_utf8(entries[last].0);
    assert(entries.last() == entries[last]);
    if j < last {
        assert(init[j] == entries[j]);
        assert forall|j2: int| 0 <= j2 < j implies init[j2].0 != init[j].0 by {
            assert(init[j2] == entries[j2]);
        }
        lemma_fw_first(init, j);
        lemma_fw_has(init, j);
    } else if rest.contains_key(word) {
        lemma_fw_from(init, word);
        let k = choose|k: int| 0 <= k < init.len() && word == encode_utf8(#[trigger] init[k].0);
        lemma_encode_injective(init[k].0, entries[last].0);
        assert(entries[k] == init[k]);
        assert(entries[k].0 == entries[j].0);
    }
}

/// Every word of the entries is in the dictionary they make, with the
/// weight of the first entry of that word, and the dictionary holds no
/// other word.
pub proof fn law_dictionary_entries(entries: Seq<(Seq<char>, i64)>)
    ensures
        forall|k: int|
            0 <= k < entries.len() ==> first_weights(entries).contains_key(
                encode_utf8(#[trigger] entries[k].0),
            ),
        forall|j: int|
            0 <= j < entries.len() && (forall|j2: int| 0 <= j2 < j ==> entries[j2].0 != entries[j].0)
                ==> first_weights(entries)[encode_utf8(#[trigger] entries[j].0)] == entries[j].1,
        forall|key: Seq<u8>| #[trigger]
            first_weights(entries).contains_key(key) ==> exists|k: int|
                0 <= k < entries.len() && key == encode_utf8(#[trigger] entries[k].0),
{
    assert forall|k: int| 0 <= k < entries.len() implies first_weights(entries).contains_key(
        encode_utf8(#[trigger] entries[k].0),
    ) by {
        lemma_fw_has(entries, k);
    }
    assert forall|j: int|
        0 <= j < entries.len() && (forall|j2: int| 0 <= j2 < j ==> entries[j2].0 != entries[j].0)
            implies first_weights(entries)[encode_utf8(#[trigger] entries[j].0)] == entries[j].1 by {
        lemma_fw_first(entries, j);
    }
    assert forall|key: Seq<u8>| #[trigger] first_weights(entries).contains_key(key) implies exists|
        k: int,
    | 0 <= k < entries.len() && key == encode_utf8(#[trigger] entries[k].0) by {
        lemma_fw_from(entries, key);
    }
}

} // verus!
