//! Text similarity: the longest common subsequence of two normalised strings.
use vstd::prelude::*;

use crate::models::{
    fraction_valid, fraction_view, fractions_valid, lemma_fraction_view_insert, AgentResponse, Fraction,
    KeyedTable,
};

verus! {

/// Length of the longest common subsequence of `a` and `b`, by the classic
/// recurrence on the last characters.
pub open spec fn lcs_len(a: Seq<char>, b: Seq<char>) -> nat
    decreases a.len() + b.len(),
{
    if a.len() == 0 || b.len() == 0 {
        0
    } else if a.last() == b.last() {
        lcs_len(a.drop_last(), b.drop_last()) + 1
    } else {
        let x = lcs_len(a.drop_last(), b);
        let y = lcs_len(a, b.drop_last());
        if x >= y { x } else { y }
    }
}

/// `idx` picks the characters of `s` out of `a`, in order.
pub open spec fn embeds(s: Seq<char>, a: Seq<char>, idx: Seq<int>) -> bool {
    &&& idx.len() == s.len()
    &&& forall|k: int| 0 <= k < idx.len() ==> 0 <= #[trigger] idx[k] < a.len()
    &&& forall|k: int| 0 <= k < idx.len() ==> a[#[trigger] idx[k]] == s[k]
    &&& forall|k: int, l: int| 0 <= k < l < idx.len() ==> #[trigger] idx[k] < #[trigger] idx[l]
}

/// `s` is a subsequence of `a`.
pub open spec fn is_subsequence(s: Seq<char>, a: Seq<char>) -> bool {
    exists|idx: Seq<int>| embeds(s, a, idx)
}

/// `s` is a subsequence of both `a` and `b`.
pub open spec fn is_common_subsequence(s: Seq<char>, a: Seq<char>, b: Seq<char>) -> bool {
    is_subsequence(s, a) && is_subsequence(s, b)
}

proof fn lemma_embeds_drop_last(s: Seq<char>, a: Seq<char>, idx: Seq<int>)
    requires
        embeds(s, a, idx),
        s.len() > 0,
        idx.last() < a.len() - 1,
    ensures
        embeds(s, a.drop_last(), idx),
{
    assert forall|k: int| 0 <= k < idx.len() implies 0 <= #[trigger] idx[k] < a.len() - 1 by {
        if k < idx.len() - 1 {
            assert(idx[k] < idx[idx.len() - 1]);
        }
    }
}

proof fn lemma_embeds_prefix(s: Seq<char>, a: Seq<char>, idx: Seq<int>, bound: int)
    requires
        embeds(s, a, idx),
        s.len() > 0,
        idx.last() < bound <= a.len(),
    ensures
        embeds(s.drop_last(), a.take(bound - 1), idx.drop_last()),
{
    let t = idx.drop_last();
    assert forall|k: int| 0 <= k < t.len() implies 0 <= #[trigger] t[k] < bound - 1 by {
        assert(idx[k] < idx[idx.len() - 1]);
    }
}

/// Every common subsequence is at most `lcs_len` long.
pub proof fn lemma_lcs_upper_bound(s: Seq<char>, a: Seq<char>, b: Seq<char>)
    requires
        is_common_subsequence(s, a, b),
    ensures
        s.len() <= lcs_len(a, b),
    decreases a.len() + b.len(),
{
    if s.len() == 0 {
        return;
    }
    let ia = choose|idx: Seq<int>| embeds(s, a, idx);
    let ib = choose|idx: Seq<int>| embeds(s, b, idx);
    let p = ia.last();
    let q = ib.last();
    assert(0 <= p < a.len());
    assert(0 <= q < b.len());
    let last_a = p == a.len() - 1;
    let last_b = q == b.len() - 1;
    if last_a && last_b {
        lemma_embeds_prefix(s, a, ia, a.len() as int);
        lemma_embeds_prefix(s, b, ib, b.len() as int);
        assert(a.take(a.len() - 1) =~= a.drop_last());
        assert(b.take(b.len() - 1) =~= b.drop_last());
        lemma_lcs_upper_bound(s.drop_last(), a.drop_last(), b.drop_last());
        assert(a.last() == s.last());
        assert(b.last() == s.last());
    } else if a.last() != b.last() {
        if !last_a {
            lemma_embeds_drop_last(s, a, ia);
            lemma_lcs_upper_bound(s, a.drop_last(), b);
        } else {
            lemma_embeds_drop_last(s, b, ib);
            lemma_lcs_upper_bound(s, a, b.drop_last());
        }
    } else if !last_a && !last_b {
        lemma_embeds_drop_last(s, a, ia);
        lemma_embeds_drop_last(s, b, ib);
        lemma_lcs_upper_bound(s, a.drop_last(), b.drop_last());
    } else {
        // One of the two ends sits on the last character, the other does not;
        // the rest of `s` still fits into both shortened strings.
        lemma_embeds_prefix(s, a, ia, a.len() as int);
        lemma_embeds_prefix(s, b, ib, b.len() as int);
        assert(a.take(a.len() - 1) =~= a.drop_last());
        assert(b.take(b.len() - 1) =~= b.drop_last());
        lemma_lcs_upper_bound(s.drop_last(), a.drop_last(), b.drop_last());
    }
}

/// A common subsequence of length `lcs_len(a, b)` exists.
pub proof fn lemma_lcs_witness(a: Seq<char>, b: Seq<char>) -> (s: Seq<char>)
    ensures
        is_common_subsequence(s, a, b),
        s.len() == lcs_len(a, b),
    decreases a.len() + b.len(),
{
    if a.len() == 0 || b.len() == 0 {
        let s = Seq::<char>::empty();
        assert(embeds(s, a, Seq::<int>::empty()));
        assert(embeds(s, b, Seq::<int>::empty()));
        s
    } else if a.last() == b.last() {
        let t = lemma_lcs_witness(a.drop_last(), b.drop_last());
        let ia = choose|idx: Seq<int>| embeds(t, a.drop_last(), idx);
        let ib = choose|idx: Seq<int>| embeds(t, b.drop_last(), idx);
        let s = t.push(a.last());
        let ja = ia.push(a.len() - 1);
        let jb = ib.push(b.len() - 1);
        assert(embeds(s, a, ja));
        assert(embeds(s, b, jb));
        s
    } else {
        let x = lcs_len(a.drop_last(), b);
        let y = lcs_len(a, b.drop_last());
        if x >= y {
            let t = lemma_lcs_witness(a.drop_last(), b);
            let ia = choose|idx: Seq<int>| embeds(t, a.drop_last(), idx);
            assert(embeds(t, a, ia));
            t
        } else {
            let t = lemma_lcs_witness(a, b.drop_last());
            let ib = choose|idx: Seq<int>| embeds(t, b.drop_last(), idx);
            assert(embeds(t, b, ib));
            t
        }
    }
}

/// `lcs_len(a, b)` is the length of a longest common subsequence of `a` and `b`.
pub proof fn lemma_lcs_is_longest(a: Seq<char>, b: Seq<char>)
    ensures
        exists|s: Seq<char>| is_common_subsequence(s, a, b) && s.len() == lcs_len(a, b),
        forall|s: Seq<char>| is_common_subsequence(s, a, b) ==> s.len() <= lcs_len(a, b),
{
    let w = lemma_lcs_witness(a, b);
    assert forall|s: Seq<char>| is_common_subsequence(s, a, b) implies s.len() <= lcs_len(a, b) by {
        lemma_lcs_upper_bound(s, a, b);
    }
}


/// The longest common subsequence is no longer than either string.
pub proof fn lemma_lcs_bounded(a: Seq<char>, b: Seq<char>)
    ensures
        lcs_len(a, b) <= a.len(),
        lcs_len(a, b) <= b.len(),
    decreases a.len() + b.len(),
{
    if a.len() == 0 || b.len() == 0 {
    } else if a.last() == b.last() {
        lemma_lcs_bounded(a.drop_last(), b.drop_last());
    } else {
        lemma_lcs_bounded(a.drop_last(), b);
        lemma_lcs_bounded(a, b.drop_last());
    }
}

/// The longest common subsequence does not depend on the order of the two strings.
pub proof fn lemma_lcs_symmetric(a: Seq<char>, b: Seq<char>)
    ensures
        lcs_len(a, b) == lcs_len(b, a),
{
    let w = lemma_lcs_witness(a, b);
    let v = lemma_lcs_witness(b, a);
    lemma_lcs_upper_bound(w, b, a);
    lemma_lcs_upper_bound(v, a, b);
}

/// A string is its own longest common subsequence.
pub proof fn lemma_lcs_self(a: Seq<char>)
    ensures
        lcs_len(a, a) == a.len(),
{
    let idx = Seq::new(a.len(), |k: int| k);
    assert(embeds(a, a, idx));
    lemma_lcs_upper_bound(a, a, a);
    lemma_lcs_bounded(a, a);
}

/// Counts the characters that `a` and `b` have in common, in order: the
/// length of their longest common subsequence, by dynamic programming.
pub fn count_matching_chars(a: &[char], b: &[char]) -> (count: usize)
    ensures
        count == lcs_len(a@, b@),
{
    let m = a.len();
    let n = b.len();
    // `prev[j]` holds the answer for the first `i` characters of `a`
    // and the first `j` characters of `b`.
    let mut prev: Vec<usize> = Vec::new();
    prev.push(0);
    for j in 0..n
        invariant
            n == b@.len(),
            prev@.len() == j + 1,
            forall|k: int| 0 <= k <= j ==> prev@[k] == 0,
    {
        prev.push(0);
    }
    proof {
        assert forall|k: int| 0 <= k <= n implies prev@[k] == lcs_len(a@.take(0), b@.take(k)) by {
            assert(a@.take(0).len() == 0);
        }
    }
    for i in 0..m
        invariant
            m == a@.len(),
            n == b@.len(),
            prev@.len() == n + 1,
            forall|k: int| 0 <= k <= n ==> prev@[k] == lcs_len(a@.take(i as int), b@.take(k)),
    {
        let mut cur: Vec<usize> = Vec::new();
        cur.push(0);
        proof {
            assert(b@.take(0).len() == 0);
        }
        for j in 0..n
            invariant
                m == a@.len(),
                n == b@.len(),
                i < m,
                prev@.len() == n + 1,
                forall|k: int| 0 <= k <= n ==> prev@[k] == lcs_len(a@.take(i as int), b@.take(k)),
                cur@.len() == j + 1,
                forall|k: int| 0 <= k <= j ==> cur@[k] == lcs_len(a@.take(i + 1), b@.take(k)),
        {
            let ghost x = a@.take(i + 1);
            let ghost y = b@.take(j + 1);
            proof {
                assert(x.drop_last() =~= a@.take(i as int));
                assert(y.drop_last() =~= b@.take(j as int));
                assert(x.last() == a@[i as int]);
                assert(y.last() == b@[j as int]);
                lemma_lcs_bounded(a@.take(i as int), b@.take(j as int));
            }
            let v = if a[i] == b[j] {
                prev[j] + 1
            } else if prev[j + 1] >= cur[j] {
                prev[j + 1]
            } else {
                cur[j]
            };
            cur.push(v);
        }
        prev = cur;
    }
    proof {
        assert(a@.take(m as int) =~= a@);
        assert(b@.take(n as int) =~= b@);
    }
    prev[n]
}


/// The characters of `s`, in order.
pub fn chars_of(s: &str) -> (v: Vec<char>)
    ensures
        v@ == s@,
{
    let mut v: Vec<char> = Vec::new();
    for c in it: s.chars()
        invariant
            v@ == it.seq().take(it.index() as int),
    {
        v.push(c);
    }
    v
}


/// White space as `char::is_whitespace` defines it: the characters with the
/// Unicode `White_Space` property.
pub open spec fn is_white_space(c: char) -> bool {
    let v = c as u32;
    ||| 0x9 <= v <= 0xd
    ||| v == 0x20
    ||| v == 0x85
    ||| v == 0xa0
    ||| v == 0x1680
    ||| 0x2000 <= v <= 0x200a
    ||| v == 0x2028
    ||| v == 0x2029
    ||| v == 0x202f
    ||| v == 0x205f
    ||| v == 0x3000
}

fn white_space(c: char) -> (r: bool)
    ensures
        r == is_white_space(c),
{
    let v = c as u32;
    (0x9 <= v && v <= 0xd) || v == 0x20 || v == 0x85 || v == 0xa0 || v == 0x1680 || (0x2000 <= v
        && v <= 0x200a) || v == 0x2028 || v == 0x2029 || v == 0x202f || v == 0x205f || v == 0x3000
}

/// `s` without its leading white space.
pub open spec fn trim_start(s: Seq<char>) -> Seq<char>
    decreases s.len(),
{
    if s.len() > 0 && is_white_space(s[0]) {
        trim_start(s.drop_first())
    } else {
        s
    }
}

/// `s` without its trailing white space.
pub open spec fn trim_end(s: Seq<char>) -> Seq<char>
    decreases s.len(),
{
    if s.len() > 0 && is_white_space(s.last()) {
        trim_end(s.drop_last())
    } else {
        s
    }
}

/// `s` without leading and trailing white space, as `str::trim` gives it.
pub open spec fn trimmed(s: Seq<char>) -> Seq<char> {
    trim_end(trim_start(s))
}

/// Removes leading and trailing white space.
pub fn trim_chars(s: &Vec<char>) -> (t: Vec<char>)
    ensures
        t@ == trimmed(s@),
{
    let n = s.len();
    let mut start: usize = 0;
    proof {
        assert(s@.skip(0) =~= s@);
    }
    while start < n && white_space(s[start])
        invariant
            n == s@.len(),
            start <= n,
            trim_start(s@) == trim_start(s@.skip(start as int)),
        decreases n - start,
    {
        proof {
            assert(s@.skip(start as int).drop_first() =~= s@.skip(start + 1));
        }
        start = start + 1;
    }
    proof {
        if start == n {
            assert(s@.skip(start as int).len() == 0);
        }
        assert(trim_start(s@) == s@.skip(start as int));
        assert(s@.skip(start as int) =~= s@.subrange(start as int, n as int));
    }
    let mut end: usize = n;
    while end > start && white_space(s[end - 1])
        invariant
            n == s@.len(),
            start <= end <= n,
            trimmed(s@) == trim_end(s@.subrange(start as int, end as int)),
        decreases end,
    {
        proof {
            assert(s@.subrange(start as int, end as int).drop_last() =~= s@.subrange(
                start as int,
                end - 1,
            ));
        }
        end = end - 1;
    }
    let mut t: Vec<char> = Vec::new();
    let mut k: usize = start;
    while k < end
        invariant
            n == s@.len(),
            start <= k <= end <= n,
            t@ == s@.subrange(start as int, k as int),
        decreases end - k,
    {
        t.push(s[k]);
        proof {
            assert(t@ =~= s@.subrange(start as int, k + 1));
        }
        k = k + 1;
    }
    t
}

/// What `str::to_lowercase` returns for a string with these characters: the
/// Unicode lowercase mapping of each character (where final capital sigma is
/// mapped by its context).
pub uninterp spec fn lowercased(s: Seq<char>) -> Seq<char>;

/// Characters whose lower case is settled character by character: ASCII
/// and Latin-1, basic Greek letters other than capital sigma (whose lower
/// case depends on its place in a word), basic Cyrillic letters, and the
/// white space characters.  Each of them either has a one-to-one lowercase
/// mapping in the Unicode Character Database or has none.
pub open spec fn case_settled(c: char) -> bool {
    let v = c as u32;
    ||| v < 0x100
    ||| 0x391 <= v <= 0x3a9 && v != 0x3a2 && v != 0x3a3
    ||| 0x3b1 <= v <= 0x3c9
    ||| 0x400 <= v <= 0x45f
    ||| v == 0x1680 || (0x2000 <= v <= 0x200a) || v == 0x2028 || v == 0x2029 || v == 0x202f || v == 0x205f
    ||| v == 0x3000
}

/// The Unicode lowercase mapping of a character for which `case_settled`
/// holds: the capitals A-Z, À-Þ (but ×), Α-Ω (but sigma) and А-Я move up by
/// 0x20, the capitals Ѐ-Џ by 0x50; every other such character is its own
/// lower case.
pub open spec fn settled_lower(c: char) -> char {
    let v = c as u32;
    if (0x41 <= v <= 0x5a) || (0xc0 <= v <= 0xde && v != 0xd7) || (0x391 <= v <= 0x3a9 && v != 0x3a2 && v
        != 0x3a3) || (0x410 <= v <= 0x42f) {
        (v + 0x20) as char
    } else if 0x400 <= v <= 0x40f {
        (v + 0x50) as char
    } else {
        c
    }
}

/// Every character of `s` has a settled lower case.
pub open spec fn all_case_settled(s: Seq<char>) -> bool {
    forall|i: int| 0 <= i < s.len() ==> case_settled(#[trigger] s[i])
}

/// `s` in lower case, character by character.
pub open spec fn settled_lowercase(s: Seq<char>) -> Seq<char> {
    s.map_values(|c: char| settled_lower(c))
}

/// Calls `str::to_lowercase`.  Trusted.  The contract claims that the
/// result is `lowercased` of the argument's characters (it depends on them
/// alone), and that a string made only of characters with a settled lower
/// case is lowered character by character as `settled_lower` says: the
/// documentation of `str::to_lowercase` and `char::to_lowercase` gives each
/// character's one-to-one mapping of the Unicode Character Database, with
/// capital sigma, which these strings do not hold, as the only character
/// mapped by its context.
#[verifier::external_body]
fn lowercase(s: &str) -> (r: String)
    ensures
        r@ == lowercased(s@),
        all_case_settled(s@) ==> r@ == settled_lowercase(s@),
{
    s.to_lowercase()
}

/// The form in which answers are compared: lower case, without surrounding
/// white space.
pub open spec fn normalized(s: Seq<char>) -> Seq<char> {
    trimmed(lowercased(s))
}

/// The similarity ratio of two normalised texts: twice the number of
/// matching characters over their combined length.  Two empty texts are fully
/// similar; an empty text is not similar to a non-empty one.
pub open spec fn ratio_of(x: Seq<char>, y: Seq<char>) -> (int, int) {
    if x.len() == 0 && y.len() == 0 {
        (1, 1)
    } else if x.len() == 0 || y.len() == 0 {
        (0, 1)
    } else {
        (2 * lcs_len(x, y) as int, x.len() + y.len() as int)
    }
}

/// The ratio `f` is exactly one.
pub open spec fn is_full(f: (int, int)) -> bool {
    f.0 == f.1 && f.1 > 0
}

/// Similarity of two texts: the ratio of their normalised forms.
pub open spec fn similarity(a: Seq<char>, b: Seq<char>) -> (int, int) {
    ratio_of(normalized(a), normalized(b))
}

/// Computes the similarity ratio of two texts as they stand, ignoring only
/// surrounding white space; `text_similarity` passes them in lower case.
pub fn lowered_similarity(la: &str, lb: &str) -> (r: Fraction)
    ensures
        r.value() == ratio_of(trimmed(la@), trimmed(lb@)),
        fraction_valid(r),
{
    let ca = trim_chars(&chars_of(la));
    let cb = trim_chars(&chars_of(lb));
    if ca.len() == 0 && cb.len() == 0 {
        return Fraction { numerator: 1, denominator: 1 };
    }
    if ca.len() == 0 || cb.len() == 0 {
        return Fraction { numerator: 0, denominator: 1 };
    }
    let total = ca.len() as u128 + cb.len() as u128;
    let matching = count_matching_chars(ca.as_slice(), cb.as_slice());
    proof {
        lemma_lcs_bounded(ca@, cb@);
    }
    Fraction { numerator: 2 * (matching as u128), denominator: total }
}

/// Computes the similarity of two texts, case-insensitive and ignoring
/// surrounding white space.
pub fn text_similarity(a: &str, b: &str) -> (r: Fraction)
    ensures
        r.value() == similarity(a@, b@),
        fraction_valid(r),
        all_case_settled(a@) && all_case_settled(b@) ==> r.value() == ratio_of(
            trimmed(settled_lowercase(a@)),
            trimmed(settled_lowercase(b@)),
        ),
        all_case_settled(a@) && all_case_settled(b@) && settled_lowercase(a@) == settled_lowercase(b@) ==> is_full(
            r.value(),
        ),
{
    let la = lowercase(a);
    let lb = lowercase(b);
    let r = lowered_similarity(la.as_str(), lb.as_str());
    proof {
        if all_case_settled(a@) && all_case_settled(b@) && settled_lowercase(a@) == settled_lowercase(b@) {
            lemma_ratio_self(trimmed(settled_lowercase(a@)));
        }
    }
    r
}

/// Fixed-point scale of similarity thresholds: a threshold of `1.0` is given
/// as this value.
pub const SIMILARITY_SCALE: u64 = 1_000_000;

/// The ratio `f` is above the threshold `thr` (in millionths).
pub open spec fn exceeds(f: (int, int), thr: u64) -> bool {
    f.0 * SIMILARITY_SCALE > thr * f.1
}

/// Whether the ratio `f` is above the threshold `thr` (in millionths).
pub fn exceeds_threshold(f: &Fraction, thr: u64) -> (r: bool)
    requires
        fraction_valid(*f),
    ensures
        r == exceeds(f.value(), thr),
{
    let n = f.numerator;
    let d = f.denominator;
    if thr >= SIMILARITY_SCALE {
        proof {
            assert((n as int) * 1_000_000 <= (thr as int) * (d as int)) by (nonlinear_arith)
                requires
                    n <= d,
                    thr >= 1_000_000,
                    d > 0,
            ;
        }
        false
    } else {
        proof {
            assert(usize::MAX <= u64::MAX);
            assert((thr as int) * (d as int) <= 1_000_000 * 2 * (u64::MAX as int)) by (nonlinear_arith)
                requires
                    thr < 1_000_000,
                    d <= 2 * (u64::MAX as int),
            ;
        }
        n * 1_000_000 > (thr as u128) * d
    }
}

/// `a` comes before `b` in lexicographic order of code points, which is the
/// order of `String`'s `<`.
pub open spec fn lex_less(a: Seq<char>, b: Seq<char>) -> bool {
    exists|k: int|
        #![trigger a.take(k)]
        0 <= k <= a.len() && k <= b.len() && a.take(k) == b.take(k) && ((k < a.len() && k < b.len()
            && (a[k] as u32) < (b[k] as u32)) || (k == a.len() && k < b.len()))
}

/// Compares two identifiers in lexicographic order.
pub fn id_less(a: &String, b: &String) -> (r: bool)
    ensures
        r == lex_less(a@, b@),
{
    let x = chars_of(a.as_str());
    let y = chars_of(b.as_str());
    let mut k: usize = 0;
    while k < x.len() && k < y.len() && x[k] == y[k]
        invariant
            x@ == a@,
            y@ == b@,
            k <= x@.len(),
            k <= y@.len(),
            x@.take(k as int) =~= y@.take(k as int),
        decreases x@.len() - k,
    {
        proof {
            assert(x@.take(k + 1) =~= x@.take(k as int).push(x@[k as int]));
            assert(y@.take(k + 1) =~= y@.take(k as int).push(y@[k as int]));
        }
        k = k + 1;
    }
    let r = if k < x.len() && k < y.len() {
        (x[k] as u32) < (y[k] as u32)
    } else {
        k == x.len() && k < y.len()
    };
    proof {
        if r {
            assert(a@.take(k as int) == b@.take(k as int));
        } else {
            assert forall|j: int| 0 <= j <= a@.len() && j <= b@.len() && a@.take(j) == b@.take(j)
                implies !((j < a@.len() && j < b@.len() && (a@[j] as u32) < (b@[j] as u32)) || (j
                == a@.len() && j < b@.len())) by {
                if j < k {
                    assert(a@.take(k as int)[j] == b@.take(k as int)[j]);
                    assert(a@[j] == b@[j]);
                } else if j > k {
                    assert(a@.take(j)[k as int] == b@.take(j)[k as int]);
                }
            }
        }
    }
    r
}

/// The key under which the similarity of two agents is stored: the pair in
/// lexicographic order.
pub open spec fn pair_key(a: Seq<char>, b: Seq<char>) -> (Seq<char>, Seq<char>) {
    if lex_less(a, b) {
        (a, b)
    } else {
        (b, a)
    }
}

/// Pairwise similarity ratios, keyed by ordered pairs of agent ids.
pub type SimilarityMatrix = KeyedTable<(String, String), Fraction>;

/// The matrix after all pairs `(p, q)`, `p < q`, that come before `(i, j)`
/// in row-by-row order have been entered, a later pair replacing an earlier
/// one under the same key.
pub open spec fn matrix_upto(rs: Seq<AgentResponse>, i: int, j: int) -> Map<(Seq<char>, Seq<char>), (int, int)>
    decreases i, j,
{
    if 0 <= i && i + 1 < j {
        matrix_upto(rs, i, j - 1).insert(
            pair_key(rs[i].agent_id@, rs[j - 1].agent_id@),
            similarity(rs[i].content@, rs[j - 1].content@),
        )
    } else if 0 < i {
        matrix_upto(rs, i - 1, rs.len() as int)
    } else {
        Map::empty()
    }
}

/// The similarity ratios of all pairs of responses.
pub open spec fn similarity_matrix(rs: Seq<AgentResponse>) -> Map<(Seq<char>, Seq<char>), (int, int)> {
    matrix_upto(rs, rs.len() as int, rs.len() + 1int)
}

/// Builds the pairwise similarity matrix of the responses' contents, keyed
/// by the ordered pair of their agent ids.
pub fn build_similarity_matrix(responses: &[AgentResponse]) -> (matrix: SimilarityMatrix)
    ensures
        matrix.wf(),
        fraction_view(matrix@) == similarity_matrix(responses@),
        fractions_valid(matrix@),
{
    let n = responses.len();
    let mut matrix: SimilarityMatrix = KeyedTable::new();
    proof {
        assert(fraction_view(matrix@) =~= Map::empty());
    }
    for i in 0..n
        invariant
            n == responses@.len(),
            matrix.wf(),
            fraction_view(matrix@) == matrix_upto(responses@, i as int, i + 1),
            fractions_valid(matrix@),
    {
        for j in (i + 1)..n
            invariant
                n == responses@.len(),
                i < n,
                matrix.wf(),
                fraction_view(matrix@) == matrix_upto(responses@, i as int, j as int),
                fractions_valid(matrix@),
        {
            let f = text_similarity(responses[i].content.as_str(), responses[j].content.as_str());
            let key = if id_less(&responses[i].agent_id, &responses[j].agent_id) {
                (responses[i].agent_id.clone(), responses[j].agent_id.clone())
            } else {
                (responses[j].agent_id.clone(), responses[i].agent_id.clone())
            };
            proof {
                lemma_fraction_view_insert(matrix@, key@, f);
            }
            matrix.insert(key, f);
        }
        proof {
            assert(matrix_upto(responses@, i + 1, i + 2) == matrix_upto(responses@, i as int, n as int));
        }
    }
    matrix
}

/// The similarity of two agents as the matrix gives it: full for an agent
/// with itself, none for a pair that the matrix does not hold.
pub open spec fn similarity_lookup(m: Map<(Seq<char>, Seq<char>), (int, int)>, a: Seq<char>, b: Seq<char>) -> (int, int) {
    if a == b {
        (1, 1)
    } else if m.contains_key(pair_key(a, b)) {
        m[pair_key(a, b)]
    } else {
        (0, 1)
    }
}

/// Looks up the similarity of two agents, in either order.
pub fn get_similarity(matrix: &SimilarityMatrix, id1: &str, id2: &str) -> (r: Fraction)
    requires
        matrix.wf(),
        fractions_valid(matrix@),
    ensures
        r.value() == similarity_lookup(fraction_view(matrix@), id1@, id2@),
        fraction_valid(r),
{
    let a = id1.to_owned();
    let b = id2.to_owned();
    if a == b {
        return Fraction { numerator: 1, denominator: 1 };
    }
    let key = if id_less(&a, &b) {
        (a, b)
    } else {
        (b, a)
    };
    match matrix.get(&key) {
        Some(v) => v,
        None => Fraction { numerator: 0, denominator: 1 },
    }
}

/// A similarity ratio has a positive denominator and lies between 0 and 1.
pub proof fn lemma_similarity_bounds(a: Seq<char>, b: Seq<char>)
    ensures
        similarity(a, b).1 > 0,
        0 <= similarity(a, b).0 <= similarity(a, b).1,
{
    lemma_lcs_bounded(normalized(a), normalized(b));
}


/// A text is fully similar to itself.
pub proof fn lemma_ratio_self(x: Seq<char>)
    ensures
        is_full(ratio_of(x, x)),
{
    lemma_lcs_self(x);
}

/// Similarity does not depend on the order of the two texts.
pub proof fn lemma_similarity_symmetric(a: Seq<char>, b: Seq<char>)
    ensures
        similarity(a, b) == similarity(b, a),
{
    lemma_lcs_symmetric(normalized(a), normalized(b));
}

/// A text is fully similar to itself.
pub proof fn lemma_similarity_self(a: Seq<char>)
    ensures
        similarity(a, a).0 == similarity(a, a).1,
{
    lemma_lcs_self(normalized(a));
}

/// Similarity sees texts only through their normalised form: case and
/// surrounding white space do not count.
pub proof fn lemma_similarity_normalized(a: Seq<char>, a2: Seq<char>, b: Seq<char>)
    requires
        normalized(a) == normalized(a2),
    ensures
        similarity(a, b) == similarity(a2, b),
{
}

proof fn lemma_lex_exists(a: Seq<char>, b: Seq<char>, k: int)
    requires
        a != b,
        0 <= k <= a.len(),
        k <= b.len(),
        a.take(k) == b.take(k),
    ensures
        lex_less(a, b) || lex_less(b, a),
    decreases a.len() - k,
{
    if k == a.len() && k == b.len() {
        assert(a =~= a.take(k));
        assert(b =~= b.take(k));
    } else if k == a.len() {
        assert(lex_less(a, b));
    } else if k == b.len() {
        assert(b.take(k) == a.take(k));
        assert(lex_less(b, a));
    } else if a[k] != b[k] {
        let (x, y) = (a[k], b[k]);
        vstd::utf8::char_u32_cast(x, x as u32);
        vstd::utf8::char_u32_cast(y, y as u32);
        assert((x as u32) != (y as u32));
        if (a[k] as u32) < (b[k] as u32) {
            assert(lex_less(a, b));
        } else {
            assert(b.take(k) == a.take(k));
            assert(lex_less(b, a));
        }
    } else {
        assert(a.take(k + 1) =~= a.take(k).push(a[k]));
        assert(b.take(k + 1) =~= b.take(k).push(b[k]));
        lemma_lex_exists(a, b, k + 1);
    }
}

/// Of two different identifiers, exactly one comes first.
pub proof fn lemma_lex_total(a: Seq<char>, b: Seq<char>)
    requires
        a != b,
    ensures
        lex_less(a, b) != lex_less(b, a),
{
    assert(a.take(0) =~= b.take(0));
    lemma_lex_exists(a, b, 0);
    if lex_less(a, b) && lex_less(b, a) {
        let k1 = choose|k: int|
            #![trigger a.take(k)]
            0 <= k <= a.len() && k <= b.len() && a.take(k) == b.take(k) && ((k < a.len() && k
                < b.len() && (a[k] as u32) < (b[k] as u32)) || (k == a.len() && k < b.len()));
        let k2 = choose|k: int|
            #![trigger b.take(k)]
            0 <= k <= b.len() && k <= a.len() && b.take(k) == a.take(k) && ((k < b.len() && k
                < a.len() && (b[k] as u32) < (a[k] as u32)) || (k == b.len() && k < a.len()));
        if k1 < k2 {
            assert(a.take(k2)[k1] == b.take(k2)[k1]);
        } else if k2 < k1 {
            assert(a.take(k1)[k2] == b.take(k1)[k2]);
        }
    }
}

/// The key of a pair does not depend on the order of the pair.
pub proof fn lemma_pair_key_symmetric(a: Seq<char>, b: Seq<char>)
    ensures
        pair_key(a, b) == pair_key(b, a),
{
    if a != b {
        lemma_lex_total(a, b);
    }
}

/// Looking up a similarity does not depend on the order of the two agents.
pub proof fn lemma_lookup_symmetric(m: Map<(Seq<char>, Seq<char>), (int, int)>, a: Seq<char>, b: Seq<char>)
    ensures
        similarity_lookup(m, a, b) == similarity_lookup(m, b, a),
{
    lemma_pair_key_symmetric(a, b);
}

/// No two responses share an agent id.
pub open spec fn distinct_ids(rs: Seq<AgentResponse>) -> bool {
    forall|p: int, q: int| 0 <= p < q < rs.len() ==> #[trigger] rs[p].agent_id@ != #[trigger] rs[q].agent_id@
}

proof fn lemma_distinct_ids_index(rs: Seq<AgentResponse>, x: int, y: int)
    requires
        distinct_ids(rs),
        0 <= x < rs.len(),
        0 <= y < rs.len(),
        rs[x].agent_id@ == rs[y].agent_id@,
    ensures
        x == y,
{
    if x < y {
        assert(rs[x].agent_id@ != rs[y].agent_id@);
    } else if y < x {
        assert(rs[y].agent_id@ != rs[x].agent_id@);
    }
}

proof fn lemma_pair_key_components(a: Seq<char>, b: Seq<char>)
    ensures
        (pair_key(a, b).0 == a && pair_key(a, b).1 == b) || (pair_key(a, b).0 == b && pair_key(a, b).1 == a),
{
}

proof fn lemma_matrix_entry(rs: Seq<AgentResponse>, i: int, j: int, p: int, q: int)
    requires
        distinct_ids(rs),
        0 <= p < q < rs.len(),
        p < i || (p == i && q < j),
        0 <= i <= rs.len(),
        j <= rs.len() + 1,
        i < rs.len() ==> j <= rs.len(),
    ensures
        matrix_upto(rs, i, j).contains_key(pair_key(rs[p].agent_id@, rs[q].agent_id@)),
        matrix_upto(rs, i, j)[pair_key(rs[p].agent_id@, rs[q].agent_id@)] == similarity(
            rs[p].content@,
            rs[q].content@,
        ),
    decreases i, j,
{
    if 0 <= i && i + 1 < j {
        if !(i == p && j - 1 == q) {
            lemma_matrix_entry(rs, i, j - 1, p, q);
            let k1 = pair_key(rs[i].agent_id@, rs[j - 1].agent_id@);
            let k2 = pair_key(rs[p].agent_id@, rs[q].agent_id@);
            lemma_pair_key_components(rs[i].agent_id@, rs[j - 1].agent_id@);
            lemma_pair_key_components(rs[p].agent_id@, rs[q].agent_id@);
            if k1 == k2 {
                // Both keys name the same two agents, so the pairs coincide.
                if rs[i].agent_id@ == rs[p].agent_id@ {
                    lemma_distinct_ids_index(rs, i, p);
                    lemma_distinct_ids_index(rs, j - 1, q);
                } else {
                    lemma_distinct_ids_index(rs, i, q);
                    lemma_distinct_ids_index(rs, j - 1, p);
                }
            }
        }
    } else if 0 < i {
        lemma_matrix_entry(rs, i - 1, rs.len() as int, p, q);
    }
}

/// With distinct agent ids, the matrix gives every pair of agents the
/// similarity of their contents.
pub proof fn lemma_matrix_scores(rs: Seq<AgentResponse>, p: int, q: int)
    requires
        distinct_ids(rs),
        0 <= p < rs.len(),
        0 <= q < rs.len(),
        p != q,
    ensures
        similarity_lookup(similarity_matrix(rs), rs[p].agent_id@, rs[q].agent_id@) == similarity(
            rs[p].content@,
            rs[q].content@,
        ),
{
    let n = rs.len() as int;
    if p < q {
        lemma_matrix_entry(rs, n, n + 1, p, q);
    } else {
        lemma_matrix_entry(rs, n, n + 1, q, p);
        lemma_pair_key_symmetric(rs[p].agent_id@, rs[q].agent_id@);
        lemma_similarity_symmetric(rs[p].content@, rs[q].content@);
    }
}

proof fn lemma_matrix_keys(rs: Seq<AgentResponse>, i: int, j: int, k: (Seq<char>, Seq<char>))
    requires
        j <= rs.len() || (i == rs.len() && j == rs.len() + 1),
        matrix_upto(rs, i, j).contains_key(k),
    ensures
        exists|p: int, q: int|
            0 <= p < q < rs.len() && k == pair_key(#[trigger] rs[p].agent_id@, #[trigger] rs[q].agent_id@),
    decreases i, j,
{
    if 0 <= i && i + 1 < j {
        if k != pair_key(rs[i].agent_id@, rs[j - 1].agent_id@) {
            lemma_matrix_keys(rs, i, j - 1, k);
        } else {
            lemma_matrix_keys_row(rs, i, j, k);
        }
    } else if 0 < i {
        lemma_matrix_keys(rs, i - 1, rs.len() as int, k);
    }
}

proof fn lemma_matrix_keys_row(rs: Seq<AgentResponse>, i: int, j: int, k: (Seq<char>, Seq<char>))
    requires
        0 <= i,
        i + 1 < j,
        j <= rs.len(),
        k == pair_key(rs[i].agent_id@, rs[j - 1].agent_id@),
    ensures
        exists|p: int, q: int|
            0 <= p < q < rs.len() && k == pair_key(#[trigger] rs[p].agent_id@, #[trigger] rs[q].agent_id@),
{
    assert(0 <= i < j - 1 < rs.len());
}

/// Two agents of whom one gave no response have no similarity.
pub proof fn lemma_lookup_outside(rs: Seq<AgentResponse>, x: Seq<char>, y: Seq<char>)
    requires
        x != y,
        !(exists|o: int| 0 <= o < rs.len() && #[trigger] rs[o].agent_id@ == x) || !(exists|o: int|
            0 <= o < rs.len() && #[trigger] rs[o].agent_id@ == y),
    ensures
        similarity_lookup(similarity_matrix(rs), x, y) == (0int, 1int),
{
    let m = similarity_matrix(rs);
    let n = rs.len() as int;
    if m.contains_key(pair_key(x, y)) {
        lemma_matrix_keys(rs, n, n + 1, pair_key(x, y));
        let (p, q) = choose|p: int, q: int|
            0 <= p < q < rs.len() && pair_key(x, y) == pair_key(#[trigger] rs[p].agent_id@, #[trigger] rs[q].agent_id@);
        lemma_pair_key_components(x, y);
        lemma_pair_key_components(rs[p].agent_id@, rs[q].agent_id@);
        assert(rs[p].agent_id@ == x || rs[q].agent_id@ == x);
        assert(rs[p].agent_id@ == y || rs[q].agent_id@ == y);
    }
}

/// Appending a character to one text raises the number of matching
/// characters by at most one.
pub proof fn lemma_lcs_append(a: Seq<char>, b: Seq<char>, c: char)
    ensures
        lcs_len(a, b) <= lcs_len(a.push(c), b) <= lcs_len(a, b) + 1,
{
    let w = lemma_lcs_witness(a, b);
    let ia = choose|idx: Seq<int>| embeds(w, a, idx);
    assert(embeds(w, a.push(c), ia));
    lemma_lcs_upper_bound(w, a.push(c), b);
    let v = lemma_lcs_witness(a.push(c), b);
    if v.len() > 0 {
        let ja = choose|idx: Seq<int>| embeds(v, a.push(c), idx);
        let jb = choose|idx: Seq<int>| embeds(v, b, idx);
        let u = v.drop_last();
        let ua = ja.drop_last();
        let ub = jb.drop_last();
        assert forall|k: int| 0 <= k < ua.len() implies 0 <= #[trigger] ua[k] < a.len() by {
            assert(ja[k] < ja[ja.len() - 1]);
        }
        assert(embeds(u, a, ua));
        assert(embeds(u, b, ub));
        lemma_lcs_upper_bound(u, a, b);
    }
}

} // verus!
