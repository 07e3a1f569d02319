//! Suffixes of a text: common prefixes, lexicographic order, suffix arrays and
//! the doubled text that the search runs on.

use crate::constants::{complement, is_iupac, is_iupac_seq, is_symbol, SENTINEL_END, SENTINEL_MID};
use vstd::prelude::*;
use vstd::relations::injective_on;
use vstd::set_lib::{lemma_int_range, lemma_map_size, lemma_subset_equality, set_int_range};

verus! {

/// The number of leading bytes that the suffixes of `t` at `p` and at `q` share.
pub open spec fn common_prefix(t: Seq<u8>, p: int, q: int) -> nat
    decreases t.len() - p,
{
    if 0 <= p < t.len() && 0 <= q < t.len() && t[p] == t[q] {
        1 + common_prefix(t, p + 1, q + 1)
    } else {
        0
    }
}

/// The suffix of `t` at `p` comes before the suffix at `q` in lexicographic
/// order: at the first place where they differ the first holds the smaller
/// byte, or it has ended there.
pub open spec fn suffix_lt(t: Seq<u8>, p: int, q: int) -> bool
    decreases t.len() - p,
{
    if q < 0 || q >= t.len() {
        false
    } else if p < 0 || p >= t.len() {
        true
    } else if t[p] != t[q] {
        t[p] < t[q]
    } else {
        suffix_lt(t, p + 1, q + 1)
    }
}

/// `sa` lists the start of every suffix of `t` in ascending lexicographic order.
pub open spec fn is_suffix_array(t: Seq<u8>, sa: Seq<i32>) -> bool {
    &&& sa.len() == t.len()
    &&& forall|k: int| 0 <= k < sa.len() ==> 0 <= #[trigger] sa[k] < t.len()
    &&& forall|k: int| 0 < k < sa.len() ==> suffix_lt(t, sa[k - 1] as int, #[trigger] sa[k] as int)
}

/// `inv_sa` gives for each position of the text its place in `sa`, and `sa`
/// holds every position.
pub open spec fn is_rank_array(sa: Seq<i32>, inv_sa: Seq<usize>) -> bool {
    &&& inv_sa.len() == sa.len()
    &&& forall|k: int|
        0 <= k < sa.len() ==> 0 <= #[trigger] sa[k] < sa.len() && inv_sa[sa[k] as int] == k
    &&& forall|p: int|
        0 <= p < sa.len() ==> 0 <= #[trigger] inv_sa[p] < sa.len() && sa[inv_sa[p] as int] == p
}

/// `lcp[k]` is the length of the longest common prefix of the suffixes at
/// `sa[k - 1]` and `sa[k]`, and `lcp[0]` is 0.
pub open spec fn is_lcp_array(t: Seq<u8>, sa: Seq<i32>, lcp: Seq<usize>) -> bool {
    &&& lcp.len() == sa.len()
    &&& forall|k: int|
        0 <= k < sa.len() ==> #[trigger] lcp[k] == (if k == 0 {
            0
        } else {
            common_prefix(t, sa[k - 1] as int, sa[k] as int)
        })
}

/// The sequence read backwards with every letter complemented.
pub open spec fn reverse_complement(s: Seq<u8>) -> Seq<u8> {
    Seq::new(s.len(), |i: int| complement(s[s.len() - 1 - i]))
}

/// The text that the search runs on: the sequence, a sentinel, the reverse
/// complement of the sequence, and a closing sentinel.
pub open spec fn double_text(s: Seq<u8>) -> Seq<u8> {
    s + seq![SENTINEL_MID] + reverse_complement(s) + seq![SENTINEL_END]
}

/// Every byte of `t` is a letter of the doubled text.
pub open spec fn is_symbol_seq(t: Seq<u8>) -> bool {
    forall|i: int| 0 <= i < t.len() ==> is_symbol(#[trigger] t[i])
}

/// The common prefix ends inside the text, and where it ends the suffixes
/// differ or one of them is over.
pub proof fn lemma_common_prefix_bounds(t: Seq<u8>, p: int, q: int)
    requires
        0 <= p <= t.len(),
        0 <= q <= t.len(),
    ensures
        p + common_prefix(t, p, q) <= t.len(),
        q + common_prefix(t, p, q) <= t.len(),
        p + common_prefix(t, p, q) == t.len() || q + common_prefix(t, p, q) == t.len() || t[p
            + common_prefix(t, p, q)] != t[q + common_prefix(t, p, q)],
    decreases t.len() - p,
{
    if p < t.len() && q < t.len() && t[p] == t[q] {
        lemma_common_prefix_bounds(t, p + 1, q + 1);
    }
}

/// The suffixes agree at every offset below their common prefix.
pub proof fn lemma_common_prefix_agrees(t: Seq<u8>, p: int, q: int, i: int)
    requires
        0 <= i < common_prefix(t, p, q),
    ensures
        0 <= p + i < t.len(),
        0 <= q + i < t.len(),
        t[p + i] == t[q + i],
    decreases i,
{
    if i > 0 {
        lemma_common_prefix_agrees(t, p + 1, q + 1, i - 1);
    }
}

/// Dropping `h` shared bytes from both suffixes shortens their common prefix by `h`.
pub proof fn lemma_common_prefix_shift(t: Seq<u8>, p: int, q: int, h: nat)
    requires
        h <= common_prefix(t, p, q),
    ensures
        common_prefix(t, p + h, q + h) == common_prefix(t, p, q) - h,
    decreases h,
{
    if h > 0 {
        lemma_common_prefix_shift(t, p + 1, q + 1, (h - 1) as nat);
    }
}

/// The common prefix does not depend on the order of the two suffixes.
pub proof fn lemma_common_prefix_symmetric(t: Seq<u8>, p: int, q: int)
    ensures
        common_prefix(t, p, q) == common_prefix(t, q, p),
    decreases t.len() - p,
{
    if 0 <= p < t.len() && 0 <= q < t.len() && t[p] == t[q] {
        lemma_common_prefix_symmetric(t, p + 1, q + 1);
    }
}

/// A suffix shares all its bytes with itself.
pub proof fn lemma_common_prefix_of_itself(t: Seq<u8>, p: int)
    requires
        0 <= p <= t.len(),
    ensures
        common_prefix(t, p, p) == t.len() - p,
    decreases t.len() - p,
{
    if p < t.len() {
        lemma_common_prefix_of_itself(t, p + 1);
    }
}

/// What two suffixes share with a third, they share with each other.
pub proof fn lemma_common_prefix_min(t: Seq<u8>, a: int, b: int, c: int, m: nat)
    requires
        m <= common_prefix(t, a, b),
        m <= common_prefix(t, b, c),
    ensures
        m <= common_prefix(t, a, c),
    decreases m,
{
    if m > 0 {
        lemma_common_prefix_min(t, a + 1, b + 1, c + 1, (m - 1) as nat);
    }
}

/// No suffix comes before itself.
pub proof fn lemma_suffix_lt_irreflexive(t: Seq<u8>, p: int)
    ensures
        !suffix_lt(t, p, p),
    decreases t.len() - p,
{
    if 0 <= p < t.len() {
        lemma_suffix_lt_irreflexive(t, p + 1);
    }
}

/// The order of suffixes is transitive.
pub proof fn lemma_suffix_lt_transitive(t: Seq<u8>, a: int, b: int, c: int)
    requires
        suffix_lt(t, a, b),
        suffix_lt(t, b, c),
    ensures
        suffix_lt(t, a, c),
    decreases t.len() - a,
{
    if 0 <= a < t.len() && t[a] == t[b] && t[b] == t[c] {
        lemma_suffix_lt_transitive(t, a + 1, b + 1, c + 1);
    }
}

/// A suffix that lies between two others shares with each of them whatever
/// they share with each other.
pub proof fn lemma_suffix_between(t: Seq<u8>, a: int, b: int, c: int, m: nat)
    requires
        suffix_lt(t, a, b),
        suffix_lt(t, b, c),
        m <= common_prefix(t, a, c),
    ensures
        m <= common_prefix(t, a, b),
        m <= common_prefix(t, b, c),
    decreases m,
{
    if m > 0 {
        lemma_suffix_between(t, a + 1, b + 1, c + 1, (m - 1) as nat);
    }
}

/// A suffix array is sorted as a whole, not only pair by pair.
pub proof fn lemma_suffix_array_sorted(t: Seq<u8>, sa: Seq<i32>, i: int, j: int)
    requires
        is_suffix_array(t, sa),
        0 <= i < j < sa.len(),
    ensures
        suffix_lt(t, sa[i] as int, sa[j] as int),
    decreases j - i,
{
    if i + 1 < j {
        lemma_suffix_array_sorted(t, sa, i, j - 1);
        assert(suffix_lt(t, sa[j - 1] as int, sa[j] as int));
        lemma_suffix_lt_transitive(t, sa[i] as int, sa[j - 1] as int, sa[j] as int);
    } else {
        assert(suffix_lt(t, sa[j - 1] as int, sa[j] as int));
    }
}

/// No position occurs twice in a suffix array.
pub proof fn lemma_suffix_array_distinct(t: Seq<u8>, sa: Seq<i32>, i: int, j: int)
    requires
        is_suffix_array(t, sa),
        0 <= i < sa.len(),
        0 <= j < sa.len(),
        i != j,
    ensures
        sa[i] != sa[j],
{
    if i < j {
        lemma_suffix_array_sorted(t, sa, i, j);
    } else {
        lemma_suffix_array_sorted(t, sa, j, i);
    }
    lemma_suffix_lt_irreflexive(t, sa[i] as int);
}

/// Every position of the text occurs in its suffix array.
pub proof fn lemma_suffix_array_complete(t: Seq<u8>, sa: Seq<i32>, p: int)
    requires
        is_suffix_array(t, sa),
        0 <= p < t.len(),
    ensures
        exists|k: int| 0 <= k < sa.len() && sa[k] == p,
{
    let n = t.len() as int;
    let places = set_int_range(0, n);
    let f = |k: int| sa[k] as int;
    let held = places.map(f);
    lemma_int_range(0, n);
    assert(injective_on(f, places)) by {
        assert forall|k1: int, k2: int|
            places.contains(k1) && places.contains(k2) && #[trigger] f(k1) == #[trigger] f(
                k2,
            ) implies k1 == k2 by {
            if k1 != k2 {
                lemma_suffix_array_distinct(t, sa, k1, k2);
            }
        }
    }
    lemma_map_size(places, held, f);
    assert(held.subset_of(places)) by {
        assert forall|v: int| held.contains(v) implies places.contains(v) by {
            let k = choose|k: int| places.contains(k) && f(k) == v;
            assert(0 <= sa[k] < n);
        }
    }
    lemma_subset_equality(held, places);
    assert(places.contains(p));
    assert(held.contains(p));
    let k = choose|k: int| places.contains(k) && f(k) == p;
    assert(0 <= k < sa.len() && sa[k] == p);
}

/// The longest common prefix of two suffixes is the smallest entry of the LCP
/// array between their places in the suffix array.
pub proof fn lemma_common_prefix_is_range_min(
    t: Seq<u8>,
    sa: Seq<i32>,
    lcp: Seq<usize>,
    a: int,
    b: int,
)
    requires
        is_suffix_array(t, sa),
        is_lcp_array(t, sa, lcp),
        0 <= a < b < sa.len(),
    ensures
        common_prefix(t, sa[a] as int, sa[b] as int) == crate::rmq::range_min(lcp, a + 1, b + 1),
    decreases b - a,
{
    let whole = common_prefix(t, sa[a] as int, sa[b] as int);
    let last = common_prefix(t, sa[b - 1] as int, sa[b] as int);
    assert(lcp[b] == last);
    if a + 1 < b {
        lemma_common_prefix_is_range_min(t, sa, lcp, a, b - 1);
        let head = common_prefix(t, sa[a] as int, sa[b - 1] as int);
        lemma_suffix_array_sorted(t, sa, a, b - 1);
        assert(suffix_lt(t, sa[b - 1] as int, sa[b] as int));
        lemma_suffix_between(t, sa[a] as int, sa[b - 1] as int, sa[b] as int, whole);
        if head <= last {
            lemma_common_prefix_min(t, sa[a] as int, sa[b - 1] as int, sa[b] as int, head);
        } else {
            lemma_common_prefix_min(t, sa[a] as int, sa[b - 1] as int, sa[b] as int, last);
        }
    }
}

/// The step of Kasai's construction: moving one position to the right in the
/// text loses at most one byte of the common prefix with the predecessor in
/// the suffix array.
pub proof fn lemma_next_common_prefix(t: Seq<u8>, sa: Seq<i32>, inv_sa: Seq<usize>, i: int)
    requires
        is_suffix_array(t, sa),
        is_rank_array(sa, inv_sa),
        1 <= i < t.len(),
        inv_sa[i - 1] > 0,
        inv_sa[i] > 0,
    ensures
        common_prefix(t, sa[inv_sa[i] - 1] as int, i) + 1 >= common_prefix(
            t,
            sa[inv_sa[i - 1] - 1] as int,
            i - 1,
        ),
{
    let p = sa[inv_sa[i - 1] - 1] as int;
    let q = sa[inv_sa[i] - 1] as int;
    let h = common_prefix(t, p, i - 1);
    assert(sa[inv_sa[i - 1] as int] == i - 1);
    assert(sa[inv_sa[i] as int] == i);
    assert(0 <= sa[inv_sa[i - 1] - 1] < t.len());
    assert(0 <= sa[inv_sa[i] - 1] < t.len());
    if h >= 2 {
        assert(suffix_lt(t, p, i - 1));
        lemma_common_prefix_shift(t, p, i - 1, 1);
        assert(suffix_lt(t, p + 1, i));
        assert(p + 1 < t.len());
        let u = inv_sa[p + 1] as int;
        let v = inv_sa[i] as int;
        assert(sa[u] == p + 1);
        if u > v {
            lemma_suffix_array_sorted(t, sa, v, u);
            lemma_suffix_lt_transitive(t, i, p + 1, i);
            lemma_suffix_lt_irreflexive(t, i);
        }
        lemma_suffix_lt_irreflexive(t, i);
        assert(u < v);
        if u < v - 1 {
            lemma_suffix_array_sorted(t, sa, u, v - 1);
            assert(suffix_lt(t, q, i));
            lemma_suffix_between(t, p + 1, q, i, (h - 1) as nat);
        }
    }
}

/// The bytes of the doubled text, place by place.
pub proof fn lemma_double_text(s: Seq<u8>)
    ensures
        double_text(s).len() == 2 * s.len() + 2,
        forall|i: int| 0 <= i < s.len() ==> #[trigger] double_text(s)[i] == s[i],
        double_text(s)[s.len() as int] == SENTINEL_MID,
        forall|i: int|
            0 <= i < s.len() ==> #[trigger] double_text(s)[s.len() + 1 + i] == complement(
                s[s.len() - 1 - i],
            ),
        double_text(s)[2 * s.len() as int + 1] == SENTINEL_END,
        is_iupac_seq(s) ==> is_symbol_seq(double_text(s)),
{
    let t = double_text(s);
    let n = s.len() as int;
    assert forall|i: int| 0 <= i < n implies #[trigger] t[n + 1 + i] == complement(
        s[n - 1 - i],
    ) by {
        assert(t[n + 1 + i] == reverse_complement(s)[i]);
    }
    if is_iupac_seq(s) {
        assert forall|i: int| 0 <= i < t.len() implies is_symbol(#[trigger] t[i]) by {
            if i < n {
                assert(is_iupac(s[i]));
            } else if n < i < 2 * n + 1 {
                assert(t[n + 1 + (i - n - 1)] == complement(s[n - 1 - (i - n - 1)]));
                assert(is_iupac(s[n - 1 - (i - n - 1)]));
            }
        }
    }
}

/// The doubled text over `seq`: the sequence, `$`, its reverse complement, `#`.
pub fn build_long_sequence(seq: &[u8], n: usize, complement_table: &[u8; 128]) -> (s: Vec<u8>)
    requires
        n == seq.len(),
        is_iupac_seq(seq@),
        forall|b: u8| b < 128 ==> complement_table[b as int] == complement(b),
    ensures
        s@ == double_text(seq@),
{
    let mut s: Vec<u8> = Vec::new();
    let mut i: usize = 0;
    while i < n
        invariant
            i <= n,
            n == seq.len(),
            s@ == seq@.take(i as int),
        decreases n - i,
    {
        s.push(seq[i]);
        assert(seq@.take(i + 1) =~= seq@.take(i as int).push(seq@[i as int]));
        i += 1;
    }
    s.push(SENTINEL_MID);
    let mut i: usize = 0;
    assert(seq@.take(n as int) =~= seq@);
    assert(s@ =~= seq@ + seq![SENTINEL_MID] + reverse_complement(seq@).take(0));
    while i < n
        invariant
            i <= n,
            n == seq.len(),
            is_iupac_seq(seq@),
            forall|b: u8| b < 128 ==> complement_table[b as int] == complement(b),
            s@ == seq@ + seq![SENTINEL_MID] + reverse_complement(seq@).take(i as int),
        decreases n - i,
    {
        let letter = seq[n - 1 - i];
        assert(is_iupac(letter));
        s.push(complement_table[letter as usize]);
        assert(reverse_complement(seq@).take(i + 1) =~= reverse_complement(seq@).take(
            i as int,
        ).push(complement(letter)));
        assert(s@ =~= seq@ + seq![SENTINEL_MID] + reverse_complement(seq@).take(i + 1));
        i += 1;
    }
    assert(reverse_complement(seq@).take(n as int) =~= reverse_complement(seq@));
    s.push(SENTINEL_END);
    assert(s@ =~= double_text(seq@));
    s
}

} // verus!
