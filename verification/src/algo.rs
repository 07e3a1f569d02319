//! The search itself: longest common extensions with mismatches from every
//! centre of the sequence, and the inverted repeats read off them.

use crate::config::SearchParams;
use crate::constants::{lemma_match_reflexive, symbols_match};
use crate::matrix::MatchMatrix;
use crate::rmq::{is_sparse_table, range_min, rmq};
use crate::text::{
    common_prefix, is_lcp_array, is_rank_array, is_suffix_array, is_symbol_seq,
    lemma_common_prefix_agrees, lemma_common_prefix_bounds, lemma_common_prefix_is_range_min,
    lemma_common_prefix_of_itself, lemma_common_prefix_symmetric,
};
use vstd::prelude::*;

verus! {

/// The arrays answer longest-common-extension queries on `t`: `inv_sa` gives
/// every position a place of its own in the suffix array, between the places
/// of two suffixes the smallest entry of `lcp` is the length of their common
/// prefix, and `rmq_prep` is the sparse table of `lcp`.
pub open spec fn is_lce_index(
    t: Seq<u8>,
    inv_sa: Seq<usize>,
    lcp: Seq<usize>,
    rmq_prep: Seq<usize>,
) -> bool {
    &&& inv_sa.len() == t.len()
    &&& lcp.len() == t.len()
    &&& is_sparse_table(rmq_prep, lcp)
    &&& forall|p: int| 0 <= p < t.len() ==> #[trigger] inv_sa[p] < t.len()
    &&& forall|p: int, q: int|
        0 <= p < t.len() && 0 <= q < t.len() && p != q ==> #[trigger] inv_sa[p]
            != #[trigger] inv_sa[q]
    &&& forall|p: int, q: int|
        0 <= p < t.len() && 0 <= q < t.len() && inv_sa[p] < inv_sa[q] ==> range_min(
            lcp,
            inv_sa[p] + 1,
            inv_sa[q] + 1,
        ) == #[trigger] common_prefix(t, p, q)
}

/// A suffix array with its inverse, its LCP array and the sparse table of that
/// array answer longest-common-extension queries.
pub proof fn lemma_lce_index(
    t: Seq<u8>,
    sa: Seq<i32>,
    inv_sa: Seq<usize>,
    lcp: Seq<usize>,
    rmq_prep: Seq<usize>,
)
    requires
        is_suffix_array(t, sa),
        is_rank_array(sa, inv_sa),
        is_lcp_array(t, sa, lcp),
        is_sparse_table(rmq_prep, lcp),
    ensures
        is_lce_index(t, inv_sa, lcp, rmq_prep),
{
    assert forall|p: int, q: int|
        0 <= p < t.len() && 0 <= q < t.len() && p != q implies #[trigger] inv_sa[p]
        != #[trigger] inv_sa[q] by {
        assert(sa[inv_sa[p] as int] == p);
        assert(sa[inv_sa[q] as int] == q);
    }
    assert forall|p: int, q: int|
        0 <= p < t.len() && 0 <= q < t.len() && inv_sa[p] < inv_sa[q] implies range_min(
        lcp,
        inv_sa[p] + 1,
        inv_sa[q] + 1,
    ) == #[trigger] common_prefix(t, p, q) by {
        assert(sa[inv_sa[p] as int] == p);
        assert(sa[inv_sa[q] as int] == q);
        lemma_common_prefix_is_range_min(t, sa, lcp, inv_sa[p] as int, inv_sa[q] as int);
    }
}

/// The longest common extension from the positions `i` and `j` of `s`: the
/// number of bytes that the suffixes there share, by one range-minimum query
/// between their places in the suffix array, whichever comes first. From the
/// end of the text nothing extends.
pub fn lce(
    s: &[u8],
    i: usize,
    j: usize,
    inv_sa: &[usize],
    lcp: &[usize],
    rmq_prep: &[usize],
) -> (l: usize)
    requires
        is_lce_index(s@, inv_sa@, lcp@, rmq_prep@),
        i < s.len(),
        j <= s.len(),
    ensures
        l == (if j == s.len() {
            0
        } else {
            common_prefix(s@, i as int, j as int)
        }),
{
    let s_n = s.len();
    if i == j {
        proof {
            lemma_common_prefix_of_itself(s@, i as int);
        }
        return s_n - i;
    }
    if j == s_n {
        return 0;
    }
    let ii = inv_sa[i];
    let jj = inv_sa[j];
    if ii < jj {
        lcp[rmq(rmq_prep, lcp, s_n, ii + 1, jj)]
    } else {
        proof {
            lemma_common_prefix_symmetric(s@, i as int, j as int);
        }
        lcp[rmq(rmq_prep, lcp, s_n, jj + 1, ii)]
    }
}

/// The offsets, counted from 1, at which the letters at `i + r` and `j + r` do
/// not match, for `r` from `from` on. The walk ends where the second position
/// leaves the text or the first reaches its second half, and right after the
/// first mismatch that the budget does not cover. A mismatch at an offset below
/// `initial_gap` is listed and costs nothing.
pub open spec fn mismatch_offsets(
    t: Seq<u8>,
    i: int,
    j: int,
    from: int,
    budget: int,
    initial_gap: int,
) -> Seq<usize>
    decreases t.len() - (j + from),
{
    if budget < 0 || from < 0 || i < 0 || j < 0 || j + from >= t.len() || i + from >= t.len() / 2 {
        Seq::empty()
    } else if !symbols_match(t[i + from], t[j + from]) {
        seq![(from + 1) as usize] + mismatch_offsets(
            t,
            i,
            j,
            from + 1,
            if from + 1 >= initial_gap {
                budget - 1
            } else {
                budget
            },
            initial_gap,
        )
    } else {
        mismatch_offsets(t, i, j, from + 1, budget, initial_gap)
    }
}

/// What [`real_lce_mismatches`] returns: offset 0, which stands for the place
/// just before the arms, and then the offsets of the mismatches.
pub open spec fn mismatch_locs(
    t: Seq<u8>,
    i: int,
    j: int,
    mismatches: int,
    initial_gap: int,
) -> Seq<usize> {
    seq![0usize] + mismatch_offsets(t, i, j, 0, mismatches, initial_gap)
}

/// Equal letters match, so a stretch of equal letters adds no offset: the walk
/// may leap over it.
pub proof fn lemma_mismatch_offsets_leap(
    t: Seq<u8>,
    i: int,
    j: int,
    from: int,
    budget: int,
    initial_gap: int,
    l: nat,
)
    requires
        is_symbol_seq(t),
        0 <= i < j,
        0 <= from,
        l <= common_prefix(t, i + from, j + from),
    ensures
        mismatch_offsets(t, i, j, from, budget, initial_gap) == (if i + from + l > t.len() / 2 {
            Seq::empty()
        } else {
            mismatch_offsets(t, i, j, from + l, budget, initial_gap)
        }),
    decreases l,
{
    if l > 0 {
        lemma_common_prefix_agrees(t, i + from, j + from, 0);
        lemma_match_reflexive(t[i + from]);
        lemma_mismatch_offsets_leap(t, i, j, from + 1, budget, initial_gap, (l - 1) as nat);
    }
}

/// The list of mismatch offsets between the suffixes of `s` at `i` and at `j`:
/// a longest-common-extension query leaps over each stretch of equal letters,
/// and one lookup in `matrix` tells whether the letters after it match.
pub fn real_lce_mismatches(
    s: &[u8],
    i: usize,
    j: usize,
    inv_sa: &[usize],
    lcp: &[usize],
    rmq_prep: &[usize],
    mismatches: usize,
    initial_gap: usize,
    matrix: &MatchMatrix,
) -> (locs: Vec<usize>)
    requires
        is_lce_index(s@, inv_sa@, lcp@, rmq_prep@),
        is_symbol_seq(s@),
        i < j <= s.len(),
    ensures
        locs@ == mismatch_locs(s@, i as int, j as int, mismatches as int, initial_gap as int),
{
    let s_n = s.len();
    let ghost t = s@;
    let ghost gap = initial_gap as int;
    let mut locs: Vec<usize> = Vec::new();
    locs.push(0);
    let mut real_lce: usize = 0;
    let mut counted: usize = 0;
    assert(locs@ =~= seq![0usize]);
    while counted <= mismatches && j + real_lce != s_n
        invariant
            s_n == s.len(),
            t == s@,
            gap == initial_gap,
            is_lce_index(t, inv_sa@, lcp@, rmq_prep@),
            is_symbol_seq(t),
            i < j,
            j + real_lce <= s_n,
            counted <= real_lce,
            locs@ + mismatch_offsets(t, i as int, j as int, real_lce as int, mismatches - counted, gap)
                == mismatch_locs(t, i as int, j as int, mismatches as int, gap),
        ensures
            locs@ == mismatch_locs(t, i as int, j as int, mismatches as int, gap),
        decreases s_n - real_lce,
    {
        let ghost start = real_lce as int;
        let leap = lce(s, i + real_lce, j + real_lce, inv_sa, lcp, rmq_prep);
        proof {
            lemma_common_prefix_bounds(t, i + start, j + start);
            lemma_mismatch_offsets_leap(
                t,
                i as int,
                j as int,
                start,
                mismatches - counted,
                gap,
                leap as nat,
            );
        }
        real_lce += leap;
        let ni = i + real_lce;
        let nj = j + real_lce;
        if ni >= s_n / 2 || nj >= s_n {
            assert(locs@ + Seq::<usize>::empty() =~= locs@);
            break;
        }
        if !matrix.match_u8(s[ni], s[nj]) {
            let ghost before = locs@;
            locs.push(real_lce + 1);
            if real_lce + 1 >= initial_gap {
                counted += 1;
            }
            proof {
                let rest = mismatch_offsets(
                    t,
                    i as int,
                    j as int,
                    real_lce + 1,
                    mismatches - counted,
                    gap,
                );
                assert(before + (seq![(real_lce + 1) as usize] + rest) =~= locs@ + rest);
            }
        }
        real_lce += 1;
    }
    proof {
        assert(locs@ + Seq::<usize>::empty() =~= locs@);
    }
    locs
}

/// The recorded offsets grow, start at 0 and stay within the stretch of text
/// that the walk covers.
pub open spec fn is_offset_list(m: Seq<usize>, limit: int) -> bool {
    &&& m.len() >= 1
    &&& m[0] == 0
    &&& forall|a: int, b: int| 0 <= a < b < m.len() ==> m[a] < m[b]
    &&& forall|k: int| 0 <= k < m.len() ==> #[trigger] m[k] <= limit
}

/// The offsets of a walk from offset `from` on lie beyond `from`, grow, and
/// stay in the text.
pub proof fn lemma_mismatch_offsets_grow(
    t: Seq<u8>,
    i: int,
    j: int,
    from: int,
    budget: int,
    initial_gap: int,
)
    requires
        t.len() <= usize::MAX,
    ensures
        forall|k: int|
            0 <= k < mismatch_offsets(t, i, j, from, budget, initial_gap).len() ==> from
                < #[trigger] mismatch_offsets(t, i, j, from, budget, initial_gap)[k] <= t.len() - j
                && mismatch_offsets(t, i, j, from, budget, initial_gap)[k] <= t.len() / 2 - i,
        forall|a: int, b: int|
            0 <= a < b < mismatch_offsets(t, i, j, from, budget, initial_gap).len()
                ==> mismatch_offsets(t, i, j, from, budget, initial_gap)[a] < mismatch_offsets(
                t,
                i,
                j,
                from,
                budget,
                initial_gap,
            )[b],
    decreases t.len() - (j + from),
{
    let offs = mismatch_offsets(t, i, j, from, budget, initial_gap);
    if budget < 0 || from < 0 || i < 0 || j < 0 || j + from >= t.len() || i + from >= t.len() / 2 {
    } else if !symbols_match(t[i + from], t[j + from]) {
        let left = if from + 1 >= initial_gap {
            budget - 1
        } else {
            budget
        };
        lemma_mismatch_offsets_grow(t, i, j, from + 1, left, initial_gap);
        let rest = mismatch_offsets(t, i, j, from + 1, left, initial_gap);
        assert(offs == seq![(from + 1) as usize] + rest);
        assert forall|k: int| 0 <= k < offs.len() implies from < #[trigger] offs[k] <= t.len() - j
            && offs[k] <= t.len() / 2 - i by {
            if k > 0 {
                assert(offs[k] == rest[k - 1]);
            }
        }
        assert forall|a: int, b: int| 0 <= a < b < offs.len() implies offs[a] < offs[b] by {
            assert(offs[b] == rest[b - 1]);
            if a > 0 {
                assert(offs[a] == rest[a - 1]);
            }
        }
    } else {
        lemma_mismatch_offsets_grow(t, i, j, from + 1, budget, initial_gap);
        let rest = mismatch_offsets(t, i, j, from + 1, budget, initial_gap);
        assert(offs == rest);
        assert forall|k: int| 0 <= k < offs.len() implies from < #[trigger] offs[k] <= t.len() - j
            && offs[k] <= t.len() / 2 - i by {
            assert(offs[k] == rest[k]);
        }
        assert forall|a: int, b: int| 0 <= a < b < offs.len() implies offs[a] < offs[b] by {
            assert(offs[a] == rest[a] && offs[b] == rest[b]);
        }
    }
}

/// The list that a walk returns grows from 0 and stays within the text.
pub proof fn lemma_mismatch_locs_grow(
    t: Seq<u8>,
    i: int,
    j: int,
    mismatches: int,
    initial_gap: int,
    limit: int,
)
    requires
        t.len() <= usize::MAX,
        0 <= limit,
        t.len() - j <= limit || t.len() / 2 - i <= limit,
    ensures
        is_offset_list(mismatch_locs(t, i, j, mismatches, initial_gap), limit),
{
    let offs = mismatch_offsets(t, i, j, 0, mismatches, initial_gap);
    let m = mismatch_locs(t, i, j, mismatches, initial_gap);
    lemma_mismatch_offsets_grow(t, i, j, 0, mismatches, initial_gap);
    assert forall|a: int, b: int| 0 <= a < b < m.len() implies m[a] < m[b] by {
        assert(m[b] == offs[b - 1]);
        if a > 0 {
            assert(m[a] == offs[a - 1]);
        }
    }
    assert forall|k: int| 0 <= k < m.len() implies #[trigger] m[k] <= limit by {
        if k > 0 {
            assert(m[k] == offs[k - 1]);
        }
    }
}

/// Matching letters lie between the recorded mismatches `k` and `k + 1`.
pub open spec fn is_stretch(m: Seq<usize>, k: int) -> bool {
    0 <= k && k + 1 < m.len() && m[k + 1] != m[k] + 1
}

/// The places `k < upto` of the list after which matching letters follow, ascending.
pub open spec fn stretches(m: Seq<usize>, upto: int) -> Seq<int>
    decreases upto,
{
    if upto <= 0 {
        Seq::empty()
    } else if is_stretch(m, upto - 1) {
        stretches(m, upto - 1).push(upto - 1)
    } else {
        stretches(m, upto - 1)
    }
}

/// `ks` lists places of `m` after which matching letters follow, ascending.
pub open spec fn is_stretch_list(m: Seq<usize>, ks: Seq<int>) -> bool {
    &&& forall|p: int| 0 <= p < ks.len() ==> is_stretch(m, #[trigger] ks[p])
    &&& forall|p: int, q: int| 0 <= p < q < ks.len() ==> ks[p] < ks[q]
}

/// [`stretches`] lists places after which matching letters follow, ascending
/// and below `upto`.
pub proof fn lemma_stretches(m: Seq<usize>, upto: int)
    ensures
        is_stretch_list(m, stretches(m, upto)),
        forall|p: int| 0 <= p < stretches(m, upto).len() ==> #[trigger] stretches(m, upto)[p] < upto,
    decreases upto,
{
    if upto > 0 {
        lemma_stretches(m, upto - 1);
    }
}

/// The last stretch that an arm starting after stretch `sp` can reach from
/// stretch `e` on without holding more than `mismatches` recorded mismatches.
pub open spec fn reach_from(ks: Seq<int>, sp: int, e: int, mismatches: int) -> int
    decreases ks.len() - e,
{
    if 0 <= e && e + 1 < ks.len() && ks[e + 1] - ks[sp] <= mismatches {
        reach_from(ks, sp, e + 1, mismatches)
    } else {
        e
    }
}

/// The last stretch that an arm starting after stretch `sp` can reach.
pub open spec fn reach(ks: Seq<int>, sp: int, mismatches: int) -> int {
    reach_from(ks, sp, sp, mismatches)
}

/// `r` is the last stretch within reach of stretch `sp`.
pub open spec fn is_reach(ks: Seq<int>, sp: int, r: int, mismatches: int) -> bool {
    &&& 0 <= sp <= r < ks.len()
    &&& ks[r] - ks[sp] <= mismatches
    &&& r + 1 == ks.len() || ks[r + 1] - ks[sp] > mismatches
}

/// [`reach_from`] ends at the last stretch within reach.
pub proof fn lemma_reach_from(ks: Seq<int>, sp: int, e: int, mismatches: int)
    requires
        0 <= sp <= e < ks.len(),
        ks[e] - ks[sp] <= mismatches,
    ensures
        is_reach(ks, sp, reach_from(ks, sp, e, mismatches), mismatches),
        e <= reach_from(ks, sp, e, mismatches),
    decreases ks.len() - e,
{
    if e + 1 < ks.len() && ks[e + 1] - ks[sp] <= mismatches {
        lemma_reach_from(ks, sp, e + 1, mismatches);
    }
}

/// The last stretch within reach is unique.
pub proof fn lemma_reach_unique(ks: Seq<int>, sp: int, r: int, mismatches: int)
    requires
        forall|p: int, q: int| 0 <= p < q < ks.len() ==> ks[p] < ks[q],
        is_reach(ks, sp, r, mismatches),
        0 <= mismatches,
    ensures
        r == reach(ks, sp, mismatches),
{
    lemma_reach_from(ks, sp, sp, mismatches);
    let w = reach(ks, sp, mismatches);
    if r < w {
        if r + 1 < w {
            assert(ks[r + 1] < ks[w]);
        }
    } else if w < r {
        if w + 1 < r {
            assert(ks[w + 1] < ks[r]);
        }
    }
}

/// The last offset of the arm that starts after stretch `sp` and reaches
/// stretch `rp`: the letter before the mismatch that closes stretch `rp`, or,
/// where that arm would be longer than `max_len`, the letter `max_len` places
/// after the start; and one letter less where that letter is the mismatch that
/// closes the stretch before `rp`.
pub open spec fn arm_end(m: Seq<usize>, ks: Seq<int>, sp: int, rp: int, max_len: int) -> int {
    let start = m[ks[sp]] as int;
    let end = m[ks[rp] + 1] - 1;
    if end - start <= max_len {
        end
    } else if rp >= 1 && m[ks[rp - 1] + 1] == start + max_len {
        start + max_len - 1
    } else {
        start + max_len
    }
}

/// The inverted repeat around centre `c` whose gap ends at offset `start` and
/// whose arms end at offset `end`: its first and last position in the sequence
/// and the number of letters between its arms.
pub open spec fn ir_at(c: int, start: int, end: int) -> (usize, usize, usize) {
    (((c + 1) / 2 - end) as usize, (c / 2 + end) as usize, (2 * start + 1 - c % 2) as usize)
}

/// The arm that starts after stretch `sp` is reported: it reaches further than
/// the arm that starts one stretch earlier, its gap is within the limit, and it
/// is long enough.
pub open spec fn emits(
    m: Seq<usize>,
    ks: Seq<int>,
    sp: int,
    params: SearchParams,
    initial_gap: int,
) -> bool {
    let rp = reach(ks, sp, params.mismatches as int);
    &&& sp == 0 || reach(ks, sp - 1, params.mismatches as int) < rp
    &&& m[ks[sp]] < initial_gap
    &&& m[ks[rp] + 1] - 1 - m[ks[sp]] >= params.min_len
}

/// The inverted repeats around centre `c` that start after one of the first
/// `upto` stretches, in the order of their starts.
pub open spec fn center_irs_upto(
    m: Seq<usize>,
    ks: Seq<int>,
    c: int,
    params: SearchParams,
    initial_gap: int,
    upto: int,
) -> Seq<(usize, usize, usize)>
    decreases upto,
{
    if upto <= 0 {
        Seq::empty()
    } else {
        let sp = upto - 1;
        let before = center_irs_upto(m, ks, c, params, initial_gap, sp);
        if emits(m, ks, sp, params, initial_gap) {
            before.push(
                ir_at(
                    c,
                    m[ks[sp]] as int,
                    arm_end(
                        m,
                        ks,
                        sp,
                        reach(ks, sp, params.mismatches as int),
                        params.max_len as int,
                    ),
                ),
            )
        } else {
            before
        }
    }
}

/// The offset from which mismatches count against the budget at centre `c`:
/// below it a mismatch lies in what may be the gap.
pub open spec fn initial_gap_at(max_gap: int, c: int) -> int {
    if max_gap % 2 == 1 {
        max_gap / 2 + 1
    } else {
        max_gap / 2 + c % 2
    }
}

/// The list of mismatch offsets around centre `c` of a doubled text over a
/// sequence of `n` letters. An even `c` is the letter `c / 2`, an odd `c` the
/// place between the letters `c / 2` and `c / 2 + 1`.
pub open spec fn center_locs(t: Seq<u8>, n: int, params: SearchParams, c: int) -> Seq<usize> {
    mismatch_locs(
        t,
        1 + c / 2,
        2 * n + 1 - (c + 1) / 2,
        params.mismatches as int,
        initial_gap_at(params.max_gap as int, c),
    )
}

/// The inverted repeats around centre `c`.
pub open spec fn irs_at_center(t: Seq<u8>, n: int, params: SearchParams, c: int) -> Seq<
    (usize, usize, usize),
> {
    let m = center_locs(t, n, params, c);
    let ks = stretches(m, m.len() as int);
    center_irs_upto(m, ks, c, params, initial_gap_at(params.max_gap as int, c), ks.len() as int)
}

/// The inverted repeats around the centres `lo..hi`, centre by centre.
pub open spec fn irs_in_centers(t: Seq<u8>, n: int, params: SearchParams, lo: int, hi: int) -> Seq<
    (usize, usize, usize),
>
    decreases hi - lo,
{
    if hi <= lo {
        Seq::empty()
    } else {
        irs_in_centers(t, n, params, lo, hi - 1) + irs_at_center(t, n, params, hi - 1)
    }
}

/// `starts` and `ends` hold, for each stretch of `ks`, the mismatch before it
/// and the mismatch after it, each as its offset and its place in `m`.
pub open spec fn are_valid_locs(
    m: Seq<usize>,
    ks: Seq<int>,
    starts: Seq<(usize, usize)>,
    ends: Seq<(usize, usize)>,
) -> bool {
    &&& starts.len() == ks.len()
    &&& ends.len() == ks.len()
    &&& forall|p: int|
        #![trigger starts[p]]
        #![trigger ends[p]]
        0 <= p < ks.len() ==> starts[p] == (m[ks[p]], ks[p] as usize) && ends[p] == (
            m[ks[p] + 1],
            (ks[p] + 1) as usize,
        )
}

/// What the sweep over the stretches of one centre relies on.
#[verifier::opaque]
pub open spec fn sweep_ready(
    m: Seq<usize>,
    ks: Seq<int>,
    starts: Seq<(usize, usize)>,
    ends: Seq<(usize, usize)>,
    c: int,
    n: int,
) -> bool {
    &&& is_offset_list(m, n - c / 2)
    &&& is_offset_list(m, (c + 1) / 2 + 1)
    &&& 0 <= c
    &&& c / 2 <= n
    &&& 2 * n + 2 <= usize::MAX
    &&& m.len() <= usize::MAX
    &&& is_stretch_list(m, ks)
    &&& are_valid_locs(m, ks, starts, ends)
}

/// Where no start is reported, the list of repeats does not grow.
pub proof fn lemma_center_irs_silent(
    m: Seq<usize>,
    ks: Seq<int>,
    c: int,
    params: SearchParams,
    initial_gap: int,
    lo: int,
    hi: int,
)
    requires
        0 <= lo <= hi,
        forall|sp: int| lo <= sp < hi ==> !emits(m, ks, sp, params, initial_gap),
    ensures
        center_irs_upto(m, ks, c, params, initial_gap, hi) == center_irs_upto(
            m,
            ks,
            c,
            params,
            initial_gap,
            lo,
        ),
    decreases hi - lo,
{
    if lo < hi {
        lemma_center_irs_silent(m, ks, c, params, initial_gap, lo, hi - 1);
        assert(!emits(m, ks, hi - 1, params, initial_gap));
    }
}

/// The starts and the ends that can bound an arm: for every place of the list
/// after which matching letters follow, the mismatch there and the next one.
fn valid_locs(m: &Vec<usize>) -> (r: (Vec<(usize, usize)>, Vec<(usize, usize)>))
    requires
        forall|a: int, b: int| 0 <= a < b < m.len() ==> m[a] < m[b],
    ensures
        are_valid_locs(m@, stretches(m@, m.len() as int), r.0@, r.1@),
{
    let sz = m.len();
    let mut starts: Vec<(usize, usize)> = Vec::new();
    let mut ends: Vec<(usize, usize)> = Vec::new();
    let mut id: usize = 0;
    while id < sz
        invariant
            id <= sz,
            sz == m.len(),
            forall|a: int, b: int| 0 <= a < b < m.len() ==> m[a] < m[b],
            are_valid_locs(m@, stretches(m@, id as int), starts@, ends@),
        decreases sz - id,
    {
        if id + 1 < sz {
            assert(m[id as int] < m[id + 1]);
            if m[id + 1] != m[id] + 1 {
                let ghost ks = stretches(m@, id as int);
                let ghost old_starts = starts@;
                let ghost old_ends = ends@;
                starts.push((m[id], id));
                ends.push((m[id + 1], id + 1));
                proof {
                    let ks2 = stretches(m@, id + 1);
                    assert(ks2 == ks.push(id as int));
                    assert forall|p: int|
                        #![trigger starts@[p]]
                        #![trigger ends@[p]]
                        0 <= p < ks2.len() implies starts@[p] == (m@[ks2[p]], ks2[p] as usize)
                        && ends@[p] == (m@[ks2[p] + 1], (ks2[p] + 1) as usize) by {
                        if p < ks.len() {
                            assert(starts@[p] == old_starts[p]);
                            assert(ends@[p] == old_ends[p]);
                        }
                    }
                }
            }
        }
        id += 1;
    }
    (starts, ends)
}

/// What [`sweep_ready`] says of the stretches `p` and `q`.
proof fn lemma_sweep_facts(
    m: Seq<usize>,
    ks: Seq<int>,
    starts: Seq<(usize, usize)>,
    ends: Seq<(usize, usize)>,
    c: int,
    n: int,
    p: int,
    q: int,
)
    requires
        sweep_ready(m, ks, starts, ends, c, n),
        0 <= p <= q < ks.len(),
    ensures
        starts.len() == ks.len(),
        ends.len() == ks.len(),
        starts[p] == (m[ks[p]], ks[p] as usize),
        ends[p] == (m[ks[p] + 1], (ks[p] + 1) as usize),
        starts[q] == (m[ks[q]], ks[q] as usize),
        ends[q] == (m[ks[q] + 1], (ks[q] + 1) as usize),
        0 <= ks[p] <= ks[q],
        ks[q] + 1 < m.len() <= usize::MAX,
        p < q ==> ks[p] < ks[q],
        m[ks[p]] + 1 < m[ks[p] + 1],
        m[ks[q]] + 1 < m[ks[q] + 1],
        m[ks[p]] <= m[ks[q]],
        m[ks[p] + 1] <= m[ks[q] + 1],
        p < q ==> m[ks[p] + 1] <= m[ks[q]],
        p < q ==> m[ks[p] + 1] < m[ks[q] + 1],
        m[ks[q] + 1] <= n - c / 2,
        m[ks[q] + 1] <= (c + 1) / 2 + 1,
        0 <= c,
        c / 2 <= n,
        2 * n + 2 <= usize::MAX,
{
    reveal(sweep_ready);
    assert(is_stretch(m, ks[p]));
    assert(is_stretch(m, ks[q]));
    assert(m[ks[p]] < m[ks[p] + 1]);
    assert(m[ks[q]] < m[ks[q] + 1]);
    if p < q {
        assert(ks[p] < ks[q]);
        assert(m[ks[p]] < m[ks[q]]);
        assert(m[ks[p] + 1] < m[ks[q] + 1]);
        if ks[p] + 1 < ks[q] {
            assert(m[ks[p] + 1] < m[ks[q]]);
        }
    }
}

/// A start from which the end after the reach of the start before it is out of
/// reach too reaches no further than that start, and is not reported.
proof fn lemma_sweep_skip(
    m: Seq<usize>,
    ks: Seq<int>,
    params: SearchParams,
    initial_gap: int,
    sp: int,
    ep: int,
)
    requires
        forall|p: int, q: int| 0 <= p < q < ks.len() ==> ks[p] < ks[q],
        0 <= sp <= ep < ks.len(),
        (sp == 0 && ep == 0) || (sp > 0 && ep == reach(ks, sp - 1, params.mismatches as int) + 1),
        ks[ep] - ks[sp] > params.mismatches,
    ensures
        sp > 0,
        sp < ep,
        ep == reach(ks, sp, params.mismatches as int) + 1,
        !emits(m, ks, sp, params, initial_gap),
{
    let mm = params.mismatches as int;
    lemma_reach_from(ks, sp - 1, sp - 1, mm);
    assert(ks[sp - 1] < ks[sp]);
    if sp < ep - 1 {
        assert(ks[sp] < ks[ep - 1]);
    }
    lemma_reach_unique(ks, sp, ep - 1, mm);
}

/// Once the end after the reach of a start is the end of the list, no later
/// start is reported.
proof fn lemma_sweep_exhausted(
    m: Seq<usize>,
    ks: Seq<int>,
    c: int,
    params: SearchParams,
    initial_gap: int,
    sp: int,
)
    requires
        forall|p: int, q: int| 0 <= p < q < ks.len() ==> ks[p] < ks[q],
        0 < sp <= ks.len(),
        ks.len() == reach(ks, sp - 1, params.mismatches as int) + 1,
    ensures
        center_irs_upto(m, ks, c, params, initial_gap, ks.len() as int) == center_irs_upto(
            m,
            ks,
            c,
            params,
            initial_gap,
            sp,
        ),
{
    let mm = params.mismatches as int;
    let total = ks.len() as int;
    lemma_reach_from(ks, sp - 1, sp - 1, mm);
    assert forall|x: int| sp <= x < total implies !emits(m, ks, x, params, initial_gap) by {
        assert(ks[sp - 1] < ks[x]);
        lemma_reach_unique(ks, x, total - 1, mm);
        if sp < x {
            assert(ks[sp - 1] < ks[x - 1]);
        }
        lemma_reach_unique(ks, x - 1, total - 1, mm);
    }
    lemma_center_irs_silent(m, ks, c, params, initial_gap, sp, total);
}

/// Once the gap before a start is too wide, no later start is reported.
proof fn lemma_sweep_gap_too_wide(
    m: Seq<usize>,
    ks: Seq<int>,
    c: int,
    params: SearchParams,
    initial_gap: int,
    sp: int,
)
    requires
        is_stretch_list(m, ks),
        forall|a: int, b: int| 0 <= a < b < m.len() ==> m[a] < m[b],
        0 <= sp < ks.len(),
        m[ks[sp]] >= initial_gap,
    ensures
        center_irs_upto(m, ks, c, params, initial_gap, ks.len() as int) == center_irs_upto(
            m,
            ks,
            c,
            params,
            initial_gap,
            sp,
        ),
{
    let total = ks.len() as int;
    assert forall|x: int| sp <= x < total implies !emits(m, ks, x, params, initial_gap) by {
        assert(is_stretch(m, ks[sp]));
        assert(is_stretch(m, ks[x]));
        if sp < x {
            assert(ks[sp] < ks[x]);
            assert(m[ks[sp]] < m[ks[x]]);
        }
    }
    lemma_center_irs_silent(m, ks, c, params, initial_gap, sp, total);
}

/// The arm from a start to the last end within its reach, cut as the sweep
/// cuts it.
fn arm_between(
    m: &Vec<usize>,
    starts: &Vec<(usize, usize)>,
    ends: &Vec<(usize, usize)>,
    params: &SearchParams,
    c: usize,
    sp: usize,
    rp: usize,
    Ghost(n): Ghost<int>,
) -> (ir: (usize, usize, usize))
    requires
        sweep_ready(m@, stretches(m@, m.len() as int), starts@, ends@, c as int, n),
        sp <= rp < starts.len(),
    ensures
        ir == ir_at(
            c as int,
            m@[stretches(m@, m.len() as int)[sp as int]] as int,
            arm_end(m@, stretches(m@, m.len() as int), sp as int, rp as int, params.max_len as int),
        ),
{
    let ghost ks = stretches(m@, m.len() as int);
    proof {
        assert(starts@.len() == ks.len()) by {
            reveal(sweep_ready);
        }
        lemma_sweep_facts(m@, ks, starts@, ends@, c as int, n, sp as int, rp as int);
    }
    let start_mismatch = starts[sp].0;
    let end_mismatch = ends[rp].0 - 1;
    let ir_length = end_mismatch - start_mismatch;
    let left = (c + 1) / 2 - end_mismatch;
    let right = c / 2 + end_mismatch;
    let gap_size = 2 * start_mismatch + 1 - c % 2;
    if ir_length <= params.max_len {
        (left, right, gap_size)
    } else {
        let overshoot = ir_length - params.max_len;
        let prev_ptr = if rp >= 1 {
            rp - 1
        } else {
            0
        };
        proof {
            lemma_sweep_facts(m@, ks, starts@, ends@, c as int, n, prev_ptr as int, rp as int);
        }
        let prev = ends[prev_ptr].0 - 1;
        let mismatch_gap = if end_mismatch == prev {
            0
        } else {
            end_mismatch - prev - 1
        };
        if overshoot != mismatch_gap {
            (left + overshoot, right - overshoot, gap_size)
        } else {
            (left + overshoot + 1, right - overshoot - 1, gap_size)
        }
    }
}

/// Pairs every start with the last end within reach and reports the arm
/// between them, unless the start before it reaches as far, the gap is too
/// wide or the arm too short.
fn sweep(
    m: &Vec<usize>,
    starts: &Vec<(usize, usize)>,
    ends: &Vec<(usize, usize)>,
    params: &SearchParams,
    initial_gap: usize,
    c: usize,
    Ghost(n): Ghost<int>,
) -> (irs: Vec<(usize, usize, usize)>)
    requires
        sweep_ready(m@, stretches(m@, m.len() as int), starts@, ends@, c as int, n),
    ensures
        irs@ == center_irs_upto(
            m@,
            stretches(m@, m.len() as int),
            c as int,
            *params,
            initial_gap as int,
            stretches(m@, m.len() as int).len() as int,
        ),
{
    let ghost ks = stretches(m@, m.len() as int);
    let ghost mm = params.mismatches as int;
    let ghost gap = initial_gap as int;
    let total = starts.len();
    let mut irs: Vec<(usize, usize, usize)> = Vec::new();
    let mut sp: usize = 0;
    let mut ep: usize = 0;
    let mut gap_too_wide = false;
    proof {
        reveal(sweep_ready);
    }
    while !gap_too_wide && sp < total && ep < total
        invariant
            sweep_ready(m@, ks, starts@, ends@, c as int, n),
            ks == stretches(m@, m.len() as int),
            is_stretch_list(m@, ks),
            forall|a: int, b: int| 0 <= a < b < m@.len() ==> m@[a] < m@[b],
            mm == params.mismatches,
            gap == initial_gap,
            total == ks.len(),
            total == starts.len(),
            total == ends.len(),
            sp <= ep <= total,
            (sp == 0 && ep == 0) || (sp > 0 && ep == reach(ks, sp - 1, mm) + 1),
            irs@ == center_irs_upto(m@, ks, c as int, *params, gap, sp as int),
            gap_too_wide ==> irs@ == center_irs_upto(m@, ks, c as int, *params, gap, total as int),
        decreases (if gap_too_wide { 0 } else { 1 + total - sp }),
    {
        let end = ends[ep];
        let ghost sp_top = sp;
        proof {
            lemma_sweep_facts(m@, ks, starts@, ends@, c as int, n, sp as int, ep as int);
        }
        while end.1 - starts[sp].1 - 1 > params.mismatches
            invariant
                sweep_ready(m@, ks, starts@, ends@, c as int, n),
                is_stretch_list(m@, ks),
                mm == params.mismatches,
                total == ks.len(),
                total == starts.len(),
                total == ends.len(),
                sp_top <= sp <= ep < total,
                end == ends@[ep as int],
                end.1 == ks[ep as int] + 1,
                starts@[sp as int].1 == ks[sp as int],
                ks[sp as int] <= ks[ep as int],
                (sp == 0 && ep == 0) || (sp > 0 && ep == reach(ks, sp - 1, mm) + 1),
                irs@ == center_irs_upto(m@, ks, c as int, *params, gap, sp as int),
            decreases ep - sp,
        {
            proof {
                lemma_sweep_skip(m@, ks, *params, gap, sp as int, ep as int);
                lemma_sweep_facts(m@, ks, starts@, ends@, c as int, n, sp + 1, ep as int);
            }
            sp += 1;
        }
        let start = starts[sp];
        let start_mismatch = start.0;
        if start_mismatch >= initial_gap {
            proof {
                lemma_sweep_facts(m@, ks, starts@, ends@, c as int, n, sp as int, ep as int);
                lemma_sweep_gap_too_wide(m@, ks, c as int, *params, gap, sp as int);
            }
            gap_too_wide = true;
        } else {
            let ghost ep_top = ep;
            while ep < total && ends[ep].1 - start.1 - 1 <= params.mismatches
                invariant
                    sweep_ready(m@, ks, starts@, ends@, c as int, n),
                    mm == params.mismatches,
                    total == ks.len(),
                    total == ends.len(),
                    sp < total,
                    sp <= ep_top <= ep <= total,
                    start.1 == ks[sp as int],
                    ep < total ==> ends@[ep as int].1 == ks[ep as int] + 1 && ks[sp as int]
                        <= ks[ep as int],
                    ep == ep_top ==> ep < total && ks[ep as int] - ks[sp as int] <= mm,
                    ep > ep_top ==> ks[ep - 1] - ks[sp as int] <= mm,
                decreases total - ep,
            {
                ep += 1;
                proof {
                    if ep < total {
                        lemma_sweep_facts(
                            m@,
                            ks,
                            starts@,
                            ends@,
                            c as int,
                            n,
                            sp as int,
                            ep as int,
                        );
                    }
                }
            }
            proof {
                assert(ep > ep_top);
                lemma_reach_unique(ks, sp as int, ep - 1, mm);
                lemma_sweep_facts(m@, ks, starts@, ends@, c as int, n, sp as int, ep - 1);
            }
            let end_mismatch = ends[ep - 1].0 - 1;
            let ir_length = end_mismatch - start_mismatch;
            if ir_length >= params.min_len {
                let ir = arm_between(m, starts, ends, params, c, sp, ep - 1, Ghost(n));
                proof {
                    assert(emits(m@, ks, sp as int, *params, gap));
                }
                irs.push(ir);
            } else {
                proof {
                    assert(!emits(m@, ks, sp as int, *params, gap));
                }
            }
            sp += 1;
        }
    }
    proof {
        if !gap_too_wide && sp < total {
            lemma_sweep_exhausted(m@, ks, c as int, *params, gap, sp as int);
        }
    }
    irs
}

/// The inverted repeats around centre `c` of the doubled text `s` over a
/// sequence of `n` letters: one walk with mismatches from the centre outwards,
/// then one sweep over the stretches of matching letters that the walk found.
pub fn add_irs_at_this_center(
    s: &[u8],
    n: usize,
    inv_sa: &[usize],
    lcp: &[usize],
    rmq_prep: &[usize],
    params: &SearchParams,
    matrix: &MatchMatrix,
    c: usize,
) -> (irs: Vec<(usize, usize, usize)>)
    requires
        s.len() == 2 * n + 2,
        is_lce_index(s@, inv_sa@, lcp@, rmq_prep@),
        is_symbol_seq(s@),
        c + 2 <= 2 * n,
    ensures
        irs@ == irs_at_center(s@, n as int, *params, c as int),
{
    let is_max_gap_odd = params.max_gap % 2 == 1;
    let half_gap = params.max_gap / 2;
    let initial_gap = if is_max_gap_odd {
        half_gap + 1
    } else {
        half_gap + c % 2
    };
    let i = 1 + c / 2;
    let j = 2 * n + 1 - (c + 1) / 2;
    let mismatch_locs = real_lce_mismatches(
        s,
        i,
        j,
        inv_sa,
        lcp,
        rmq_prep,
        params.mismatches,
        initial_gap,
        matrix,
    );
    proof {
        lemma_mismatch_locs_grow(
            s@,
            i as int,
            j as int,
            params.mismatches as int,
            initial_gap as int,
            n - c / 2,
        );
        lemma_mismatch_locs_grow(
            s@,
            i as int,
            j as int,
            params.mismatches as int,
            initial_gap as int,
            (c + 1) / 2 + 1,
        );
    }
    let (valid_start_locs, valid_end_locs) = valid_locs(&mismatch_locs);
    proof {
        lemma_stretches(mismatch_locs@, mismatch_locs.len() as int);
        reveal(sweep_ready);
    }
    sweep(
        &mismatch_locs,
        &valid_start_locs,
        &valid_end_locs,
        params,
        initial_gap,
        c,
        Ghost(n as int),
    )
}

/// The inverted repeats of the doubled text `s`, centre by centre. A centre
/// closer than `min_len` to either end of the sequence has no room for an arm
/// and is left out.
pub fn add_irs(
    s: &[u8],
    inv_sa: &[usize],
    lcp: &[usize],
    rmq_prep: &[usize],
    params: &SearchParams,
    matrix: &MatchMatrix,
) -> (irs: Vec<(usize, usize, usize)>)
    requires
        s.len() >= 2,
        s.len() % 2 == 0,
        is_lce_index(s@, inv_sa@, lcp@, rmq_prep@),
        is_symbol_seq(s@),
        params.min_len >= 2,
    ensures
        irs@ == irs_in_centers(
            s@,
            s.len() / 2 - 1,
            *params,
            params.min_len as int,
            s.len() - 1 - params.min_len,
        ),
{
    let s_n = s.len();
    let n = s_n / 2 - 1;
    let first = params.min_len;
    let mut irs: Vec<(usize, usize, usize)> = Vec::new();
    if s_n - 1 <= first {
        return irs;
    }
    let last = s_n - 1 - first;
    let mut c = first;
    while c < last
        invariant
            s_n == s.len(),
            s_n == 2 * n + 2,
            is_lce_index(s@, inv_sa@, lcp@, rmq_prep@),
            is_symbol_seq(s@),
            first == params.min_len,
            first >= 2,
            last == s_n - 1 - first,
            first <= c,
            c <= last || c == first,
            irs@ == irs_in_centers(s@, n as int, *params, first as int, c as int),
        decreases last - c,
    {
        let mut found = add_irs_at_this_center(s, n, inv_sa, lcp, rmq_prep, params, matrix, c);
        irs.append(&mut found);
        c += 1;
    }
    irs
}

} // verus!
