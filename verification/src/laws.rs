//! What holds of every search, whatever the sequence and the parameters.

use crate::algo::{
    arm_end, center_irs_upto, center_locs, emits, initial_gap_at, ir_at, irs_at_center,
    irs_in_centers, is_offset_list, is_reach, is_stretch, is_stretch_list,
    lemma_mismatch_locs_grow, lemma_reach_from, lemma_stretches, reach, stretches,
};
use crate::config::SearchParams;
use crate::algo::{lemma_mismatch_offsets_grow, mismatch_locs, mismatch_offsets};
use crate::constants::{
    complement, is_iupac, is_iupac_seq, lemma_match_complement_swap, lemma_match_symmetric,
    symbols_match,
};
use crate::sort::{ir_order, lemma_ir_order_total};
use crate::text::double_text;
use crate::utils::{first_invalid, lemma_sanitize_fixes_iupac, lemma_sanitize_is_iupac, sanitize};
use crate::{find_irs_result, found_irs, inverted_repeats};
use vstd::prelude::*;
use vstd::relations::sorted_by;

verus! {

/// The number of letters in each arm of an inverted repeat.
pub open spec fn arm_length(ir: (usize, usize, usize)) -> int {
    (ir.1 - ir.0 + 1 - ir.2) / 2
}

/// The triple `x` is the inverted repeat around centre `c` whose arms start
/// after stretch `sp` of the walk from that centre.
pub open spec fn is_center_ir(
    t: Seq<u8>,
    n: int,
    params: SearchParams,
    c: int,
    sp: int,
    x: (usize, usize, usize),
) -> bool {
    let m = center_locs(t, n, params, c);
    let ks = stretches(m, m.len() as int);
    &&& 0 <= sp < ks.len()
    &&& emits(m, ks, sp, params, initial_gap_at(params.max_gap as int, c))
    &&& x == ir_at(
        c,
        m[ks[sp]] as int,
        arm_end(m, ks, sp, reach(ks, sp, params.mismatches as int), params.max_len as int),
    )
}

/// Every repeat in the list of one centre belongs to a start that is reported.
pub proof fn lemma_center_irs_origin(
    m: Seq<usize>,
    ks: Seq<int>,
    c: int,
    params: SearchParams,
    initial_gap: int,
    upto: int,
    k: int,
) -> (sp: int)
    requires
        0 <= k < center_irs_upto(m, ks, c, params, initial_gap, upto).len(),
    ensures
        0 <= sp < upto,
        emits(m, ks, sp, params, initial_gap),
        center_irs_upto(m, ks, c, params, initial_gap, upto)[k] == ir_at(
            c,
            m[ks[sp]] as int,
            arm_end(m, ks, sp, reach(ks, sp, params.mismatches as int), params.max_len as int),
        ),
    decreases upto,
{
    let before = center_irs_upto(m, ks, c, params, initial_gap, upto - 1);
    if k < before.len() {
        lemma_center_irs_origin(m, ks, c, params, initial_gap, upto - 1, k)
    } else {
        upto - 1
    }
}

/// Every repeat in the list of a range of centres is the repeat of one of
/// these centres and of one start of its walk.
pub proof fn lemma_irs_in_centers_origin(
    t: Seq<u8>,
    n: int,
    params: SearchParams,
    lo: int,
    hi: int,
    k: int,
) -> (r: (int, int))
    requires
        0 <= k < irs_in_centers(t, n, params, lo, hi).len(),
    ensures
        lo <= r.0 < hi,
        is_center_ir(t, n, params, r.0, r.1, irs_in_centers(t, n, params, lo, hi)[k]),
    decreases hi - lo,
{
    let before = irs_in_centers(t, n, params, lo, hi - 1);
    if k < before.len() {
        lemma_irs_in_centers_origin(t, n, params, lo, hi - 1, k)
    } else {
        let c = hi - 1;
        let m = center_locs(t, n, params, c);
        let ks = stretches(m, m.len() as int);
        lemma_stretches(m, m.len() as int);
        let sp = lemma_center_irs_origin(
            m,
            ks,
            c,
            params,
            initial_gap_at(params.max_gap as int, c),
            ks.len() as int,
            k - before.len(),
        );
        (c, sp)
    }
}

/// Every repeat of the report is the repeat of one centre of the sequence and
/// of one start of the walk from that centre.
pub proof fn lemma_reported_origin(params: SearchParams, s: Seq<u8>, k: int) -> (r: (int, int))
    requires
        0 <= k < inverted_repeats(params, s).len(),
    ensures
        params.min_len <= r.0 < 2 * s.len() + 1 - params.min_len,
        is_center_ir(double_text(s), s.len() as int, params, r.0, r.1, inverted_repeats(params, s)[k]),
{
    let found = found_irs(params, s);
    let x = inverted_repeats(params, s)[k];
    lemma_ir_order_total();
    found.lemma_sort_by_ensures(ir_order());
    assert(inverted_repeats(params, s).contains(x));
    assert(found.contains(x));
    let i = choose|i: int| 0 <= i < found.len() && found[i] == x;
    lemma_irs_in_centers_origin(
        double_text(s),
        s.len() as int,
        params,
        params.min_len as int,
        2 * s.len() + 1 - params.min_len,
        i,
    )
}

/// The walk from a centre of the sequence stays inside the sequence.
pub proof fn lemma_center_facts(t: Seq<u8>, n: int, params: SearchParams, c: int)
    requires
        t.len() == 2 * n + 2,
        2 * n + 2 <= usize::MAX,
        0 <= c,
        c + 2 <= 2 * n,
    ensures
        is_offset_list(center_locs(t, n, params, c), n - c / 2),
        is_offset_list(center_locs(t, n, params, c), (c + 1) / 2 + 1),
        is_stretch_list(
            center_locs(t, n, params, c),
            stretches(center_locs(t, n, params, c), center_locs(t, n, params, c).len() as int),
        ),
{
    let gap = initial_gap_at(params.max_gap as int, c);
    let i = 1 + c / 2;
    let j = 2 * n + 1 - (c + 1) / 2;
    lemma_mismatch_locs_grow(t, i, j, params.mismatches as int, gap, n - c / 2);
    lemma_mismatch_locs_grow(t, i, j, params.mismatches as int, gap, (c + 1) / 2 + 1);
    let m = center_locs(t, n, params, c);
    lemma_stretches(m, m.len() as int);
}

/// Where the arms of a reported repeat begin and end, as offsets from its centre.
pub proof fn lemma_arm_facts(t: Seq<u8>, n: int, params: SearchParams, c: int, sp: int)
    requires
        t.len() == 2 * n + 2,
        2 * n + 2 <= usize::MAX,
        0 <= c,
        c + 2 <= 2 * n,
        params.valid(),
        0 <= sp < stretches(center_locs(t, n, params, c), center_locs(t, n, params, c).len() as int).len(),
        emits(
            center_locs(t, n, params, c),
            stretches(center_locs(t, n, params, c), center_locs(t, n, params, c).len() as int),
            sp,
            params,
            initial_gap_at(params.max_gap as int, c),
        ),
    ensures
        ({
            let m = center_locs(t, n, params, c);
            let ks = stretches(m, m.len() as int);
            let rp = reach(ks, sp, params.mismatches as int);
            let start = m[ks[sp]] as int;
            let end = m[ks[rp] + 1] - 1;
            let e = arm_end(m, ks, sp, rp, params.max_len as int);
            &&& is_reach(ks, sp, rp, params.mismatches as int)
            &&& is_stretch(m, ks[sp])
            &&& is_stretch(m, ks[rp])
            &&& 0 <= start < e <= end
            &&& end <= (c + 1) / 2
            &&& c / 2 + end < n
            &&& start < initial_gap_at(params.max_gap as int, c)
            &&& e - start <= params.max_len
            &&& e - start >= params.min_len || (params.min_len == params.max_len && e - start
                == params.max_len - 1)
            &&& e == end || e == start + params.max_len || (e == start + params.max_len - 1 && rp
                >= 1 && sp < rp && m[ks[rp - 1] + 1] == e + 1)
        }),
{
    let m = center_locs(t, n, params, c);
    let ks = stretches(m, m.len() as int);
    let mm = params.mismatches as int;
    let rp = reach(ks, sp, mm);
    lemma_center_facts(t, n, params, c);
    lemma_reach_from(ks, sp, sp, mm);
    assert(is_stretch(m, ks[sp]));
    assert(is_stretch(m, ks[rp]));
    assert(m[ks[sp]] < m[ks[sp] + 1]);
    assert(m[ks[rp]] < m[ks[rp] + 1]);
    if sp < rp {
        assert(ks[sp] < ks[rp]);
        assert(m[ks[sp] + 1] < m[ks[rp] + 1]);
    }
    let start = m[ks[sp]] as int;
    let end = m[ks[rp] + 1] - 1;
    if end - start > params.max_len && rp >= 1 && m[ks[rp - 1] + 1] == start + params.max_len {
        assert(is_stretch(m, ks[rp - 1]));
        if rp - 1 < sp {
            assert(ks[rp - 1] < ks[sp]);
            if ks[rp - 1] + 1 < ks[sp] {
                assert(m[ks[rp - 1] + 1] < m[ks[sp]]);
            }
        }
    }
}

/// Every reported repeat lies inside the sequence, its two arms have the same
/// length, and its gap is no wider than `max_gap`. Its arms hold at most
/// `max_len` letters and at least `min_len`; only where both limits are equal
/// and a cut to `max_len` fell on a mismatch do they hold one letter less.
pub proof fn law_repeats_within_bounds(params: SearchParams, s: Seq<u8>, k: int)
    requires
        params.valid(),
        params.min_len < s.len(),
        2 * s.len() + 2 <= usize::MAX,
        0 <= k < inverted_repeats(params, s).len(),
    ensures
        ({
            let (l, r, g) = inverted_repeats(params, s)[k];
            &&& 0 <= l < r < s.len()
            &&& (r - l + 1 - g) % 2 == 0
            &&& r - l + 1 - g > 0
            &&& g <= params.max_gap
            &&& arm_length((l, r, g)) <= params.max_len
            &&& params.min_len <= arm_length((l, r, g)) || (params.min_len == params.max_len
                && arm_length((l, r, g)) == params.max_len - 1)
        }),
{
    let (c, sp) = lemma_reported_origin(params, s, k);
    let n = s.len() as int;
    let t = double_text(s);
    crate::text::lemma_double_text(s);
    lemma_arm_facts(t, n, params, c, sp);
}

/// With room between the two limits, the arms of every reported repeat hold
/// at least `min_len` and at most `max_len` letters.
pub proof fn law_arm_length_within_limits(params: SearchParams, s: Seq<u8>, k: int)
    requires
        params.valid(),
        params.min_len < params.max_len,
        params.min_len < s.len(),
        2 * s.len() + 2 <= usize::MAX,
        0 <= k < inverted_repeats(params, s).len(),
    ensures
        params.min_len <= arm_length(inverted_repeats(params, s)[k]) <= params.max_len,
{
    law_repeats_within_bounds(params, s, k);
}

/// The report is sorted, and it is the only sorted arrangement of what the
/// centres yield: a search has one result.
pub proof fn law_report_is_sorted(params: SearchParams, s: Seq<u8>)
    ensures
        sorted_by(inverted_repeats(params, s), ir_order()),
        inverted_repeats(params, s).to_multiset() == found_irs(params, s).to_multiset(),
{
    lemma_ir_order_total();
    found_irs(params, s).lemma_sort_by_ensures(ir_order());
}

/// Newlines and the case of the letters do not change what a search returns.
pub proof fn law_sanitized_input_same_result(params: SearchParams, seq: Seq<u8>)
    requires
        first_invalid(seq) is None,
    ensures
        find_irs_result(params, seq) == find_irs_result(params, sanitize(seq)),
{
    lemma_sanitize_is_iupac(seq);
    lemma_sanitize_fixes_iupac(sanitize(seq));
}

/// The repeats around one centre have their first and last positions at equal
/// distance from the centre, and each has a wider gap than the one before it.
pub proof fn lemma_center_irs_distinct(t: Seq<u8>, n: int, params: SearchParams, c: int, upto: int)
    requires
        t.len() == 2 * n + 2,
        2 * n + 2 <= usize::MAX,
        0 <= c,
        c + 2 <= 2 * n,
        params.valid(),
        0 <= upto <= stretches(
            center_locs(t, n, params, c),
            center_locs(t, n, params, c).len() as int,
        ).len(),
    ensures
        ({
            let m = center_locs(t, n, params, c);
            let ks = stretches(m, m.len() as int);
            let found = center_irs_upto(
                m,
                ks,
                c,
                params,
                initial_gap_at(params.max_gap as int, c),
                upto,
            );
            &&& found.no_duplicates()
            &&& forall|k: int|
                0 <= k < found.len() ==> (#[trigger] found[k]).0 + found[k].1 == c && found[k].2
                    + c % 2 <= 2 * m[ks[upto - 1]] + 1
        }),
    decreases upto,
{
    let m = center_locs(t, n, params, c);
    let ks = stretches(m, m.len() as int);
    let gap = initial_gap_at(params.max_gap as int, c);
    let found = center_irs_upto(m, ks, c, params, gap, upto);
    if upto > 0 {
        let sp = upto - 1;
        let before = center_irs_upto(m, ks, c, params, gap, sp);
        lemma_center_irs_distinct(t, n, params, c, sp);
        lemma_center_facts(t, n, params, c);
        assert(is_stretch(m, ks[sp]));
        if sp >= 1 {
            assert(is_stretch(m, ks[sp - 1]));
            assert(ks[sp - 1] < ks[sp]);
            assert(m[ks[sp - 1]] < m[ks[sp]]);
        }
        if emits(m, ks, sp, params, gap) {
            lemma_arm_facts(t, n, params, c, sp);
            let x = ir_at(
                c,
                m[ks[sp]] as int,
                arm_end(m, ks, sp, reach(ks, sp, params.mismatches as int), params.max_len as int),
            );
            assert(found == before.push(x));
            assert(x.0 + x.1 == c);
            assert(x.2 + c % 2 == 2 * m[ks[sp]] + 1);
            assert forall|k: int| 0 <= k < found.len() implies (#[trigger] found[k]).0
                + found[k].1 == c && found[k].2 + c % 2 <= 2 * m[ks[upto - 1]] + 1 by {
                if k < before.len() {
                    assert(found[k] == before[k]);
                }
            }
            assert forall|i: int, j: int|
                0 <= i < found.len() && 0 <= j < found.len() && i != j implies found[i]
                != found[j] by {
                if i < before.len() {
                    assert(found[i] == before[i]);
                }
                if j < before.len() {
                    assert(found[j] == before[j]);
                }
            }
        } else {
            assert(found == before);
            assert forall|k: int| 0 <= k < found.len() implies (#[trigger] found[k]).0
                + found[k].1 == c && found[k].2 + c % 2 <= 2 * m[ks[upto - 1]] + 1 by {
                assert(found[k] == before[k]);
            }
        }
    }
}

/// The repeats of a range of centres are all different: the first and the
/// last position of a repeat add up to its centre.
pub proof fn lemma_irs_in_centers_distinct(
    t: Seq<u8>,
    n: int,
    params: SearchParams,
    lo: int,
    hi: int,
)
    requires
        t.len() == 2 * n + 2,
        2 * n + 2 <= usize::MAX,
        0 <= lo,
        hi + 1 <= 2 * n,
        params.valid(),
    ensures
        irs_in_centers(t, n, params, lo, hi).no_duplicates(),
        forall|k: int|
            0 <= k < irs_in_centers(t, n, params, lo, hi).len() ==> lo <= (#[trigger] irs_in_centers(
                t,
                n,
                params,
                lo,
                hi,
            )[k]).0 + irs_in_centers(t, n, params, lo, hi)[k].1 < hi,
    decreases hi - lo,
{
    if lo < hi {
        let c = hi - 1;
        let before = irs_in_centers(t, n, params, lo, c);
        let here = irs_at_center(t, n, params, c);
        let all = irs_in_centers(t, n, params, lo, hi);
        lemma_irs_in_centers_distinct(t, n, params, lo, c);
        let m = center_locs(t, n, params, c);
        let ks = stretches(m, m.len() as int);
        lemma_center_irs_distinct(t, n, params, c, ks.len() as int);
        assert(all == before + here);
        assert forall|i: int, j: int| 0 <= i < before.len() && 0 <= j < here.len() implies before[i]
            != here[j] by {
            assert(before[i].0 + before[i].1 < c);
            assert(here[j].0 + here[j].1 == c);
        }
        vstd::seq_lib::lemma_no_dup_in_concat(before, here);
        assert forall|k: int| 0 <= k < all.len() implies lo <= (#[trigger] all[k]).0 + all[k].1
            < hi by {
            if k < before.len() {
                assert(all[k] == before[k]);
            } else {
                assert(all[k] == here[k - before.len()]);
            }
        }
    }
}

/// No inverted repeat is reported twice.
pub proof fn law_no_duplicates(params: SearchParams, s: Seq<u8>)
    requires
        params.valid(),
        params.min_len < s.len(),
        2 * s.len() + 2 <= usize::MAX,
    ensures
        inverted_repeats(params, s).no_duplicates(),
{
    let found = found_irs(params, s);
    crate::text::lemma_double_text(s);
    lemma_irs_in_centers_distinct(
        double_text(s),
        s.len() as int,
        params,
        params.min_len as int,
        2 * s.len() + 1 - params.min_len,
    );
    lemma_ir_order_total();
    found.lemma_sort_by_ensures(ir_order());
    found.lemma_multiset_has_no_duplicates();
    inverted_repeats(params, s).lemma_multiset_has_no_duplicates_conv();
}

/// The letters at `l` and at `r` pair up: the first matches the complement of
/// the second.
pub open spec fn pair_matches(s: Seq<u8>, l: int, r: int) -> bool {
    symbols_match(s[l], complement(s[r]))
}

/// The number of pairs that do not match when the `len` letters from `l` on
/// are held against the `len` letters that end at `r`, read backwards and
/// complemented.
pub open spec fn arm_mismatches(s: Seq<u8>, l: int, r: int, len: int) -> nat
    decreases len,
{
    if len <= 0 {
        0
    } else {
        arm_mismatches(s, l, r, len - 1) + if pair_matches(s, l + len - 1, r - (len - 1)) {
            0nat
        } else {
            1nat
        }
    }
}

/// The letters at offset `d` of the walk from `i` and `j` do not match.
pub open spec fn mismatch_at(t: Seq<u8>, i: int, j: int, d: int) -> bool {
    !symbols_match(t[i + d - 1], t[j + d - 1])
}

/// The number of offsets above `lo` and up to `hi` at which the letters of the
/// walk from `i` and `j` do not match.
pub open spec fn mismatches_between(t: Seq<u8>, i: int, j: int, lo: int, hi: int) -> nat
    decreases hi - lo,
{
    if hi <= lo {
        0
    } else {
        mismatches_between(t, i, j, lo, hi - 1) + if mismatch_at(t, i, j, hi) {
            1nat
        } else {
            0nat
        }
    }
}

/// The mismatches up to `hi` are those up to `mid` and those after it.
pub proof fn lemma_mismatches_between_split(
    t: Seq<u8>,
    i: int,
    j: int,
    lo: int,
    mid: int,
    hi: int,
)
    requires
        lo <= mid <= hi,
    ensures
        mismatches_between(t, i, j, lo, hi) == mismatches_between(t, i, j, lo, mid)
            + mismatches_between(t, i, j, mid, hi),
    decreases hi - mid,
{
    if mid < hi {
        lemma_mismatches_between_split(t, i, j, lo, mid, hi - 1);
    }
}

/// Where no mismatch is counted, every pair matches.
pub proof fn lemma_no_mismatch_between(t: Seq<u8>, i: int, j: int, lo: int, hi: int, d: int)
    requires
        mismatches_between(t, i, j, lo, hi) == 0,
        lo < d <= hi,
    ensures
        !mismatch_at(t, i, j, d),
    decreases hi - lo,
{
    if d < hi {
        lemma_no_mismatch_between(t, i, j, lo, hi - 1, d);
    }
}

/// The walk lists every mismatch that it passes: the letters at a listed
/// offset do not match, and before the `k`-th listed offset lie `k` mismatches.
pub proof fn lemma_walk_counts(
    t: Seq<u8>,
    i: int,
    j: int,
    from: int,
    budget: int,
    initial_gap: int,
    k: int,
)
    requires
        t.len() <= usize::MAX,
        0 <= k < mismatch_offsets(t, i, j, from, budget, initial_gap).len(),
    ensures
        mismatch_at(t, i, j, mismatch_offsets(t, i, j, from, budget, initial_gap)[k] as int),
        mismatches_between(
            t,
            i,
            j,
            from,
            mismatch_offsets(t, i, j, from, budget, initial_gap)[k] - 1,
        ) == k,
    decreases t.len() - (j + from),
{
    let offs = mismatch_offsets(t, i, j, from, budget, initial_gap);
    if !symbols_match(t[i + from], t[j + from]) {
        let left = if from + 1 >= initial_gap {
            budget - 1
        } else {
            budget
        };
        let rest = mismatch_offsets(t, i, j, from + 1, left, initial_gap);
        assert(offs == seq![(from + 1) as usize] + rest);
        if k == 0 {
            assert(offs[0] == from + 1);
        } else {
            assert(offs[k] == rest[k - 1]);
            lemma_walk_counts(t, i, j, from + 1, left, initial_gap, k - 1);
            lemma_mismatch_offsets_grow(t, i, j, from + 1, left, initial_gap);
            lemma_mismatches_between_split(t, i, j, from, from + 1, rest[k - 1] - 1);
            assert(mismatches_between(t, i, j, from, from + 1) == 1) by {
                assert(mismatches_between(t, i, j, from, from) == 0);
            }
        }
    } else {
        let rest = mismatch_offsets(t, i, j, from + 1, budget, initial_gap);
        assert(offs == rest);
        lemma_walk_counts(t, i, j, from + 1, budget, initial_gap, k);
        lemma_mismatch_offsets_grow(t, i, j, from + 1, budget, initial_gap);
        lemma_mismatches_between_split(t, i, j, from, from + 1, rest[k] - 1);
        assert(mismatches_between(t, i, j, from, from + 1) == 0) by {
            assert(mismatches_between(t, i, j, from, from) == 0);
        }
    }
}

/// Between two listed offsets lie exactly the mismatches listed between them.
pub proof fn lemma_locs_counts(
    t: Seq<u8>,
    i: int,
    j: int,
    mismatches: int,
    initial_gap: int,
    a: int,
    b: int,
)
    requires
        t.len() <= usize::MAX,
        0 <= a < b < mismatch_locs(t, i, j, mismatches, initial_gap).len(),
    ensures
        mismatches_between(
            t,
            i,
            j,
            mismatch_locs(t, i, j, mismatches, initial_gap)[a] as int,
            mismatch_locs(t, i, j, mismatches, initial_gap)[b] - 1,
        ) == b - a - 1,
{
    let m = mismatch_locs(t, i, j, mismatches, initial_gap);
    let offs = mismatch_offsets(t, i, j, 0, mismatches, initial_gap);
    assert(m[b] == offs[b - 1]);
    lemma_walk_counts(t, i, j, 0, mismatches, initial_gap, b - 1);
    lemma_mismatch_offsets_grow(t, i, j, 0, mismatches, initial_gap);
    if a > 0 {
        assert(m[a] == offs[a - 1]);
        lemma_walk_counts(t, i, j, 0, mismatches, initial_gap, a - 1);
        assert(offs[a - 1] < offs[b - 1]);
        lemma_mismatches_between_split(t, i, j, 0, m[a] as int, m[b] - 1);
    }
}

/// A pair of the sequence at the same distance from a centre is the pair that
/// the walk from that centre compares in the doubled text.
pub proof fn lemma_pair_at_offset(s: Seq<u8>, c: int, d: int)
    requires
        is_iupac_seq(s),
        0 <= c,
        1 <= d <= (c + 1) / 2,
        c / 2 + d < s.len(),
    ensures
        pair_matches(s, (c + 1) / 2 - d, c / 2 + d) == !mismatch_at(
            double_text(s),
            1 + c / 2,
            2 * s.len() + 1 - (c + 1) / 2,
            d,
        ),
{
    let n = s.len() as int;
    let t = double_text(s);
    crate::text::lemma_double_text(s);
    let x = s[c / 2 + d];
    let y = s[(c + 1) / 2 - d];
    assert(is_iupac(x));
    assert(is_iupac(y));
    assert(t[1 + c / 2 + d - 1] == x);
    let back = n - 1 + d - (c + 1) / 2;
    assert(t[n + 1 + back] == complement(s[n - 1 - back]));
    assert(t[2 * n + 1 - (c + 1) / 2 + d - 1] == complement(y));
    lemma_match_complement_swap(x, y);
    lemma_match_symmetric(complement(x), y);
}

/// The mismatches of an arm are the mismatches that the walk passes on it.
pub proof fn lemma_arm_is_walk(s: Seq<u8>, c: int, e: int, len: int)
    requires
        is_iupac_seq(s),
        0 <= c,
        0 <= len <= e <= (c + 1) / 2,
        c / 2 + e < s.len(),
    ensures
        arm_mismatches(s, (c + 1) / 2 - e, c / 2 + e, len) == mismatches_between(
            double_text(s),
            1 + c / 2,
            2 * s.len() + 1 - (c + 1) / 2,
            e - len,
            e,
        ),
    decreases len,
{
    let t = double_text(s);
    let i = 1 + c / 2;
    let j = 2 * s.len() + 1 - (c + 1) / 2;
    if len > 0 {
        lemma_arm_is_walk(s, c, e, len - 1);
        let d = e - len + 1;
        lemma_pair_at_offset(s, c, d);
        lemma_mismatches_between_split(t, i, j, e - len, d, e);
        assert(mismatches_between(t, i, j, e - len, d) == if mismatch_at(t, i, j, d) {
            1nat
        } else {
            0nat
        }) by {
            assert(mismatches_between(t, i, j, e - len, e - len) == 0);
        }
    }
}

/// Held against each other, the arms of a reported repeat differ in at most
/// `mismatches` places.
pub proof fn law_mismatches_within_budget(params: SearchParams, s: Seq<u8>, k: int)
    requires
        params.valid(),
        params.min_len < s.len(),
        is_iupac_seq(s),
        2 * s.len() + 2 <= usize::MAX,
        0 <= k < inverted_repeats(params, s).len(),
    ensures
        ({
            let (l, r, g) = inverted_repeats(params, s)[k];
            arm_mismatches(s, l as int, r as int, arm_length((l, r, g))) <= params.mismatches
        }),
{
    let (c, sp) = lemma_reported_origin(params, s, k);
    let n = s.len() as int;
    let t = double_text(s);
    crate::text::lemma_double_text(s);
    lemma_arm_facts(t, n, params, c, sp);
    let m = center_locs(t, n, params, c);
    let ks = stretches(m, m.len() as int);
    let rp = reach(ks, sp, params.mismatches as int);
    let start = m[ks[sp]] as int;
    let end = m[ks[rp] + 1] - 1;
    let e = arm_end(m, ks, sp, rp, params.max_len as int);
    let i = 1 + c / 2;
    let j = 2 * n + 1 - (c + 1) / 2;
    let gap = initial_gap_at(params.max_gap as int, c);
    lemma_center_facts(t, n, params, c);
    lemma_arm_is_walk(s, c, e, e - start);
    lemma_mismatches_between_split(t, i, j, start, e, end);
    if sp < rp {
        assert(ks[sp] < ks[rp]);
    }
    lemma_locs_counts(t, i, j, params.mismatches as int, gap, ks[sp], ks[rp] + 1);
}

/// The outermost letters of a reported repeat pair up, unless its arms were cut
/// to `max_len` letters and more than one mismatch is allowed: such a cut can
/// then fall on a mismatch.
pub proof fn law_ends_at_matching_pair(params: SearchParams, s: Seq<u8>, k: int)
    requires
        params.valid(),
        params.min_len < s.len(),
        is_iupac_seq(s),
        2 * s.len() + 2 <= usize::MAX,
        0 <= k < inverted_repeats(params, s).len(),
        params.mismatches <= 1 || arm_length(inverted_repeats(params, s)[k]) < params.max_len,
    ensures
        pair_matches(
            s,
            inverted_repeats(params, s)[k].0 as int,
            inverted_repeats(params, s)[k].1 as int,
        ),
{
    let (c, sp) = lemma_reported_origin(params, s, k);
    let n = s.len() as int;
    let t = double_text(s);
    crate::text::lemma_double_text(s);
    lemma_arm_facts(t, n, params, c, sp);
    let m = center_locs(t, n, params, c);
    let ks = stretches(m, m.len() as int);
    let mm = params.mismatches as int;
    let rp = reach(ks, sp, mm);
    let start = m[ks[sp]] as int;
    let end = m[ks[rp] + 1] - 1;
    let e = arm_end(m, ks, sp, rp, params.max_len as int);
    let i = 1 + c / 2;
    let j = 2 * n + 1 - (c + 1) / 2;
    let gap = initial_gap_at(params.max_gap as int, c);
    lemma_center_facts(t, n, params, c);
    lemma_pair_at_offset(s, c, e);
    if e == end {
        lemma_locs_counts(t, i, j, mm, gap, ks[rp], ks[rp] + 1);
        lemma_no_mismatch_between(t, i, j, m[ks[rp]] as int, end, e);
    } else if e == start + params.max_len - 1 && rp >= 1 && sp < rp && m[ks[rp - 1] + 1] == e + 1 {
        assert(is_stretch(m, ks[rp - 1]));
        lemma_locs_counts(t, i, j, mm, gap, ks[rp - 1], ks[rp - 1] + 1);
        lemma_no_mismatch_between(t, i, j, m[ks[rp - 1]] as int, e, e);
    } else {
        assert(params.mismatches <= 1);
        if sp == rp {
            lemma_locs_counts(t, i, j, mm, gap, ks[sp], ks[sp] + 1);
            lemma_no_mismatch_between(t, i, j, start, end, e);
        } else {
            assert(ks[sp] < ks[rp]);
            assert(ks[rp] == ks[sp] + 1);
            if sp + 1 < rp {
                assert(ks[sp] < ks[sp + 1]);
                assert(ks[sp + 1] < ks[rp]);
            }
            assert(rp == sp + 1);
            if e < m[ks[sp] + 1] {
                lemma_locs_counts(t, i, j, mm, gap, ks[sp], ks[sp] + 1);
                lemma_no_mismatch_between(t, i, j, start, m[ks[sp] + 1] - 1, e);
            } else {
                lemma_locs_counts(t, i, j, mm, gap, ks[rp], ks[rp] + 1);
                lemma_no_mismatch_between(t, i, j, m[ks[rp]] as int, end, e);
            }
        }
    }
}

/// Every reported repeat can be rendered against the sequence that it was
/// found in.
pub proof fn law_report_fits_sequence(params: SearchParams, s: Seq<u8>)
    requires
        params.valid(),
        params.min_len < s.len(),
        2 * s.len() + 2 <= usize::MAX,
    ensures
        crate::format::all_fit(inverted_repeats(params, s), s.len() as int),
{
    assert forall|k: int| 0 <= k < inverted_repeats(params, s).len() implies crate::format::fits_sequence(
        #[trigger] inverted_repeats(params, s)[k],
        s.len() as int,
    ) by {
        law_repeats_within_bounds(params, s, k);
    }
}

/// Every output format is found by the name that it gives itself.
pub proof fn law_format_found_by_name(format: crate::constants::OutputFormat)
    ensures
        crate::constants::format_named(format.spec_name()) == Some(format),
{
    reveal_strlit("classic");
    reveal_strlit("csv");
    reveal_strlit("custom");
    assert("classic"@.len() == 7);
    assert("csv"@.len() == 3);
    assert("custom"@.len() == 6);
}

} // verus!
