//! Range-minimum queries over an array, answered from a sparse table.

use vstd::arithmetic::power2::{lemma2_to64, lemma_pow2_pos, lemma_pow2_unfold, pow2};
use vstd::prelude::*;

verus! {

/// The base-2 logarithm of `v`, rounded down; 0 for `v <= 1`.
pub open spec fn floor_log2(v: int) -> nat
    decreases v,
{
    if v <= 1 {
        0
    } else {
        1 + floor_log2(v / 2)
    }
}

/// The number of columns of the sparse table over an array of length `n`: one
/// for each power of two that does not exceed `n`.
pub open spec fn table_columns(n: int) -> int {
    floor_log2(n) as int + 1
}

/// The number of cells of the sparse table over an array of length `n`.
pub open spec fn table_len(n: int) -> int {
    n * table_columns(n)
}

/// `m` is the last position in `[lo, hi)` at which `a` is smallest.
pub open spec fn is_rightmost_min(a: Seq<usize>, lo: int, hi: int, m: int) -> bool {
    &&& lo <= m < hi
    &&& forall|p: int| lo <= p < hi ==> a[m] <= #[trigger] a[p]
    &&& forall|p: int| m < p < hi ==> a[m] < #[trigger] a[p]
}

/// The last position in `[lo, hi)` at which `a` is smallest; `lo` for an empty range.
pub open spec fn rightmost_min(a: Seq<usize>, lo: int, hi: int) -> int
    decreases hi - lo,
{
    if hi - lo <= 1 {
        lo
    } else {
        let m = rightmost_min(a, lo, hi - 1);
        if a[m] < a[hi - 1] {
            m
        } else {
            hi - 1
        }
    }
}

/// The smallest value of `a` over `[lo, hi)`.
pub open spec fn range_min(a: Seq<usize>, lo: int, hi: int) -> usize {
    a[rightmost_min(a, lo, hi)]
}

/// The cell of the table for the window of length `2^k` that starts at `i`.
pub open spec fn cell(table: Seq<usize>, cols: int, i: int, k: int) -> usize {
    table[i * cols + k]
}

/// `table` is the sparse table over `a`: row by row, the cell for start `i` and
/// column `k` holds the last position of the minimum of `a` over the window
/// `[i, i + 2^k)`, and 0 where that window does not fit.
pub open spec fn is_sparse_table(table: Seq<usize>, a: Seq<usize>) -> bool {
    &&& table.len() == table_len(a.len() as int)
    &&& forall|i: int, k: int|
        0 <= i < a.len() && 0 <= k < table_columns(a.len() as int) ==> #[trigger] cell(
            table,
            table_columns(a.len() as int),
            i,
            k,
        ) == (if i + pow2(k as nat) <= a.len() {
            rightmost_min(a, i, i + pow2(k as nat))
        } else {
            0
        })
}

/// What a query over the positions `l..=r` returns: the table splits the range
/// into two windows of the largest power-of-two length that fits, one starting
/// at `l` and one ending at `r`, and the first window wins a tie.
pub open spec fn range_min_index(a: Seq<usize>, l: int, r: int) -> int {
    let span = pow2(floor_log2(r - l + 1)) as int;
    let first = rightmost_min(a, l, l + span);
    let second = rightmost_min(a, r - span + 1, r + 1);
    if a[first] > a[second] {
        second
    } else {
        first
    }
}

/// The first two powers of two.
pub proof fn lemma_pow2_values()
    ensures
        pow2(0) == 1,
        pow2(1) == 2,
{
    lemma2_to64();
}

/// `2^floor_log2(v) <= v < 2^(floor_log2(v) + 1)` for positive `v`.
pub proof fn lemma_floor_log2_bounds(v: int)
    requires
        v >= 1,
    ensures
        pow2(floor_log2(v)) <= v < 2 * pow2(floor_log2(v)),
        floor_log2(v) < v,
    decreases v,
{
    lemma_pow2_values();
    if v > 1 {
        lemma_floor_log2_bounds(v / 2);
        lemma_pow2_unfold(floor_log2(v));
    }
}

/// The exponent of the largest power of two that does not exceed `v` is `floor_log2(v)`.
pub proof fn lemma_floor_log2_unique(v: int, k: nat)
    requires
        pow2(k) <= v < 2 * pow2(k),
    ensures
        k == floor_log2(v),
    decreases k,
{
    lemma_pow2_values();
    lemma_pow2_pos(k);
    if k == 0 {
    } else {
        lemma_pow2_unfold(k);
        lemma_floor_log2_unique(v / 2, (k - 1) as nat);
    }
}

/// `floor_log2` does not decrease as its argument grows.
pub proof fn lemma_floor_log2_monotonic(v: int, w: int)
    requires
        1 <= v <= w,
    ensures
        floor_log2(v) <= floor_log2(w),
    decreases w,
{
    if v > 1 {
        lemma_floor_log2_monotonic(v / 2, w / 2);
    }
}

/// Powers of two grow with the exponent.
pub proof fn lemma_pow2_monotonic(j: nat, k: nat)
    requires
        j <= k,
    ensures
        pow2(j) <= pow2(k),
    decreases k - j,
{
    lemma_pow2_pos(j);
    if j < k {
        lemma_pow2_unfold(k);
        lemma_pow2_monotonic(j, (k - 1) as nat);
    }
}

/// A longer array has no smaller table.
pub proof fn lemma_table_len_monotonic(v: int, w: int)
    requires
        0 <= v <= w,
    ensures
        0 <= table_len(v) <= table_len(w),
{
    if v >= 1 {
        lemma_floor_log2_monotonic(v, w);
    }
    let a = table_columns(v);
    let b = table_columns(w);
    if v == 0 {
        assert(0 <= v * a <= w * b) by (nonlinear_arith)
            requires
                v == 0,
                0 <= w,
                1 <= b,
        ;
    } else {
        assert(0 <= v * a <= w * b) by (nonlinear_arith)
            requires
                0 <= v <= w,
                1 <= a <= b,
        ;
    }
}

/// [`rightmost_min`] is the last position of the minimum.
pub proof fn lemma_rightmost_min(a: Seq<usize>, lo: int, hi: int)
    requires
        0 <= lo < hi <= a.len(),
    ensures
        is_rightmost_min(a, lo, hi, rightmost_min(a, lo, hi)),
    decreases hi - lo,
{
    if hi - lo > 1 {
        lemma_rightmost_min(a, lo, hi - 1);
    }
}

/// The last position of the minimum is unique.
pub proof fn lemma_rightmost_min_unique(a: Seq<usize>, lo: int, hi: int, m: int)
    requires
        0 <= lo < hi <= a.len(),
        is_rightmost_min(a, lo, hi, m),
    ensures
        m == rightmost_min(a, lo, hi),
{
    lemma_rightmost_min(a, lo, hi);
    let w = rightmost_min(a, lo, hi);
    if m < w {
        assert(a[m] < a[w]);
        assert(a[w] <= a[m]);
    } else if w < m {
        assert(a[w] < a[m]);
        assert(a[m] <= a[w]);
    }
}

/// The minimum over two windows that cover a range, taken as the table builds
/// it: the right window wins a tie.
pub proof fn lemma_rightmost_min_join(a: Seq<usize>, lo: int, mid: int, from: int, hi: int)
    requires
        0 <= lo < mid <= hi <= a.len(),
        lo <= from <= mid,
        from < hi,
    ensures
        rightmost_min(a, lo, hi) == (if a[rightmost_min(a, lo, mid)] < a[rightmost_min(
            a,
            from,
            hi,
        )] {
            rightmost_min(a, lo, mid)
        } else {
            rightmost_min(a, from, hi)
        }),
{
    lemma_rightmost_min(a, lo, mid);
    lemma_rightmost_min(a, from, hi);
    let left = rightmost_min(a, lo, mid);
    let right = rightmost_min(a, from, hi);
    let m = if a[left] < a[right] {
        left
    } else {
        right
    };
    assert forall|p: int| lo <= p < hi implies a[m] <= #[trigger] a[p] by {
        if p < mid {
            assert(a[left] <= a[p]);
        } else {
            assert(a[right] <= a[p]);
        }
    }
    assert forall|p: int| m < p < hi implies a[m] < #[trigger] a[p] by {
        if a[left] < a[right] {
            if p < mid {
                assert(a[left] < a[p]);
            } else {
                assert(a[right] <= a[p]);
            }
        } else {
            assert(a[right] < a[p]);
        }
    }
    lemma_rightmost_min_unique(a, lo, hi, m);
}

/// The result of a query is a position of the minimum over `l..=r`.
pub proof fn lemma_range_min_index(a: Seq<usize>, l: int, r: int)
    requires
        0 <= l <= r < a.len(),
    ensures
        l <= range_min_index(a, l, r) <= r,
        a[range_min_index(a, l, r)] == range_min(a, l, r + 1),
        forall|p: int| l <= p <= r ==> a[range_min_index(a, l, r)] <= #[trigger] a[p],
{
    lemma_floor_log2_bounds(r - l + 1);
    let span = pow2(floor_log2(r - l + 1)) as int;
    lemma_rightmost_min(a, l, l + span);
    lemma_rightmost_min(a, r - span + 1, r + 1);
    lemma_rightmost_min(a, l, r + 1);
    lemma_rightmost_min_join(a, l, l + span, r - span + 1, r + 1);
}

/// Cells of distinct windows lie at distinct places of the table, all inside it.
pub proof fn lemma_cell_places(n: int, cols: int, i: int, k: int, i2: int, k2: int)
    requires
        0 <= i < n,
        0 <= i2 < n,
        0 <= k < cols,
        0 <= k2 < cols,
    ensures
        0 <= i * cols <= i * cols + k < n * cols,
        (i * cols + k == i2 * cols + k2) ==> (i == i2 && k == k2),
{
    assert(0 <= i * cols <= i * cols + k < n * cols) by (nonlinear_arith)
        requires
            0 <= i < n,
            0 <= k < cols,
    ;
    if i < i2 {
        assert(i * cols + k < i2 * cols + k2) by (nonlinear_arith)
            requires
                0 <= i < i2,
                0 <= k < cols,
                0 <= k2,
        ;
    } else if i2 < i {
        assert(i2 * cols + k2 < i * cols + k) by (nonlinear_arith)
            requires
                0 <= i2 < i,
                0 <= k2 < cols,
                0 <= k,
        ;
    }
}

/// The exponent and the value of the largest power of two that does not exceed `v`.
fn floor_pow2(v: usize) -> (r: (usize, usize))
    requires
        v > 0,
    ensures
        r.0 == floor_log2(v as int),
        r.1 == pow2(r.0 as nat),
        r.1 <= v < 2 * r.1,
{
    let mut k: usize = 0;
    let mut p: usize = 1;
    proof {
        lemma_pow2_values();
    }
    while p <= v / 2
        invariant
            v > 0,
            p == pow2(k as nat),
            1 <= p <= v,
            k < p,
        decreases v - p,
    {
        proof {
            lemma_pow2_unfold((k + 1) as nat);
        }
        p = p * 2;
        k = k + 1;
    }
    proof {
        lemma_floor_log2_unique(v as int, k as nat);
    }
    (k, p)
}

/// The base-2 logarithm of `v`, rounded down.
pub fn flog2(v: usize) -> (k: usize)
    requires
        v > 0,
    ensures
        k == floor_log2(v as int),
{
    floor_pow2(v).0
}

/// The position of the smallest value of `lcp` over `l..=r`, read from the
/// sparse table `rmq_prep` in two lookups.
pub fn rmq(rmq_prep: &[usize], lcp: &[usize], s_n: usize, l: usize, r: usize) -> (m: usize)
    requires
        s_n == lcp.len(),
        is_sparse_table(rmq_prep@, lcp@),
        l <= r < s_n,
    ensures
        m == range_min_index(lcp@, l as int, r as int),
        l <= m <= r,
        lcp[m as int] == range_min(lcp@, l as int, r + 1),
        forall|p: int| l <= p <= r ==> lcp[m as int] <= #[trigger] lcp[p],
{
    proof {
        lemma_floor_log2_bounds(s_n as int);
    }
    let cells = rmq_prep.len();
    let (columns, _) = floor_pow2(s_n);
    let cols = columns + 1;
    let (k, span) = floor_pow2(r - l + 1);
    proof {
        lemma_range_min_index(lcp@, l as int, r as int);
        lemma_floor_log2_monotonic(r - l + 1, s_n as int);
        assert(cells == s_n * cols);
        lemma_cell_places(s_n as int, cols as int, r - span + 1, k as int, l as int, k as int);
        lemma_cell_places(s_n as int, cols as int, l as int, k as int, r - span + 1, k as int);
        assert(cell(rmq_prep@, cols as int, l as int, k as int) == rightmost_min(
            lcp@,
            l as int,
            l + span,
        ));
        assert(cell(rmq_prep@, cols as int, r - span + 1, k as int) == rightmost_min(
            lcp@,
            r - span + 1,
            r + 1,
        ));
        lemma_rightmost_min(lcp@, l as int, l + span);
        lemma_rightmost_min(lcp@, r - span + 1, r + 1);
    }
    let first = rmq_prep[l * cols + k];
    let second = rmq_prep[(r + 1 - span) * cols + k];
    if lcp[first] > lcp[second] {
        second
    } else {
        first
    }
}

/// Builds the sparse table over `lcp`, column by column: a window of length
/// `2^k` takes the smaller of the minima of its two halves, the right half
/// winning a tie.
pub fn rmq_preprocess(lcp: &[usize], s_n: usize) -> (rmq_prep: Vec<usize>)
    requires
        s_n == lcp.len(),
        table_len(s_n as int) <= usize::MAX,
    ensures
        is_sparse_table(rmq_prep@, lcp@),
{
    if s_n == 0 {
        assert(0 * table_columns(0) == 0) by (nonlinear_arith);
        return Vec::new();
    }
    proof {
        lemma_floor_log2_bounds(s_n as int);
        lemma_pow2_values();
    }
    let (columns, _) = floor_pow2(s_n);
    let cols = columns + 1;
    let ghost a = lcp@;
    let mut rmq_prep: Vec<usize> = vec![0usize; s_n * cols];
    let mut i: usize = 0;
    proof {
        assert forall|x: int, k: int| 0 <= x < s_n && 0 <= k < cols implies #[trigger] cell(
            rmq_prep@,
            cols as int,
            x,
            k,
        ) == 0 by {
            lemma_cell_places(s_n as int, cols as int, x, k, x, k);
        }
    }
    while i < s_n
        invariant
            i <= s_n,
            s_n == a.len(),
            cols == table_columns(s_n as int),
            rmq_prep.len() == s_n * cols,
            forall|x: int, k: int|
                0 <= x < s_n && 0 <= k < cols ==> #[trigger] cell(rmq_prep@, cols as int, x, k)
                    == (if k == 0 && x < i {
                    x
                } else {
                    0
                }),
        decreases s_n - i,
    {
        proof {
            lemma_cell_places(s_n as int, cols as int, i as int, 0, i as int, 0);
        }
        let ghost before = rmq_prep@;
        rmq_prep[i * cols] = i;
        proof {
            assert forall|x: int, k: int| 0 <= x < s_n && 0 <= k < cols implies #[trigger] cell(
                rmq_prep@,
                cols as int,
                x,
                k,
            ) == (if k == 0 && x < i + 1 {
                x
            } else {
                0
            }) by {
                lemma_cell_places(s_n as int, cols as int, x, k, i as int, 0);
                assert(cell(before, cols as int, x, k) == (if k == 0 && x < i {
                    x
                } else {
                    0
                }));
            }
        }
        i += 1;
    }
    let mut j: usize = 1;
    let mut half: usize = 1;
    while j < cols
        invariant
            1 <= j <= cols,
            s_n == a.len(),
            a == lcp@,
            s_n > 0,
            cols == table_columns(s_n as int),
            rmq_prep.len() == s_n * cols,
            half == pow2((j - 1) as nat),
            1 <= half <= s_n,
            forall|x: int, k: int|
                0 <= x < s_n && 0 <= k < cols ==> #[trigger] cell(rmq_prep@, cols as int, x, k)
                    == (if k < j && x + pow2(k as nat) <= s_n {
                    rightmost_min(a, x, x + pow2(k as nat))
                } else if k == 0 {
                    x
                } else {
                    0
                }),
        decreases cols - j,
    {
        proof {
            lemma_pow2_unfold(j as nat);
            lemma_floor_log2_bounds(s_n as int);
            lemma_pow2_monotonic(j as nat, (cols - 1) as nat);
        }
        let span = half * 2;
        let mut i: usize = 0;
        while i <= s_n - span
            invariant
                1 <= j < cols,
                s_n == a.len(),
                a == lcp@,
                cols == table_columns(s_n as int),
                rmq_prep.len() == s_n * cols,
                half == pow2((j - 1) as nat),
                span == pow2(j as nat),
                span == 2 * half,
                1 <= half,
                span <= s_n,
                forall|x: int, k: int|
                    0 <= x < s_n && 0 <= k < cols ==> #[trigger] cell(
                        rmq_prep@,
                        cols as int,
                        x,
                        k,
                    ) == (if (k < j || (k == j && x < i)) && x + pow2(k as nat) <= s_n {
                        rightmost_min(a, x, x + pow2(k as nat))
                    } else if k == 0 {
                        x
                    } else {
                        0
                    }),
            decreases s_n - i,
        {
            proof {
                lemma_cell_places(s_n as int, cols as int, i as int, j as int, i as int, j - 1);
                lemma_cell_places(s_n as int, cols as int, i + half, j - 1, i as int, j - 1);
                assert(cell(rmq_prep@, cols as int, i as int, j - 1) == rightmost_min(
                    a,
                    i as int,
                    i + half,
                ));
                assert(cell(rmq_prep@, cols as int, i + half, j - 1) == rightmost_min(
                    a,
                    i + half,
                    i + span,
                ));
                lemma_rightmost_min(a, i as int, i + half);
                lemma_rightmost_min(a, i + half, i + span);
                lemma_rightmost_min_join(a, i as int, i + half, i + half, i + span);
            }
            let left = rmq_prep[i * cols + j - 1];
            let right = rmq_prep[(i + half) * cols + j - 1];
            let ghost before = rmq_prep@;
            let best = if lcp[left] < lcp[right] {
                left
            } else {
                right
            };
            rmq_prep[i * cols + j] = best;
            proof {
                assert forall|x: int, k: int| 0 <= x < s_n && 0 <= k < cols implies #[trigger] cell(
                    rmq_prep@,
                    cols as int,
                    x,
                    k,
                ) == (if (k < j || (k == j && x < i + 1)) && x + pow2(k as nat) <= s_n {
                    rightmost_min(a, x, x + pow2(k as nat))
                } else if k == 0 {
                    x
                } else {
                    0
                }) by {
                    lemma_cell_places(s_n as int, cols as int, x, k, i as int, j as int);
                    assert(cell(before, cols as int, x, k) == (if (k < j || (k == j && x < i))
                        && x + pow2(k as nat) <= s_n {
                        rightmost_min(a, x, x + pow2(k as nat))
                    } else if k == 0 {
                        x
                    } else {
                        0
                    }));
                }
            }
            i += 1;
        }
        half = span;
        j += 1;
    }
    proof {
        assert forall|x: int, k: int| 0 <= x < s_n && 0 <= k < cols implies #[trigger] cell(
            rmq_prep@,
            cols as int,
            x,
            k,
        ) == (if x + pow2(k as nat) <= s_n {
            rightmost_min(a, x, x + pow2(k as nat))
        } else {
            0
        }) by {
            lemma_pow2_pos(k as nat);
        }
    }
    rmq_prep
}

} // verus!
