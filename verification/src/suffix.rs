//! The suffix array of a text, its inverse and its LCP array.

use crate::text::{
    common_prefix, is_lcp_array, is_rank_array, is_suffix_array, lemma_common_prefix_bounds,
    lemma_common_prefix_shift, lemma_next_common_prefix, lemma_suffix_array_complete,
    lemma_suffix_array_distinct,
};
use vstd::prelude::*;

verus! {

/// The suffix array of `text`, computed by `divsufsort::sort`.
///
/// Trusted: that crate sorts the suffixes of the text in lexicographic byte
/// order and returns one 32-bit start position for each, so every entry lies
/// inside the text and each suffix comes before the next one. It refuses a
/// text of `i32::MAX` bytes or more, which the precondition leaves out.
#[verifier::external_body]
pub(crate) fn suffix_sort(text: &[u8]) -> (sa: Vec<i32>)
    requires
        text.len() < i32::MAX,
    ensures
        is_suffix_array(text@, sa@),
{
    divsufsort::sort(text).into_parts().1
}

/// The place of every position of the text in its suffix array.
pub fn inverse_suffix_array(s: &[u8], sa: &[i32]) -> (inv_sa: Vec<usize>)
    requires
        is_suffix_array(s@, sa@),
    ensures
        is_rank_array(sa@, inv_sa@),
{
    let s_n = s.len();
    let mut inv_sa: Vec<usize> = vec![0usize; s_n];
    let mut k: usize = 0;
    while k < s_n
        invariant
            k <= s_n,
            s_n == s.len(),
            inv_sa.len() == s_n,
            is_suffix_array(s@, sa@),
            forall|x: int| 0 <= x < k ==> inv_sa[#[trigger] sa[x] as int] == x,
        decreases s_n - k,
    {
        let position = sa[k] as usize;
        let ghost before = inv_sa@;
        inv_sa[position] = k;
        proof {
            assert forall|x: int| 0 <= x < k + 1 implies inv_sa[#[trigger] sa[x] as int] == x by {
                if x < k {
                    lemma_suffix_array_distinct(s@, sa@, x, k as int);
                    assert(before[sa[x] as int] == x);
                }
            }
        }
        k += 1;
    }
    proof {
        assert forall|p: int| 0 <= p < sa@.len() implies 0 <= #[trigger] inv_sa@[p] < sa@.len()
            && sa@[inv_sa@[p] as int] == p by {
            lemma_suffix_array_complete(s@, sa@, p);
            let x = choose|x: int| 0 <= x < sa@.len() && sa@[x] == p;
            assert(inv_sa[sa[x] as int] == x);
        }
    }
    inv_sa
}

/// The LCP array of `s`, by Kasai's construction: the positions of the text are
/// visited from left to right, and each comparison with the predecessor in the
/// suffix array starts one byte short of where the last one ended.
pub fn lcp_array(s: &[u8], s_n: usize, sa: &[i32], inv_sa: &[usize]) -> (lcp: Vec<usize>)
    requires
        s_n == s.len(),
        is_suffix_array(s@, sa@),
        is_rank_array(sa@, inv_sa@),
    ensures
        is_lcp_array(s@, sa@, lcp@),
{
    let ghost t = s@;
    let mut lcp: Vec<usize> = vec![0usize; s_n];
    let mut i: usize = 0;
    while i < s_n
        invariant
            i <= s_n,
            s_n == s.len(),
            t == s@,
            lcp.len() == s_n,
            is_suffix_array(t, sa@),
            is_rank_array(sa@, inv_sa@),
            forall|k: int|
                0 <= k < s_n ==> #[trigger] lcp[k] == (if k > 0 && sa[k] < i {
                    common_prefix(t, sa[k - 1] as int, sa[k] as int)
                } else {
                    0
                }),
        decreases s_n - i,
    {
        let rank = inv_sa[i];
        if rank != 0 {
            let before = sa[rank - 1] as usize;
            let last = if i == 0 {
                0
            } else {
                lcp[inv_sa[i - 1]]
            };
            let mut j: usize = if last > 1 {
                last - 1
            } else {
                0
            };
            proof {
                assert(sa[rank as int] == i);
                assert(0 <= sa[rank - 1] < s_n);
                if i > 0 {
                    let r = inv_sa[i - 1] as int;
                    assert(sa[r] == i - 1);
                    if r > 0 {
                        lemma_next_common_prefix(t, sa@, inv_sa@, i as int);
                    }
                }
                lemma_common_prefix_shift(t, before as int, i as int, j as nat);
                lemma_common_prefix_bounds(t, before as int, i as int);
            }
            while i + j < s_n && before + j < s_n && s[i + j] == s[before + j]
                invariant
                    i < s_n,
                    before < s_n,
                    s_n == s.len(),
                    t == s@,
                    i + j <= s_n,
                    before + j <= s_n,
                    j + common_prefix(t, before + j, i + j) == common_prefix(
                        t,
                        before as int,
                        i as int,
                    ),
                decreases s_n - j,
            {
                j += 1;
            }
            let ghost old_lcp = lcp@;
            lcp[rank] = j;
            proof {
                assert forall|k: int| 0 <= k < s_n implies #[trigger] lcp[k] == (if k > 0 && sa[k]
                    < i + 1 {
                    common_prefix(t, sa[k - 1] as int, sa[k] as int)
                } else {
                    0
                }) by {
                    assert(inv_sa[sa[k] as int] == k);
                    if k != rank {
                        assert(old_lcp[k] == lcp[k]);
                    }
                }
            }
        } else {
            proof {
                assert forall|k: int| 0 <= k < s_n implies #[trigger] lcp[k] == (if k > 0 && sa[k]
                    < i + 1 {
                    common_prefix(t, sa[k - 1] as int, sa[k] as int)
                } else {
                    0
                }) by {
                    assert(inv_sa[sa[k] as int] == k);
                }
            }
        }
        i += 1;
    }
    lcp
}

} // verus!
