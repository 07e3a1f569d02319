//! The order in which inverted repeats are reported, and sorting into it.

use vstd::prelude::*;
use vstd::relations::{sorted_by, total_ordering};
use vstd::seq_lib::{lemma_multiset_commutative, lemma_sorted_unique};

verus! {

/// `a` is reported no later than `b`: by first position ascending, then by gap
/// ascending, then by last position descending.
pub open spec fn ir_leq(a: (usize, usize, usize), b: (usize, usize, usize)) -> bool {
    a.0 < b.0 || (a.0 == b.0 && (a.2 < b.2 || (a.2 == b.2 && a.1 >= b.1)))
}

/// [`ir_leq`] as a relation.
pub open spec fn ir_order() -> spec_fn((usize, usize, usize), (usize, usize, usize)) -> bool {
    |a: (usize, usize, usize), b: (usize, usize, usize)| ir_leq(a, b)
}

/// No repeat of the list is reported later than one that follows it.
pub open spec fn is_sorted(irs: Seq<(usize, usize, usize)>) -> bool {
    forall|i: int, j: int| 0 <= i < j < irs.len() ==> ir_leq(irs[i], irs[j])
}

/// The order of the report is total: any two repeats are comparable, and two
/// that come no later than each other are the same.
pub proof fn lemma_ir_order_total()
    ensures
        total_ordering(ir_order()),
{
    let r = ir_order();
    assert forall|a: (usize, usize, usize), b: (usize, usize, usize)|
        #[trigger] r(a, b) && #[trigger] r(b, a) implies a == b by {
        assert(ir_leq(a, b) && ir_leq(b, a));
    }
    assert forall|a: (usize, usize, usize), b: (usize, usize, usize), c: (usize, usize, usize)|
        #[trigger] r(a, b) && #[trigger] r(b, c) implies r(a, c) by {
        assert(ir_leq(a, b) && ir_leq(b, c));
    }
    assert forall|a: (usize, usize, usize), b: (usize, usize, usize)|
        #[trigger] r(a, b) || #[trigger] r(b, a) by {
        assert(ir_leq(a, b) || ir_leq(b, a));
    }
    assert forall|a: (usize, usize, usize)| #[trigger] r(a, a) by {
        assert(ir_leq(a, a));
    }
}

/// Sorting by a total order has one result.
pub proof fn lemma_sorted_is_sort_by(
    found: Seq<(usize, usize, usize)>,
    sorted: Seq<(usize, usize, usize)>,
)
    requires
        sorted.to_multiset() == found.to_multiset(),
        is_sorted(sorted),
    ensures
        sorted == found.sort_by(ir_order()),
{
    lemma_ir_order_total();
    found.lemma_sort_by_ensures(ir_order());
    assert(sorted_by(sorted, ir_order())) by {
        assert forall|i: int, j: int| 0 <= i < j < sorted.len() implies #[trigger] ir_order()(
            sorted[i],
            sorted[j],
        ) by {
            assert(ir_leq(sorted[i], sorted[j]));
        }
    }
    lemma_sorted_unique(sorted, found.sort_by(ir_order()), ir_order());
}

/// Whether `a` is reported no later than `b`.
pub fn comes_first(a: &(usize, usize, usize), b: &(usize, usize, usize)) -> (r: bool)
    ensures
        r == ir_leq(*a, *b),
{
    a.0 < b.0 || (a.0 == b.0 && (a.2 < b.2 || (a.2 == b.2 && a.1 >= b.1)))
}

/// Two sorted lists as one.
fn merge(a: &Vec<(usize, usize, usize)>, b: &Vec<(usize, usize, usize)>) -> (out: Vec<
    (usize, usize, usize),
>)
    requires
        is_sorted(a@),
        is_sorted(b@),
    ensures
        is_sorted(out@),
        out@.to_multiset() == a@.to_multiset().add(b@.to_multiset()),
{
    let mut out: Vec<(usize, usize, usize)> = Vec::new();
    let mut i: usize = 0;
    let mut j: usize = 0;
    proof {
        broadcast use vstd::seq_lib::group_to_multiset_ensures;

        assert(a@.take(0) =~= Seq::<(usize, usize, usize)>::empty());
        assert(b@.take(0) =~= Seq::<(usize, usize, usize)>::empty());
        assert(out@ =~= Seq::<(usize, usize, usize)>::empty());
        assert(out@.to_multiset().len() == 0);
        assert(out@.to_multiset() =~= a@.take(0).to_multiset().add(b@.take(0).to_multiset()));
    }
    while i < a.len() || j < b.len()
        invariant
            i <= a.len(),
            j <= b.len(),
            is_sorted(a@),
            is_sorted(b@),
            is_sorted(out@),
            forall|k: int| 0 <= k < out.len() && i < a.len() ==> ir_leq(#[trigger] out[k], a[i as int]),
            forall|k: int| 0 <= k < out.len() && j < b.len() ==> ir_leq(#[trigger] out[k], b[j as int]),
            out@.to_multiset() == a@.take(i as int).to_multiset().add(
                b@.take(j as int).to_multiset(),
            ),
        decreases a.len() - i + b.len() - j,
    {
        let ghost before = out@;
        let from_a = if i < a.len() && j < b.len() {
            comes_first(&a[i], &b[j])
        } else {
            i < a.len()
        };
        if from_a {
            let x = a[i];
            out.push(x);
            proof {
                assert(a@.take(i + 1) =~= a@.take(i as int).push(x));
                assert(out@.to_multiset() =~= a@.take(i + 1).to_multiset().add(
                    b@.take(j as int).to_multiset(),
                )) by {
                    broadcast use vstd::seq_lib::group_to_multiset_ensures;
                }
                assert forall|p: int, q: int| 0 <= p < q < out@.len() implies ir_leq(
                    out@[p],
                    out@[q],
                ) by {
                    if q < before.len() {
                        assert(out@[p] == before[p] && out@[q] == before[q]);
                    } else {
                        assert(out@[p] == before[p]);
                    }
                }
                assert forall|k: int| 0 <= k < out.len() && i + 1 < a.len() implies ir_leq(
                    #[trigger] out[k],
                    a[i + 1],
                ) by {
                    assert(ir_leq(a[i as int], a[i + 1]));
                    if k < before.len() {
                        assert(out[k] == before[k]);
                    }
                }
                assert forall|k: int| 0 <= k < out.len() && j < b.len() implies ir_leq(
                    #[trigger] out[k],
                    b[j as int],
                ) by {
                    if k < before.len() {
                        assert(out[k] == before[k]);
                    }
                }
            }
            i += 1;
        } else {
            let x = b[j];
            out.push(x);
            proof {
                assert(b@.take(j + 1) =~= b@.take(j as int).push(x));
                assert(out@.to_multiset() =~= a@.take(i as int).to_multiset().add(
                    b@.take(j + 1).to_multiset(),
                )) by {
                    broadcast use vstd::seq_lib::group_to_multiset_ensures;
                }
                assert forall|p: int, q: int| 0 <= p < q < out@.len() implies ir_leq(
                    out@[p],
                    out@[q],
                ) by {
                    if q < before.len() {
                        assert(out@[p] == before[p] && out@[q] == before[q]);
                    } else {
                        assert(out@[p] == before[p]);
                    }
                }
                assert forall|k: int| 0 <= k < out.len() && j + 1 < b.len() implies ir_leq(
                    #[trigger] out[k],
                    b[j + 1],
                ) by {
                    assert(ir_leq(b[j as int], b[j + 1]));
                    if k < before.len() {
                        assert(out[k] == before[k]);
                    }
                }
                assert forall|k: int| 0 <= k < out.len() && i < a.len() implies ir_leq(
                    #[trigger] out[k],
                    a[i as int],
                ) by {
                    if k < before.len() {
                        assert(out[k] == before[k]);
                    }
                }
            }
            j += 1;
        }
    }
    proof {
        assert(a@.take(a.len() as int) =~= a@);
        assert(b@.take(b.len() as int) =~= b@);
    }
    out
}

/// The repeats of `irs` from `lo` up to `hi`, sorted: each half sorted by
/// itself, then the two merged.
fn sorted_range(irs: &Vec<(usize, usize, usize)>, lo: usize, hi: usize) -> (out: Vec<
    (usize, usize, usize),
>)
    requires
        lo <= hi <= irs.len(),
    ensures
        is_sorted(out@),
        out@.to_multiset() == irs@.subrange(lo as int, hi as int).to_multiset(),
    decreases hi - lo,
{
    if hi - lo <= 1 {
        let mut out: Vec<(usize, usize, usize)> = Vec::new();
        if hi - lo == 1 {
            out.push(irs[lo]);
        }
        assert(out@ =~= irs@.subrange(lo as int, hi as int));
        return out;
    }
    let mid = lo + (hi - lo) / 2;
    let left = sorted_range(irs, lo, mid);
    let right = sorted_range(irs, mid, hi);
    proof {
        let first = irs@.subrange(lo as int, mid as int);
        let second = irs@.subrange(mid as int, hi as int);
        assert(first + second =~= irs@.subrange(lo as int, hi as int));
        lemma_multiset_commutative(first, second);
    }
    merge(&left, &right)
}

/// Sorts the repeats into the order of the report.
pub fn sort_irs(irs: &mut Vec<(usize, usize, usize)>)
    ensures
        final(irs)@.to_multiset() == old(irs)@.to_multiset(),
        is_sorted(final(irs)@),
        final(irs)@ == old(irs)@.sort_by(ir_order()),
{
    let sorted = sorted_range(irs, 0, irs.len());
    proof {
        assert(irs@.subrange(0, irs.len() as int) =~= irs@);
        lemma_sorted_is_sort_by(irs@, sorted@);
    }
    *irs = sorted;
}

} // verus!
