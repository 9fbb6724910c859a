//! Nearest-rank percentiles over latency samples.
use vstd::prelude::*;
use vstd::relations::{sorted_by, total_ordering};

verus! {

/// The order on samples: plain `<=` on `u64`.
pub open spec fn sample_leq() -> spec_fn(u64, u64) -> bool {
    |a: u64, b: u64| a <= b
}

/// The samples in ascending order.
pub open spec fn ascending(samples: Seq<u64>) -> Seq<u64> {
    samples.sort_by(sample_leq())
}

/// `ceil(a / b)` for a non-negative `a` and a positive `b`.
pub open spec fn ceil_div(a: int, b: int) -> int
    recommends
        a >= 0,
        b > 0,
{
    (a + b - 1) / b
}

/// The 0-based position that nearest-rank selects among `n > 0` ascending
/// samples for the percentile `p`, where `p` is first clamped to `[0, 100]`:
/// the 1-based rank is `ceil(p / 100 * n)`, itself clamped to `[1, n]`.
pub open spec fn nearest_rank_index(n: nat, p: nat) -> int
    recommends
        n > 0,
{
    let p: int = if p > 100 { 100 } else { p as int };
    let rank = ceil_div(p * n, 100);
    let rank = if rank < 1 { 1 } else if rank > n { n as int } else { rank };
    rank - 1
}

/// The nearest-rank `p`-th percentile of `samples`; 0 when there are none.
pub open spec fn percentile_of(samples: Seq<u64>, p: nat) -> u64 {
    if samples.len() == 0 {
        0
    } else {
        ascending(samples)[nearest_rank_index(samples.len(), p)]
    }
}

pub proof fn lemma_sample_leq_total()
    ensures
        total_ordering(sample_leq()),
{
}

/// A sequence that is sorted and holds the same samples as `s` is the
/// ascending order of `s`.
pub proof fn lemma_sorted_is_ascending(sorted: Seq<u64>, s: Seq<u64>)
    requires
        sorted_by(sorted, sample_leq()),
        sorted.to_multiset() == s.to_multiset(),
    ensures
        sorted == ascending(s),
{
    lemma_sample_leq_total();
    s.lemma_sort_by_ensures(sample_leq());
    vstd::seq_lib::lemma_sorted_unique(sorted, ascending(s), sample_leq());
}

/// `ascending(s)` is sorted, has the samples of `s`, and has its length.
pub proof fn lemma_ascending_ensures(s: Seq<u64>)
    ensures
        sorted_by(ascending(s), sample_leq()),
        ascending(s).to_multiset() == s.to_multiset(),
        ascending(s).len() == s.len(),
{
    broadcast use vstd::seq_lib::group_to_multiset_ensures;
    lemma_sample_leq_total();
    s.lemma_sort_by_ensures(sample_leq());
    assert(ascending(s).to_multiset().len() == s.to_multiset().len());
}

/// Merges two ascending runs into one.
fn merge_ascending(left: &Vec<u64>, right: &Vec<u64>) -> (out: Vec<u64>)
    requires
        sorted_by(left@, sample_leq()),
        sorted_by(right@, sample_leq()),
    ensures
        sorted_by(out@, sample_leq()),
        out@.to_multiset() == left@.to_multiset().add(right@.to_multiset()),
{
    broadcast use vstd::multiset::group_multiset_axioms;

    let mut out: Vec<u64> = Vec::new();
    let mut i: usize = 0;
    let mut j: usize = 0;
    proof {
        broadcast use vstd::seq_lib::group_to_multiset_ensures;

        assert(left@.take(0) == Seq::<u64>::empty());
        assert(right@.take(0) == Seq::<u64>::empty());
        assert(out@ == Seq::<u64>::empty());
        assert(Seq::<u64>::empty().to_multiset().len() == 0);
        assert(Seq::<u64>::empty().to_multiset() =~= vstd::multiset::Multiset::<u64>::empty());
    }
    while i < left.len() || j < right.len()
        invariant
            i <= left.len(),
            j <= right.len(),
            out.len() == i + j,
            sorted_by(left@, sample_leq()),
            sorted_by(right@, sample_leq()),
            sorted_by(out@, sample_leq()),
            out@.to_multiset() == left@.take(i as int).to_multiset().add(
                right@.take(j as int).to_multiset(),
            ),
            out.len() > 0 && i < left.len() ==> out@.last() <= left@[i as int],
            out.len() > 0 && j < right.len() ==> out@.last() <= right@[j as int],
        decreases left.len() + right.len() - i - j,
    {
        let ghost before = out@;
        let take_left = j == right.len() || (i < left.len() && left[i] <= right[j]);
        let x = if take_left {
            left[i]
        } else {
            right[j]
        };
        out.push(x);
        proof {
            vstd::seq_lib::to_multiset_build(before, x);
            assert forall|a: int, b: int| 0 <= a < b < out@.len() implies #[trigger] sample_leq()(
                out@[a],
                out@[b],
            ) by {
                if b < before.len() {
                    assert(sample_leq()(before[a], before[b]));
                } else if a < before.len() - 1 {
                    assert(sample_leq()(before[a], before[before.len() - 1]));
                }
            }
            if take_left {
                assert(left@.take(i + 1) == left@.take(i as int).push(x));
                vstd::seq_lib::to_multiset_build(left@.take(i as int), x);
                if i + 1 < left.len() {
                    assert(sample_leq()(left@[i as int], left@[i + 1]));
                }
            } else {
                assert(right@.take(j + 1) == right@.take(j as int).push(x));
                vstd::seq_lib::to_multiset_build(right@.take(j as int), x);
                if j + 1 < right.len() {
                    assert(sample_leq()(right@[j as int], right@[j + 1]));
                }
            }
        }
        if take_left {
            i = i + 1;
        } else {
            j = j + 1;
        }
        proof {
            assert(out@.to_multiset() =~= left@.take(i as int).to_multiset().add(
                right@.take(j as int).to_multiset(),
            ));
        }
    }
    assert(left@.take(left.len() as int) == left@);
    assert(right@.take(right.len() as int) == right@);
    out
}

/// The samples at positions `lo..hi`, in ascending order (a merge sort).
fn sort_range(samples: &[u64], lo: usize, hi: usize) -> (sorted: Vec<u64>)
    requires
        lo <= hi <= samples.len(),
    ensures
        sorted_by(sorted@, sample_leq()),
        sorted@.to_multiset() == samples@.subrange(lo as int, hi as int).to_multiset(),
    decreases hi - lo,
{
    if hi - lo <= 1 {
        let mut sorted: Vec<u64> = Vec::new();
        if hi - lo == 1 {
            sorted.push(samples[lo]);
        }
        assert(sorted@ == samples@.subrange(lo as int, hi as int));
        return sorted;
    }
    let mid = lo + (hi - lo) / 2;
    let left = sort_range(samples, lo, mid);
    let right = sort_range(samples, mid, hi);
    let sorted = merge_ascending(&left, &right);
    proof {
        let whole = samples@.subrange(lo as int, hi as int);
        assert(whole == samples@.subrange(lo as int, mid as int) + samples@.subrange(
            mid as int,
            hi as int,
        ));
        vstd::seq_lib::lemma_multiset_commutative(
            samples@.subrange(lo as int, mid as int),
            samples@.subrange(mid as int, hi as int),
        );
    }
    sorted
}

/// Returns the samples in ascending order.
pub fn sort_ascending(samples: &[u64]) -> (sorted: Vec<u64>)
    ensures
        sorted@ == ascending(samples@),
{
    let sorted = sort_range(samples, 0, samples.len());
    assert(samples@.subrange(0, samples.len() as int) == samples@);
    proof {
        lemma_sorted_is_ascending(sorted@, samples@);
    }
    sorted
}

/// Nearest-rank percentile over `samples`, which need not be sorted.
///
/// `p` is a percentile in whole percent; values above 100 count as 100.
/// Returns 0 for an empty slice.
pub fn percentile(samples: &[u64], p: u64) -> (r: u64)
    ensures
        r == percentile_of(samples@, p as nat),
{
    if samples.len() == 0 {
        return 0;
    }
    let sorted = sort_ascending(samples);
    proof {
        lemma_ascending_ensures(samples@);
    }
    let n = sorted.len();
    let p: u64 = if p > 100 { 100 } else { p };
    assert((p as u128) * (n as u128) <= 100 * 0xffff_ffff_ffff_ffffu128) by (nonlinear_arith)
        requires
            p <= 100,
            n <= 0xffff_ffff_ffff_ffffu128,
    ;
    let scaled: u128 = (p as u128) * (n as u128);
    let rank128: u128 = (scaled + 99) / 100;
    assert(rank128 <= n) by (nonlinear_arith)
        requires
            rank128 == (scaled + 99) / 100,
            scaled == p * n,
            p <= 100,
    ;
    let rank: usize = rank128 as usize;
    let rank: usize = if rank < 1 { 1 } else if rank > n { n } else { rank };
    sorted[rank - 1]
}

} // verus!
