//! Tile-hit counts in depth order and their running totals, which give each
//! primitive its slice of the intersection stream.
use vstd::prelude::*;
use crate::order::{id_range, is_permutation_of_range};

verus! {

/// Sum of a sequence of counts.
pub open spec fn sum(s: Seq<u32>) -> int
    decreases s.len(),
{
    if s.len() == 0 {
        0
    } else {
        sum(s.drop_last()) + s.last()
    }
}

/// `vals` read through the index sequence `ids`.
pub open spec fn gather(vals: Seq<u32>, ids: Seq<u32>) -> Seq<u32> {
    Seq::new(ids.len(), |k: int| vals[ids[k] as int])
}

/// Reads `vals` through `ids` (`num_tiles_hit` put into depth order).
pub fn gather_by(vals: &Vec<u32>, ids: &Vec<u32>) -> (r: Vec<u32>)
    requires
        forall|k: int| 0 <= k < ids.len() ==> ids[k] < vals.len(),
    ensures
        r@ == gather(vals@, ids@),
{
    let mut r: Vec<u32> = Vec::new();
    let mut k: usize = 0;
    while k < ids.len()
        invariant
            k <= ids.len(),
            forall|m: int| 0 <= m < ids.len() ==> ids[m] < vals.len(),
            r@ == gather(vals@, ids@.subrange(0, k as int)),
        decreases ids.len() - k,
    {
        r.push(vals[ids[k] as usize]);
        k += 1;
        assert(r@ =~= gather(vals@, ids@.subrange(0, k as int)));
    }
    assert(ids@.subrange(0, ids.len() as int) == ids@);
    r
}

pub(crate) proof fn lemma_sum_bound(s: Seq<u32>)
    ensures
        0 <= sum(s) <= s.len() * (u32::MAX as int),
    decreases s.len(),
{
    if s.len() > 0 {
        lemma_sum_bound(s.drop_last());
    }
}

/// Inclusive running totals of `counts` (`cum_tiles_hit`): entry `i` is the
/// end offset of the `i`-th primitive's intersections.
pub fn inclusive_prefix_sum(counts: &Vec<u32>) -> (r: Vec<u64>)
    requires
        counts.len() <= u32::MAX,
    ensures
        r.len() == counts.len(),
        forall|i: int| 0 <= i < r.len() ==> r[i] == sum(#[trigger] counts@.subrange(0, i + 1)),
{
    let mut r: Vec<u64> = Vec::new();
    let mut total: u64 = 0;
    let mut i: usize = 0;
    while i < counts.len()
        invariant
            i <= counts.len() <= u32::MAX,
            r.len() == i,
            total == sum(counts@.subrange(0, i as int)),
            forall|k: int| 0 <= k < i ==> r[k] == sum(#[trigger] counts@.subrange(0, k + 1)),
        decreases counts.len() - i,
    {
        proof {
            assert(counts@.subrange(0, i + 1).drop_last() == counts@.subrange(0, i as int));
            lemma_sum_bound(counts@.subrange(0, i + 1));
            assert((i + 1) * (u32::MAX as int) <= u32::MAX as int * u32::MAX as int)
                by (nonlinear_arith)
                requires
                    i + 1 <= u32::MAX,
            ;
        }
        total = total + counts[i] as u64;
        r.push(total);
        i += 1;
    }
    r
}

/// Total of the running sums: the last entry, or zero when there is none.
pub open spec fn last_or_zero(cum: Seq<u64>) -> int {
    if cum.len() == 0 {
        0
    } else {
        cum.last() as int
    }
}

proof fn lemma_sum_is_fold(vals: Seq<u32>, ids: Seq<u32>)
    requires
        forall|k: int| 0 <= k < ids.len() ==> ids[k] < vals.len(),
    ensures
        sum(gather(vals, ids)) == ids.fold_left(0int, |acc: int, g: u32| acc + vals[g as int]),
    decreases ids.len(),
{
    if ids.len() > 0 {
        lemma_sum_is_fold(vals, ids.drop_last());
        assert(gather(vals, ids).drop_last() =~= gather(vals, ids.drop_last()));
    }
}

/// Reordering the tile-hit counts of the visible primitives by a permutation
/// keeps their sum: the running total over the depth-ordered counts ends at
/// `sum(num_tiles_hit[0..num_visible])`, the number of intersections.
pub proof fn lemma_total_intersections(num_tiles_hit: Seq<u32>, order: Seq<u32>, num_visible: nat)
    requires
        is_permutation_of_range(order, num_visible),
        num_visible <= num_tiles_hit.len(),
        num_visible <= u32::MAX,
    ensures
        sum(gather(num_tiles_hit, order)) == sum(num_tiles_hit.subrange(0, num_visible as int)),
{
    let f = |acc: int, g: u32| acc + num_tiles_hit[g as int];
    let ids = id_range(num_visible);
    crate::order::lemma_permutation_entries(order, num_visible);
    assert(vstd::seq_lib::commutative_foldl(f));
    vstd::seq_lib::lemma_fold_left_permutation(order, ids, f, 0int);
    lemma_sum_is_fold(num_tiles_hit, order);
    lemma_sum_is_fold(num_tiles_hit, ids);
    assert(gather(num_tiles_hit, ids) =~= num_tiles_hit.subrange(0, num_visible as int));
}

/// The running totals over the depth-ordered counts of the visible
/// primitives end at the sum of their tile-hit counts.
pub proof fn lemma_prefix_total(num_tiles_hit: Seq<u32>, order: Seq<u32>, num_visible: nat, cum: Seq<u64>)
    requires
        is_permutation_of_range(order, num_visible),
        num_visible <= num_tiles_hit.len(),
        num_visible <= u32::MAX,
        cum.len() == order.len(),
        forall|i: int|
            0 <= i < cum.len() ==> cum[i] == sum(
                #[trigger] gather(num_tiles_hit, order).subrange(0, i + 1),
            ),
    ensures
        last_or_zero(cum) == sum(num_tiles_hit.subrange(0, num_visible as int)),
{
    lemma_total_intersections(num_tiles_hit, order, num_visible);
    let gathered = gather(num_tiles_hit, order);
    crate::order::lemma_permutation_entries(order, num_visible);
    if cum.len() > 0 {
        let last = cum.len() - 1;
        assert(cum[last] == sum(gathered.subrange(0, last + 1)));
        assert(gathered.subrange(0, last + 1) == gathered);
    } else {
        assert(gathered.len() == 0);
        assert(gathered =~= Seq::<u32>::empty());
    }
}

} // verus!
