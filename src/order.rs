//! Compaction of visible primitives and their argsort by depth.
use vstd::prelude::*;

verus! {

broadcast use {vstd::seq_lib::group_to_multiset_ensures, vstd::multiset::group_multiset_axioms};

/// The identity index sequence `0, 1, ..., n - 1`.
pub open spec fn id_range(n: nat) -> Seq<u32> {
    Seq::new(n, |i: int| i as u32)
}

/// `ids` lists each index below `n` exactly once.
pub open spec fn is_permutation_of_range(ids: Seq<u32>, n: nat) -> bool {
    ids.to_multiset() == id_range(n).to_multiset()
}

/// Indices of the visible primitives, in ascending order.
pub open spec fn visible_ids(visible: Seq<bool>) -> Seq<u32>
    decreases visible.len(),
{
    if visible.len() == 0 {
        Seq::empty()
    } else {
        let front = visible_ids(visible.drop_last());
        if visible.last() {
            front.push((visible.len() - 1) as u32)
        } else {
            front
        }
    }
}

/// Maps each compact slot to the global index of a visible primitive
/// (`global_from_compact_gid`); its length is the visible count.
pub fn compact_visible(visible: &Vec<bool>) -> (r: Vec<u32>)
    requires
        visible.len() <= u32::MAX,
    ensures
        r@ == visible_ids(visible@),
{
    let mut r: Vec<u32> = Vec::new();
    let mut g: usize = 0;
    while g < visible.len()
        invariant
            g <= visible.len() <= u32::MAX,
            r@ == visible_ids(visible@.subrange(0, g as int)),
        decreases visible.len() - g,
    {
        assert(visible@.subrange(0, g + 1).drop_last() == visible@.subrange(0, g as int));
        if visible[g] {
            r.push(g as u32);
        }
        g += 1;
    }
    assert(visible@.subrange(0, visible.len() as int) == visible@);
    r
}

/// The compaction keeps no more than all primitives, each visible one exactly
/// once, and nothing else: `global_from_compact_gid[0..num_visible]` holds no
/// duplicates.
pub proof fn lemma_compaction(visible: Seq<bool>)
    requires
        visible.len() <= u32::MAX,
    ensures
        visible_ids(visible).len() <= visible.len(),
        visible_ids(visible).no_duplicates(),
        forall|i: int, j: int|
            0 <= i < j < visible_ids(visible).len() ==> visible_ids(visible)[i] < visible_ids(
                visible,
            )[j],
        forall|i: int|
            0 <= i < visible_ids(visible).len() ==> visible_ids(visible)[i] < visible.len()
                && visible[visible_ids(visible)[i] as int],
        forall|g: int|
            0 <= g < visible.len() && visible[g] ==> visible_ids(visible).contains(g as u32),
    decreases visible.len(),
{
    if visible.len() > 0 {
        let front = visible.drop_last();
        lemma_compaction(front);
        let ids = visible_ids(visible);
        let fids = visible_ids(front);
        assert forall|g: int| 0 <= g < visible.len() && visible[g] implies ids.contains(
            g as u32,
        ) by {
            if g < visible.len() - 1 {
                assert(front[g] == visible[g]);
                let k = choose|k: int| 0 <= k < fids.len() && fids[k] == g as u32;
                assert(ids[k] == g as u32);
            } else {
                assert(ids[ids.len() - 1] == g as u32);
            }
        }
    }
}

/// `keys` read through `ids` never decrease.
pub open spec fn sorted_by_key(ids: Seq<u32>, keys: Seq<u32>) -> bool {
    forall|i: int, j: int| 0 <= i <= j < ids.len() ==> keys[ids[i] as int] <= keys[ids[j] as int]
}

/// Exchanging two entries keeps the multiset of a sequence.
pub(crate) proof fn lemma_swap_multiset<A>(s: Seq<A>, i: int, j: int)
    requires
        0 <= i < s.len(),
        0 <= j < s.len(),
        i != j,
    ensures
        s.update(i, s[j]).update(j, s[i]).to_multiset() =~= s.to_multiset(),
{
    let t = s.update(i, s[j]);
    assert(t[j] == s[j]);
    assert(t.to_multiset() == s.to_multiset().insert(s[j]).remove(s[i]));
    assert(t.update(j, s[i]).to_multiset() == t.to_multiset().insert(s[i]).remove(s[j]));
    assert(s.to_multiset().count(s[i]) > 0);
}

/// Entries of a permutation of `0..n` lie below `n` and are distinct.
pub proof fn lemma_permutation_entries(ids: Seq<u32>, n: nat)
    requires
        is_permutation_of_range(ids, n),
        n <= u32::MAX,
    ensures
        ids.len() == n,
        forall|k: int| 0 <= k < ids.len() ==> ids[k] < n,
        ids.no_duplicates(),
{
    let r = id_range(n);
    assert(ids.to_multiset().len() == ids.len());
    assert(r.to_multiset().len() == r.len());
    assert(ids.len() == n);
    assert forall|k: int| 0 <= k < ids.len() implies ids[k] < n by {
        assert(ids.to_multiset().count(ids[k]) > 0);
        assert(r.contains(ids[k]));
    }
    assert forall|a: int, b: int| 0 <= a < r.len() && 0 <= b < r.len() && a != b implies r[a]
        != r[b] by {
        assert(r[a] == a as u32 && r[b] == b as u32);
    }
    assert(r.no_duplicates());
    r.lemma_multiset_has_no_duplicates();
    ids.lemma_multiset_has_no_duplicates_conv();
}

/// Argsort of the first `num_visible` entries of `depth_keys` by ascending
/// key (`compact_from_depthsort_gid`). Depth keys are the bit patterns of
/// positive depths, whose unsigned order is the order of the depths.
pub fn depth_argsort(depth_keys: &Vec<u32>, num_visible: usize) -> (r: Vec<u32>)
    requires
        num_visible <= depth_keys.len(),
        num_visible <= u32::MAX,
    ensures
        is_permutation_of_range(r@, num_visible as nat),
        r.len() == num_visible,
        forall|k: int| 0 <= k < r.len() ==> r[k] < num_visible,
        sorted_by_key(r@, depth_keys@),
{
    let n = num_visible;
    let mut ids: Vec<u32> = Vec::new();
    let mut i: usize = 0;
    while i < n
        invariant
            i <= n <= u32::MAX,
            ids@ == id_range(i as nat),
        decreases n - i,
    {
        ids.push(i as u32);
        i += 1;
        assert(ids@ =~= id_range(i as nat));
    }
    let ghost keys = depth_keys@;
    let mut i: usize = 1;
    while i < n
        invariant
            n <= depth_keys.len(),
            keys == depth_keys@,
            ids.len() == n,
            is_permutation_of_range(ids@, n as nat),
            forall|k: int| 0 <= k < n ==> ids[k] < n,
            1 <= i <= n || n == 0,
            forall|a: int, b: int|
                0 <= a <= b < i ==> keys[ids[a] as int] <= keys[ids[b] as int],
        decreases n - i,
    {
        let mut j: usize = i;
        while j > 0 && depth_keys[ids[j - 1] as usize] > depth_keys[ids[j] as usize]
            invariant
                n <= depth_keys.len(),
                keys == depth_keys@,
                ids.len() == n,
                i < n,
                j <= i,
                is_permutation_of_range(ids@, n as nat),
                forall|k: int| 0 <= k < n ==> ids[k] < n,
                forall|a: int, b: int|
                    0 <= a <= b < j ==> keys[ids[a] as int] <= keys[ids[b] as int],
                forall|a: int, b: int|
                    j <= a <= b <= i ==> keys[ids[a] as int] <= keys[ids[b] as int],
                forall|a: int, b: int|
                    0 <= a < j < b <= i ==> keys[ids[a] as int] <= keys[ids[b] as int],
            decreases j,
        {
            let x = ids[j];
            let y = ids[j - 1];
            proof {
                lemma_swap_multiset(ids@, j - 1, j as int);
            }
            ids.set(j - 1, x);
            ids.set(j, y);
            j -= 1;
        }
        assert forall|a: int, b: int| 0 <= a <= b <= i implies keys[ids[a] as int]
            <= keys[ids[b] as int] by {
            if 0 < j && a < j && j <= b {
                assert(keys[ids[a] as int] <= keys[ids[j - 1] as int]);
            }
        }
        i += 1;
    }
    assert(sorted_by_key(ids@, keys));
    ids
}

/// With distinct keys, the depth order is unique: any two permutations of
/// `0..n` that are sorted by the keys are the same sequence. Only primitives
/// at equal depth may be ordered either way.
pub proof fn lemma_depth_order_unique(a: Seq<u32>, b: Seq<u32>, keys: Seq<u32>, n: nat)
    requires
        n <= keys.len(),
        n <= u32::MAX,
        is_permutation_of_range(a, n),
        is_permutation_of_range(b, n),
        sorted_by_key(a, keys),
        sorted_by_key(b, keys),
        forall|i: int, j: int| 0 <= i < j < n ==> keys[i] != keys[j],
    ensures
        a == b,
{
    lemma_permutation_entries(a, n);
    lemma_permutation_entries(b, n);
    lemma_sorted_prefix_equal(a, b, keys, n, n);
    assert(a =~= b);
}

proof fn lemma_sorted_prefix_equal(a: Seq<u32>, b: Seq<u32>, keys: Seq<u32>, n: nat, k: nat)
    requires
        n <= keys.len(),
        k <= n,
        a.len() == n,
        b.len() == n,
        a.to_multiset() == b.to_multiset(),
        a.no_duplicates(),
        b.no_duplicates(),
        forall|m: int| 0 <= m < n ==> a[m] < n && b[m] < n,
        sorted_by_key(a, keys),
        sorted_by_key(b, keys),
        forall|i: int, j: int| 0 <= i < j < n ==> keys[i] != keys[j],
    ensures
        forall|j: int| 0 <= j < k ==> a[j] == b[j],
    decreases k,
{
    if k > 0 {
        lemma_sorted_prefix_equal(a, b, keys, n, (k - 1) as nat);
        let p = k - 1;
        if a[p] != b[p] {
            assert(a.to_multiset().count(a[p]) > 0);
            assert(b.contains(a[p]));
            let m = choose|m: int| 0 <= m < b.len() && b[m] == a[p];
            assert(b.to_multiset().count(b[p]) > 0);
            assert(a.contains(b[p]));
            let q = choose|q: int| 0 <= q < a.len() && a[q] == b[p];
            if m < p {
                assert(a[m] == b[m]);
            } else if q < p {
                assert(a[q] == b[q]);
            } else {
                assert(m > p && q > p);
                let ka = keys[a[p] as int];
                let kb = keys[b[p] as int];
                assert(kb <= keys[b[m] as int]);
                assert(ka <= keys[a[q] as int]);
                if (a[p] as int) < (b[p] as int) {
                    assert(ka != kb);
                } else {
                    assert(kb != ka);
                }
            }
        }
    }
}

} // verus!
