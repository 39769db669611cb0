//! Permutations used to put sources and targets into Morton order and back

use vstd::prelude::*;
use crate::octree::topology::codes_sorted;

verus! {

/// Position `i` comes before position `j` when its key is smaller, or the keys are
/// equal and `i` comes first (the order a stable sort produces)
pub open spec fn key_before(keys: Seq<u64>, i: int, j: int) -> bool {
    keys[i] < keys[j] || (keys[i] == keys[j] && i < j)
}

/// `perm` lists every position `0..n` exactly once
pub open spec fn is_permutation(perm: Seq<usize>, n: int) -> bool {
    &&& perm.len() == n
    &&& forall|k: int| 0 <= k < perm.len() ==> #[trigger] perm[k] < n
    &&& forall|k1: int, k2: int|
        0 <= k1 < k2 < perm.len() ==> #[trigger] perm[k1] != #[trigger] perm[k2]
}

/// The positions in `perm[lo..hi]` are in strictly increasing `key_before` order
pub open spec fn sorted_by_keys(perm: Seq<usize>, keys: Seq<u64>, lo: int, hi: int) -> bool {
    forall|k1: int, k2: int|
        lo <= k1 < k2 < hi ==> key_before(keys, #[trigger] perm[k1] as int, #[trigger] perm[k2] as int)
}

/// The sequence obtained by reading `data` at each of `indices`
pub open spec fn gather<T>(data: Seq<T>, indices: Seq<usize>) -> Seq<T> {
    Seq::new(indices.len(), |k: int| data[indices[k] as int])
}

proof fn lemma_key_before_trans(keys: Seq<u64>, a: int, b: int, c: int)
    requires
        key_before(keys, a, b),
        key_before(keys, b, c),
    ensures
        key_before(keys, a, c),
{
}

/// Merge the sorted runs `perm[lo..mid]` and `perm[mid..hi]`, whose entries are
/// positions in `[lo, mid)` and `[mid, hi)`, into one sorted run
fn merge_runs(keys: &[u64], perm: &mut Vec<usize>, scratch: &mut Vec<usize>, lo: usize, mid: usize, hi: usize)
    requires
        lo < mid < hi <= old(perm)@.len(),
        hi <= keys@.len(),
        old(scratch)@.len() == old(perm)@.len(),
        sorted_by_keys(old(perm)@, keys@, lo as int, mid as int),
        sorted_by_keys(old(perm)@, keys@, mid as int, hi as int),
        forall|k: int| lo <= k < mid ==> lo <= #[trigger] old(perm)@[k] < mid,
        forall|k: int| mid <= k < hi ==> mid <= #[trigger] old(perm)@[k] < hi,
    ensures
        final(perm)@.len() == old(perm)@.len(),
        final(scratch)@.len() == old(scratch)@.len(),
        forall|k: int| 0 <= k < old(perm)@.len() && !(lo <= k < hi) ==> #[trigger] final(perm)@[k] == old(perm)@[k],
        forall|k: int| lo <= k < hi ==> lo <= #[trigger] final(perm)@[k] < hi,
        sorted_by_keys(final(perm)@, keys@, lo as int, hi as int),
{
    let ghost p0 = perm@;
    let mut i: usize = lo;
    let mut j: usize = mid;
    let mut k: usize = lo;
    while k < hi
        invariant
            lo <= i <= mid <= j <= hi <= p0.len(),
            hi <= keys@.len(),
            perm@ == p0,
            scratch@.len() == p0.len(),
            k == i + (j - mid),
            sorted_by_keys(p0, keys@, lo as int, mid as int),
            sorted_by_keys(p0, keys@, mid as int, hi as int),
            forall|q: int| lo <= q < mid ==> lo <= #[trigger] p0[q] < mid,
            forall|q: int| mid <= q < hi ==> mid <= #[trigger] p0[q] < hi,
            forall|q: int| lo <= q < k ==> lo <= #[trigger] scratch@[q] < hi,
            sorted_by_keys(scratch@, keys@, lo as int, k as int),
            k > lo && i < mid ==> key_before(keys@, scratch@[k - 1] as int, p0[i as int] as int),
            k > lo && j < hi ==> key_before(keys@, scratch@[k - 1] as int, p0[j as int] as int),
        decreases hi - k,
    {
        let ghost s0 = scratch@;
        if j >= hi || (i < mid && keys[perm[i]] <= keys[perm[j]]) {
            scratch[k] = perm[i];
            proof {
                if j < hi {
                    assert(p0[i as int] < p0[j as int]);
                }
                assert forall|q1: int, q2: int| lo <= q1 < q2 < k + 1 implies key_before(keys@, #[trigger] scratch@[q1] as int, #[trigger] scratch@[q2] as int) by {
                    if q2 == k {
                        if q1 < k - 1 {
                            assert(key_before(keys@, s0[q1] as int, s0[k - 1] as int));
                            lemma_key_before_trans(keys@, s0[q1] as int, s0[k - 1] as int, p0[i as int] as int);
                        }
                    } else {
                        assert(key_before(keys@, s0[q1] as int, s0[q2] as int));
                    }
                }
                if i + 1 < mid {
                    assert(key_before(keys@, p0[i as int] as int, p0[i + 1] as int));
                }
            }
            i = i + 1;
        } else {
            scratch[k] = perm[j];
            proof {
                if i < mid {
                    assert(!(keys@[p0[i as int] as int] <= keys@[p0[j as int] as int]));
                }
                assert forall|q1: int, q2: int| lo <= q1 < q2 < k + 1 implies key_before(keys@, #[trigger] scratch@[q1] as int, #[trigger] scratch@[q2] as int) by {
                    if q2 == k {
                        if q1 < k - 1 {
                            assert(key_before(keys@, s0[q1] as int, s0[k - 1] as int));
                            lemma_key_before_trans(keys@, s0[q1] as int, s0[k - 1] as int, p0[j as int] as int);
                        }
                    } else {
                        assert(key_before(keys@, s0[q1] as int, s0[q2] as int));
                    }
                }
                if j + 1 < hi {
                    assert(key_before(keys@, p0[j as int] as int, p0[j + 1] as int));
                }
            }
            j = j + 1;
        }
        k = k + 1;
    }
    let mut c: usize = lo;
    while c < hi
        invariant
            lo <= c <= hi <= p0.len(),
            perm@.len() == p0.len(),
            scratch@.len() == p0.len(),
            forall|q: int| 0 <= q < p0.len() && !(lo <= q < c) ==> #[trigger] perm@[q] == p0[q],
            forall|q: int| lo <= q < c ==> #[trigger] perm@[q] == scratch@[q],
            forall|q: int| lo <= q < hi ==> lo <= #[trigger] scratch@[q] < hi,
            sorted_by_keys(scratch@, keys@, lo as int, hi as int),
        decreases hi - c,
    {
        perm[c] = scratch[c];
        c = c + 1;
    }
    proof {
        assert forall|q1: int, q2: int| lo <= q1 < q2 < hi implies key_before(keys@, #[trigger] perm@[q1] as int, #[trigger] perm@[q2] as int) by {
            assert(perm@[q1] == scratch@[q1]);
            assert(perm@[q2] == scratch@[q2]);
        }
    }
}

/// Sort the identity segment `perm[lo..hi]` (`perm[k] == k` there) by key
fn sort_range(keys: &[u64], perm: &mut Vec<usize>, scratch: &mut Vec<usize>, lo: usize, hi: usize)
    requires
        lo <= hi <= old(perm)@.len(),
        hi <= keys@.len(),
        old(scratch)@.len() == old(perm)@.len(),
        forall|k: int| lo <= k < hi ==> #[trigger] old(perm)@[k] == k,
    ensures
        final(perm)@.len() == old(perm)@.len(),
        final(scratch)@.len() == old(scratch)@.len(),
        forall|k: int| 0 <= k < old(perm)@.len() && !(lo <= k < hi) ==> #[trigger] final(perm)@[k] == old(perm)@[k],
        forall|k: int| lo <= k < hi ==> lo <= #[trigger] final(perm)@[k] < hi,
        sorted_by_keys(final(perm)@, keys@, lo as int, hi as int),
    decreases hi - lo,
{
    if hi - lo <= 1 {
        return;
    }
    let mid: usize = lo + (hi - lo) / 2;
    sort_range(keys, perm, scratch, lo, mid);
    sort_range(keys, perm, scratch, mid, hi);
    merge_runs(keys, perm, scratch, lo, mid, hi);
}

/// The positions `0..keys.len()` ordered by key, equal keys in their original order:
/// the result of a stable sort of the positions by key
pub fn argsort(keys: &[u64]) -> (perm: Vec<usize>)
    ensures
        is_permutation(perm@, keys@.len() as int),
        sorted_by_keys(perm@, keys@, 0, keys@.len() as int),
{
    let n: usize = keys.len();
    let mut perm: Vec<usize> = Vec::with_capacity(n);
    let mut scratch: Vec<usize> = Vec::with_capacity(n);
    let mut i: usize = 0;
    while i < n
        invariant
            n == keys@.len(),
            i <= n,
            perm@.len() == i,
            scratch@.len() == i,
            forall|k: int| 0 <= k < i ==> #[trigger] perm@[k] == k,
        decreases n - i,
    {
        perm.push(i);
        scratch.push(0);
        i = i + 1;
    }
    sort_range(keys, &mut perm, &mut scratch, 0, n);
    proof {
        assert forall|k1: int, k2: int| 0 <= k1 < k2 < perm@.len() implies #[trigger] perm@[k1] != #[trigger] perm@[k2] by {
            assert(key_before(keys@, perm@[k1] as int, perm@[k2] as int));
        }
    }
    perm
}

/// Reorder `data` so that its `k`-th entry is the old entry at `indices[k]`;
/// `scratch` is workspace and ends holding the same values
pub fn sort_by_indices<T: Copy>(data: &mut [T], scratch: &mut [T], indices: &[usize])
    requires
        old(scratch)@.len() == old(data)@.len(),
        indices@.len() == old(data)@.len(),
        forall|k: int| 0 <= k < indices@.len() ==> #[trigger] indices@[k] < old(data)@.len(),
    ensures
        final(data)@ == gather(old(data)@, indices@),
        final(scratch)@ == final(data)@,
{
    let n: usize = data.len();
    let mut i: usize = 0;
    while i < n
        invariant
            n == data@.len(),
            data@ == old(data)@,
            scratch@.len() == n,
            indices@.len() == n,
            forall|k: int| 0 <= k < n ==> #[trigger] indices@[k] < n,
            i <= n,
            forall|k: int| 0 <= k < i ==> #[trigger] scratch@[k] == old(data)@[indices@[k] as int],
        decreases n - i,
    {
        scratch[i] = data[indices[i]];
        i = i + 1;
    }
    let mut j: usize = 0;
    while j < n
        invariant
            n == data@.len(),
            scratch@.len() == n,
            indices@.len() == n,
            j <= n,
            forall|k: int| 0 <= k < n ==> #[trigger] scratch@[k] == old(data)@[indices@[k] as int],
            forall|k: int| 0 <= k < j ==> #[trigger] data@[k] == scratch@[k],
        decreases n - j,
    {
        data[j] = scratch[j];
        j = j + 1;
    }
    proof {
        assert(data@ =~= gather(old(data)@, indices@));
        assert(scratch@ =~= data@);
    }
}

/// Reading the keys in the order `argsort` produces yields them in non-decreasing order
pub proof fn lemma_gather_sorted(keys: Seq<u64>, perm: Seq<usize>)
    requires
        is_permutation(perm, keys.len() as int),
        sorted_by_keys(perm, keys, 0, keys.len() as int),
    ensures
        codes_sorted(gather(keys, perm)),
{
    let g = gather(keys, perm);
    assert forall|i: int, j: int| #![trigger g[i], g[j]] 0 <= i <= j < g.len() implies g[i] <= g[j] by {
        if i < j {
            assert(key_before(keys, perm[i] as int, perm[j] as int));
        }
    }
}

} // verus!
