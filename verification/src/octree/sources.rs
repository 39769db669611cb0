//! Source data held by the octree, kept in Morton order

use vstd::prelude::*;
use crate::math::{argsort, gather, is_permutation, lemma_gather_sorted, sort_by_indices, sorted_by_keys};
use crate::octree::topology::{codes_fit_depth, codes_sorted, lemma_fit_depth_fanout, root_fanout_ok};
use crate::octree::node::prefix_spec;

verus! {

/// Put optional per-source vectors into the order given by `indices`
pub fn sort_source_vectors<T: Copy>(vectors: Option<&[T]>, indices: &[usize]) -> (sorted: Option<Vec<T>>)
    requires
        vectors matches Some(v) ==> {
            &&& indices@.len() == v@.len()
            &&& forall|k: int| 0 <= k < indices@.len() ==> #[trigger] indices@[k] < v@.len()
        },
    ensures
        vectors is None ==> sorted is None,
        vectors matches Some(v) ==> sorted matches Some(s) && s@ == gather(v@, indices@),
{
    match vectors {
        Some(v) => {
            let n: usize = v.len();
            let mut vectors_sorted: Vec<T> = Vec::with_capacity(n);
            let mut scratch: Vec<T> = Vec::with_capacity(n);
            let mut i: usize = 0;
            while i < n
                invariant
                    n == v@.len(),
                    i <= n,
                    vectors_sorted@ == v@.take(i as int),
                    scratch@.len() == i,
                decreases n - i,
            {
                vectors_sorted.push(v[i]);
                scratch.push(v[i]);
                i = i + 1;
                proof {
                    assert(vectors_sorted@ =~= v@.take(i as int));
                }
            }
            proof {
                assert(vectors_sorted@ =~= v@);
            }
            sort_by_indices(vectors_sorted.as_mut_slice(), scratch.as_mut_slice(), indices);
            Some(vectors_sorted)
        },
        None => None,
    }
}

/// Put Morton codes into order: the permutation that sorts them (equal codes keep
/// their order) and the codes in that order, ready to build a tree from. Codes of
/// `max_depth` levels stay codes of `max_depth` levels, and give a root with at most
/// eight children.
pub fn sort_codes(codes: &[u64]) -> (sorted: (Vec<usize>, Vec<u64>))
    ensures
        is_permutation(sorted.0@, codes@.len() as int),
        sorted_by_keys(sorted.0@, codes@, 0, codes@.len() as int),
        sorted.1@ == gather(codes@, sorted.0@),
        codes_sorted(sorted.1@),
        forall|max_depth: int|
            0 <= max_depth <= 21 && codes@.len() <= u32::MAX && #[trigger] codes_fit_depth(codes@, max_depth)
                ==> codes_fit_depth(sorted.1@, max_depth) && root_fanout_ok(sorted.1@, max_depth),
{
    let perm: Vec<usize> = argsort(codes);
    let n: usize = codes.len();
    let mut data: Vec<u64> = Vec::with_capacity(n);
    let mut scratch: Vec<u64> = Vec::with_capacity(n);
    let mut i: usize = 0;
    while i < n
        invariant
            n == codes@.len(),
            i <= n,
            data@ == codes@.take(i as int),
            scratch@.len() == i,
        decreases n - i,
    {
        data.push(codes[i]);
        scratch.push(0);
        i = i + 1;
        proof {
            assert(data@ =~= codes@.take(i as int));
        }
    }
    proof {
        assert(data@ =~= codes@);
    }
    sort_by_indices(data.as_mut_slice(), scratch.as_mut_slice(), perm.as_slice());
    proof {
        lemma_gather_sorted(codes@, perm@);
        assert forall|max_depth: int|
            0 <= max_depth <= 21 && codes@.len() <= u32::MAX && #[trigger] codes_fit_depth(codes@, max_depth)
                implies codes_fit_depth(data@, max_depth) && root_fanout_ok(data@, max_depth) by {
            assert forall|k: int| 0 <= k < data@.len() implies prefix_spec(#[trigger] data@[k], max_depth, 0) == 0 by {
                assert(data@[k] == codes@[perm@[k] as int]);
            }
            lemma_fit_depth_fanout(data@, max_depth);
        }
    }
    (perm, data)
}

} // verus!
