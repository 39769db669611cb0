//! Interaction-list implementation of the Barnes-Hut algorithm: interactions found
//! while traversing the tree, recorded as (source, target) pairs

use vstd::prelude::*;
use crate::math::{argsort, gather, is_permutation, sort_by_indices, sorted_by_keys};
use crate::octree::node::{self, level_shift, prefix_partitioned, prefix_spec};

verus! {

/// Return the morton code prefix at a given level of the tree
pub fn get_prefix(code: u64, max_level: u8, level: u8) -> (prefix: u64)
    requires
        level <= max_level,
        level_shift(max_level as int, level as int) < 64,
    ensures
        prefix == prefix_spec(code, max_level as int, level as int),
{
    node::get_prefix(code, max_level, level)
}

// Get the end index of a range that has the same parent node at the current level
// Returns the index that has the changed prefix, so an open range [start_index, end_index)
pub fn get_range_in_same_node(
    codes: &[u64],
    level: u8,
    max_depth: u8,
    start: usize,
    end: usize,
) -> (r: usize)
    requires
        level <= max_depth,
        level_shift(max_depth as int, level as int) < 64,
        start <= end <= codes@.len(),
        start < codes@.len(),
        prefix_partitioned(codes@, max_depth as int, level as int, start as int, end as int),
    ensures
        start <= r <= end,
        forall|i: int|
            start <= i < r ==> prefix_spec(#[trigger] codes@[i], max_depth as int, level as int)
                == prefix_spec(codes@[start as int], max_depth as int, level as int),
        forall|i: int|
            r <= i < end ==> prefix_spec(#[trigger] codes@[i], max_depth as int, level as int)
                != prefix_spec(codes@[start as int], max_depth as int, level as int),
{
    node::get_range_in_same_node(codes, level, max_depth, start, end)
}

/// The sources of the interactions widened to 64-bit keys
pub open spec fn widen(v: Seq<u32>) -> Seq<u64> {
    Seq::new(v.len(), |i: int| v[i] as u64)
}

/// Interactions between sources and targets, as two parallel lists
pub struct InteractionList {
    pub source_indices: Vec<u32>,
    pub target_indices: Vec<u32>,
}

impl InteractionList {
    pub open spec fn sources(&self) -> Seq<u32> {
        self.source_indices@
    }

    pub open spec fn targets(&self) -> Seq<u32> {
        self.target_indices@
    }

    /// The two lists have one entry per interaction
    pub open spec fn wf(&self) -> bool {
        self.source_indices@.len() == self.target_indices@.len()
    }

    pub fn new(capacity: usize) -> (list: Self)
        ensures
            list.wf(),
            list.sources() == Seq::<u32>::empty(),
            list.targets() == Seq::<u32>::empty(),
    {
        Self {
            source_indices: Vec::with_capacity(capacity),
            target_indices: Vec::with_capacity(capacity),
        }
    }

    pub fn push(&mut self, source: u32, target: u32)
        requires
            old(self).wf(),
        ensures
            final(self).wf(),
            final(self).sources() == old(self).sources().push(source),
            final(self).targets() == old(self).targets().push(target),
    {
        self.source_indices.push(source);
        self.target_indices.push(target);
    }

    pub fn len(&self) -> (n: usize)
        ensures
            n == self.sources().len(),
    {
        self.source_indices.len()
    }

    /// Reorder the targets as a stable sort of the interactions by source would; the
    /// source list itself keeps its order, so afterwards `source_indices[k]` and
    /// `target_indices[k]` no longer name one interaction. Callers that need the
    /// sources in that order sort them the same way.
    pub fn sort_by_sources(&mut self)
        requires
            old(self).wf(),
        ensures
            final(self).wf(),
            final(self).sources() == old(self).sources(),
            exists|perm: Seq<usize>|
                {
                    &&& is_permutation(perm, old(self).sources().len() as int)
                    &&& sorted_by_keys(perm, widen(old(self).sources()), 0, old(self).sources().len() as int)
                    &&& #[trigger] final(self).targets() == gather(old(self).targets(), perm)
                },
    {
        let n: usize = self.len();
        let mut scratch: Vec<u32> = Vec::with_capacity(n);
        let mut keys: Vec<u64> = Vec::with_capacity(n);
        let mut i: usize = 0;
        while i < n
            invariant
                n == self.source_indices@.len(),
                i <= n,
                scratch@.len() == i,
                keys@ == widen(self.source_indices@).take(i as int),
            decreases n - i,
        {
            scratch.push(0);
            keys.push(self.source_indices[i] as u64);
            i = i + 1;
            proof {
                assert(keys@ =~= widen(self.source_indices@).take(i as int));
            }
        }
        proof {
            assert(keys@ =~= widen(self.source_indices@));
        }
        let indices: Vec<usize> = argsort(keys.as_slice());
        sort_by_indices(self.target_indices.as_mut_slice(), scratch.as_mut_slice(), indices.as_slice());
        proof {
            assert(self.target_indices@ == gather(old(self).targets(), indices@));
        }
    }
}

} // verus!
