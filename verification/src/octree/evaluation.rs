//! Methods and data structures for using the octree to evaluate fields problems

use vstd::prelude::*;
use crate::octree::node::INVALID_NODE;
use crate::octree::topology::{Topology, TreeView, child_count};

verus! {

/// Interactions grouped by source (an element or a tree node): the targets of
/// source `b` are `data[offsets[b]..offsets[b + 1]]`, and `buf_len` is the largest
/// number of targets of any one source
pub struct InteractionList {
    pub data: Vec<u32>,
    pub offsets: Vec<u32>,
    pub buf_len: usize,
}

/// The targets paired with source `b`, in the order of `pairs`
pub open spec fn targets_of(pairs: Seq<(u32, u32)>, b: int) -> Seq<u32>
    decreases pairs.len(),
{
    if pairs.len() == 0 {
        Seq::empty()
    } else if pairs.last().0 == b {
        targets_of(pairs.drop_last(), b).push(pairs.last().1)
    } else {
        targets_of(pairs.drop_last(), b)
    }
}

/// Number of pairs whose source is below `b`
pub open spec fn count_before(pairs: Seq<(u32, u32)>, b: int) -> nat
    decreases pairs.len(),
{
    if pairs.len() == 0 {
        0
    } else {
        count_before(pairs.drop_last(), b) + if pairs.last().0 < b {
            1nat
        } else {
            0nat
        }
    }
}

pub proof fn lemma_targets_of_push(pairs: Seq<(u32, u32)>, x: (u32, u32), b: int)
    ensures
        targets_of(pairs.push(x), b) == if x.0 == b {
            targets_of(pairs, b).push(x.1)
        } else {
            targets_of(pairs, b)
        },
        count_before(pairs.push(x), b) == count_before(pairs, b) + if x.0 < b {
            1nat
        } else {
            0nat
        },
{
    assert(pairs.push(x).drop_last() =~= pairs);
}

/// The targets of a concatenation are the concatenated targets
pub proof fn lemma_targets_of_concat(a: Seq<(u32, u32)>, c: Seq<(u32, u32)>, b: int)
    ensures
        targets_of(a + c, b) == targets_of(a, b) + targets_of(c, b),
    decreases c.len(),
{
    if c.len() == 0 {
        assert(a + c =~= a);
        assert(targets_of(a, b) + targets_of(c, b) =~= targets_of(a, b));
    } else {
        let c0 = c.drop_last();
        lemma_targets_of_concat(a, c0, b);
        assert((a + c).drop_last() =~= a + c0);
        assert((a + c).last() == c.last());
        if c.last().0 == b {
            assert(targets_of(a, b) + targets_of(c, b) =~= (targets_of(a, b) + targets_of(c0, b)).push(c.last().1));
        }
    }
}

/// Moving the bound up by one source adds that source's pairs
pub proof fn lemma_count_before_step(pairs: Seq<(u32, u32)>, b: int)
    ensures
        count_before(pairs, b + 1) == count_before(pairs, b) + targets_of(pairs, b).len(),
    decreases pairs.len(),
{
    if pairs.len() > 0 {
        lemma_count_before_step(pairs.drop_last(), b);
    }
}

pub proof fn lemma_count_before_monotone(pairs: Seq<(u32, u32)>, b1: int, b2: int)
    requires
        b1 <= b2,
    ensures
        count_before(pairs, b1) <= count_before(pairs, b2),
    decreases pairs.len(),
{
    if pairs.len() > 0 {
        lemma_count_before_monotone(pairs.drop_last(), b1, b2);
    }
}

pub proof fn lemma_count_before_zero(pairs: Seq<(u32, u32)>)
    ensures
        count_before(pairs, 0) == 0,
    decreases pairs.len(),
{
    if pairs.len() > 0 {
        lemma_count_before_zero(pairs.drop_last());
    }
}

/// When every source is below `n`, all pairs count below `n`
pub proof fn lemma_count_before_all(pairs: Seq<(u32, u32)>, n: int)
    requires
        forall|p: int| 0 <= p < pairs.len() ==> #[trigger] pairs[p].0 < n,
    ensures
        count_before(pairs, n) == pairs.len(),
    decreases pairs.len(),
{
    if pairs.len() > 0 {
        assert forall|p: int| 0 <= p < pairs.drop_last().len() implies #[trigger] pairs.drop_last()[p].0 < n by {
            assert(pairs.drop_last()[p] == pairs[p]);
        }
        lemma_count_before_all(pairs.drop_last(), n);
    }
}

impl InteractionList {
    /// The targets listed for source `b`
    pub open spec fn group(&self, b: int) -> Seq<u32> {
        self.data@.subrange(self.offsets@[b] as int, self.offsets@[b + 1] as int)
    }

    /// The offsets of `n` sources start at zero, never decrease and end with the data
    pub open spec fn offsets_ok(&self, n: int) -> bool {
        &&& self.offsets@.len() == n + 1
        &&& self.offsets@[0] == 0
        &&& self.offsets@[n] == self.data@.len()
        &&& forall|b1: int, b2: int| 0 <= b1 <= b2 <= n ==> #[trigger] self.offsets@[b1] <= #[trigger] self.offsets@[b2]
    }

    /// Group interactions by source. `pairs` lists `(source, target)` interactions
    /// in the order they were found; each source's targets keep that order.
    pub fn from_pairs(n_sources: usize, pairs: &[(u32, u32)]) -> (list: InteractionList)
        requires
            0 < n_sources < usize::MAX,
            pairs@.len() <= u32::MAX,
            forall|p: int| 0 <= p < pairs@.len() ==> (#[trigger] pairs@[p]).0 < n_sources,
        ensures
            list.offsets_ok(n_sources as int),
            list.data@.len() == pairs@.len(),
            forall|b: int| 0 <= b <= n_sources ==> #[trigger] list.offsets@[b] == count_before(pairs@, b),
            forall|b: int|
                0 <= b < n_sources ==> list.data@.subrange(
                    list.offsets@[b] as int,
                    list.offsets@[b + 1] as int,
                ) == #[trigger] targets_of(pairs@, b),
            forall|b: int| 0 <= b < n_sources ==> #[trigger] targets_of(pairs@, b).len() <= list.buf_len,
            exists|b: int| 0 <= b < n_sources && #[trigger] targets_of(pairs@, b).len() == list.buf_len,
    {
        let n_pairs: usize = pairs.len();

        // Count first
        let mut counts: Vec<u32> = Vec::with_capacity(n_sources);
        let mut i: usize = 0;
        while i < n_sources
            invariant
                i <= n_sources,
                counts@.len() == i,
                forall|b: int| 0 <= b < i ==> #[trigger] counts@[b] == 0,
            decreases n_sources - i,
        {
            counts.push(0);
            i = i + 1;
        }
        let mut p: usize = 0;
        proof {
            assert(pairs@.take(0) =~= Seq::<(u32, u32)>::empty());
        }
        while p < n_pairs
            invariant
                n_pairs == pairs@.len(),
                n_pairs <= u32::MAX,
                p <= n_pairs,
                counts@.len() == n_sources,
                forall|q: int| 0 <= q < pairs@.len() ==> (#[trigger] pairs@[q]).0 < n_sources,
                forall|b: int| 0 <= b < n_sources ==> #[trigger] counts@[b] == targets_of(pairs@.take(p as int), b).len(),
                forall|b: int| 0 <= b < n_sources ==> #[trigger] targets_of(pairs@.take(p as int), b).len() <= p,
            decreases n_pairs - p,
        {
            let b = pairs[p].0 as usize;
            proof {
                assert(pairs@.take(p + 1) =~= pairs@.take(p as int).push(pairs@[p as int]));
                assert forall|b2: int| 0 <= b2 < n_sources implies #[trigger] targets_of(pairs@.take(p + 1), b2).len() <= p + 1 by {
                    lemma_targets_of_push(pairs@.take(p as int), pairs@[p as int], b2);
                }
                lemma_targets_of_push(pairs@.take(p as int), pairs@[p as int], b as int);
            }
            counts.set(b, counts[b] + 1);
            proof {
                assert forall|b2: int| 0 <= b2 < n_sources implies #[trigger] counts@[b2] == targets_of(pairs@.take(p + 1), b2).len() by {
                    lemma_targets_of_push(pairs@.take(p as int), pairs@[p as int], b2);
                }
            }
            p = p + 1;
        }
        proof {
            assert(pairs@.take(n_pairs as int) =~= pairs@);
        }

        // Create offsets
        let mut offsets: Vec<u32> = Vec::with_capacity(n_sources + 1);
        let mut running: u32 = 0;
        let mut e: usize = 0;
        proof {
            lemma_count_before_zero(pairs@);
        }
        while e < n_sources
            invariant
                e <= n_sources,
                counts@.len() == n_sources,
                n_pairs == pairs@.len(),
                n_pairs <= u32::MAX,
                forall|b: int| 0 <= b < n_sources ==> #[trigger] counts@[b] == targets_of(pairs@, b).len(),
                offsets@.len() == e,
                running == count_before(pairs@, e as int),
                forall|b: int| 0 <= b < e ==> #[trigger] offsets@[b] == count_before(pairs@, b),
                forall|q: int| 0 <= q < pairs@.len() ==> (#[trigger] pairs@[q]).0 < n_sources,
            decreases n_sources - e,
        {
            offsets.push(running);
            proof {
                lemma_count_before_step(pairs@, e as int);
                lemma_count_before_monotone(pairs@, e + 1, n_sources as int);
                lemma_count_before_all(pairs@, n_sources as int);
            }
            running = running + counts[e];
            e = e + 1;
        }
        offsets.push(running);
        proof {
            lemma_count_before_all(pairs@, n_sources as int);
        }
        let mut data: Vec<u32> = Vec::with_capacity(running as usize);
        let mut d: usize = 0;
        while d < running as usize
            invariant
                d <= running,
                data@.len() == d,
            decreases running - d,
        {
            data.push(0);
            d = d + 1;
        }

        // Fill interaction list data
        let mut cursor: Vec<u32> = offsets.clone();
        let mut p: usize = 0;
        proof {
            assert(pairs@.take(0) =~= Seq::<(u32, u32)>::empty());
        }
        while p < n_pairs
            invariant
                n_pairs == pairs@.len(),
                n_pairs <= u32::MAX,
                p <= n_pairs,
                data@.len() == n_pairs,
                offsets@.len() == n_sources + 1,
                cursor@.len() == n_sources + 1,
                forall|q: int| 0 <= q < pairs@.len() ==> (#[trigger] pairs@[q]).0 < n_sources,
                forall|b: int| 0 <= b <= n_sources ==> #[trigger] offsets@[b] == count_before(pairs@, b),
                forall|b: int|
                    0 <= b < n_sources ==> #[trigger] cursor@[b] == offsets@[b] + targets_of(pairs@.take(p as int), b).len(),
                forall|b: int, i: int|
                    0 <= b < n_sources && 0 <= i < targets_of(pairs@.take(p as int), b).len() ==> data@[offsets@[b] + i]
                        == #[trigger] targets_of(pairs@.take(p as int), b)[i],
            decreases n_pairs - p,
        {
            let (b, t) = pairs[p];
            let b = b as usize;
            let ghost pre = pairs@.take(p as int);
            let ghost post = pairs@.take(p + 1);
            let ghost rest = pairs@.skip(p + 1);
            let ghost old_data = data@;
            proof {
                assert(post =~= pre.push(pairs@[p as int]));
                assert(pairs@ =~= post + rest);
                lemma_targets_of_concat(post, rest, b as int);
                lemma_targets_of_push(pre, pairs@[p as int], b as int);
                lemma_count_before_step(pairs@, b as int);
                lemma_count_before_monotone(pairs@, b + 1, n_sources as int);
                lemma_count_before_all(pairs@, n_sources as int);
                assert(targets_of(post, b as int).len() == targets_of(pre, b as int).len() + 1);
                assert(targets_of(pairs@, b as int).len() == targets_of(post, b as int).len() + targets_of(rest, b as int).len());
                assert(offsets@[b + 1] == offsets@[b as int] + targets_of(pairs@, b as int).len());
                assert(offsets@[n_sources as int] == n_pairs);
                assert(cursor@[b as int] < offsets@[b + 1]);
            }
            let q = cursor[b] as usize;
            data.set(q, t);
            cursor.set(b, cursor[b] + 1);
            proof {
                assert forall|b2: int| 0 <= b2 < n_sources implies #[trigger] cursor@[b2] == offsets@[b2] + targets_of(post, b2).len() by {
                    lemma_targets_of_push(pre, pairs@[p as int], b2);
                }
                assert forall|b2: int, i: int|
                    0 <= b2 < n_sources && 0 <= i < targets_of(post, b2).len() implies data@[offsets@[b2] + i]
                        == #[trigger] targets_of(post, b2)[i] by {
                    lemma_targets_of_push(pre, pairs@[p as int], b2);
                    if b2 == b {
                        if i < targets_of(pre, b2).len() {
                            assert(targets_of(post, b2)[i] == targets_of(pre, b2)[i]);
                            assert(old_data[offsets@[b2] + i] == targets_of(pre, b2)[i]);
                            assert(offsets@[b2] + i != q);
                        } else {
                            assert(offsets@[b2] + i == q);
                        }
                    } else {
                        lemma_targets_of_concat(post, rest, b2);
                        lemma_count_before_step(pairs@, b2);
                        lemma_count_before_monotone(pairs@, b2 + 1, n_sources as int);
                        assert(targets_of(pre, b2) == targets_of(post, b2));
                        assert(old_data[offsets@[b2] + i] == targets_of(pre, b2)[i]);
                        assert(offsets@[b2] + i < offsets@[b2 + 1]);
                        if b2 < b {
                            lemma_count_before_monotone(pairs@, b2 + 1, b as int);
                        } else {
                            lemma_count_before_monotone(pairs@, b + 1, b2);
                        }
                        assert(offsets@[b2] + i != q);
                    }
                }
            }
            p = p + 1;
        }

        // Largest number of targets of one source
        let mut buf_len: u32 = counts[0];
        let ghost mut arg: int = 0;
        let mut e: usize = 1;
        while e < n_sources
            invariant
                1 <= e <= n_sources,
                counts@.len() == n_sources,
                0 <= arg < e,
                buf_len == counts@[arg],
                forall|b: int| 0 <= b < n_sources ==> #[trigger] counts@[b] == targets_of(pairs@, b).len(),
                forall|b: int| 0 <= b < e ==> #[trigger] counts@[b] <= buf_len,
            decreases n_sources - e,
        {
            if counts[e] > buf_len {
                buf_len = counts[e];
                proof {
                    arg = e as int;
                }
            }
            e = e + 1;
        }
        proof {
            assert(pairs@.take(n_pairs as int) =~= pairs@);
            assert forall|b: int|
                0 <= b < n_sources implies data@.subrange(offsets@[b] as int, offsets@[b + 1] as int)
                    == #[trigger] targets_of(pairs@, b) by {
                lemma_count_before_step(pairs@, b);
                lemma_count_before_monotone(pairs@, b + 1, n_sources as int);
                assert forall|i: int| 0 <= i < targets_of(pairs@, b).len() implies data@[offsets@[b] + i] == targets_of(pairs@, b)[i] by {
                    assert(targets_of(pairs@.take(n_pairs as int), b)[i] == targets_of(pairs@, b)[i]);
                }
                assert(data@.subrange(offsets@[b] as int, offsets@[b + 1] as int) =~= targets_of(pairs@, b));
            }
            assert(targets_of(pairs@, arg).len() == buf_len);
            lemma_count_before_zero(pairs@);
            lemma_count_before_all(pairs@, n_sources as int);
            assert forall|b1: int, b2: int| 0 <= b1 <= b2 <= n_sources implies #[trigger] offsets@[b1] <= #[trigger] offsets@[b2] by {
                lemma_count_before_monotone(pairs@, b1, b2);
            }
            assert forall|b: int| 0 <= b < n_sources implies #[trigger] targets_of(pairs@, b).len() <= buf_len by {
                assert(counts@[b] <= buf_len);
            }
        }
        InteractionList { data, offsets, buf_len: buf_len as usize }
    }
}

/// Number of entries of `nodes` whose range holds source `s`
pub open spec fn holding_count(t: TreeView, nodes: Seq<u32>, s: int) -> nat
    decreases nodes.len(),
{
    if nodes.len() == 0 {
        0
    } else {
        holding_count(t, nodes.drop_last(), s) + if t.holds(nodes.last() as int, s) {
            1nat
        } else {
            0nat
        }
    }
}

/// Number of times `v` occurs in `xs`
pub open spec fn occurrences(xs: Seq<u32>, v: int) -> nat
    decreases xs.len(),
{
    if xs.len() == 0 {
        0
    } else {
        occurrences(xs.drop_last(), v) + if xs.last() == v {
            1nat
        } else {
            0nat
        }
    }
}

/// Every node at a shallower level that shares a source with node `n` was opened
/// for `target`: it is a branch and `accept` turned it down
pub open spec fn opened_above<F: Fn(u32, u32) -> bool>(t: TreeView, accept: F, target: u32, n: int) -> bool {
    forall|a: int, x: int|
        0 <= a < t.len() && t.levels[a] < t.levels[n] && t.holds(n, x) && #[trigger] t.holds(a, x)
            ==> !t.leaf[a] && accept.ensures((target, a as u32), false)
}

/// Source `v` was reached for `target` through a leaf that `accept` turned down
pub open spec fn near_reached<F: Fn(u32, u32) -> bool>(t: TreeView, accept: F, target: u32, v: int) -> bool {
    exists|i: int|
        0 <= i < t.len() && t.leaf[i] && #[trigger] t.holds(i, v) && accept.ensures((target, i as u32), false)
            && opened_above(t, accept, target, i)
}

spec fn pow9(k: nat) -> nat
    decreases k,
{
    if k == 0 {
        1
    } else {
        9 * pow9((k - 1) as nat)
    }
}

/// A node `k` levels above the deepest level weighs `9^k`; a branch outweighs its
/// (at most eight) children
spec fn stack_weight(t: TreeView, max_depth: int, st: Seq<u32>) -> nat
    decreases st.len(),
{
    if st.len() == 0 {
        0
    } else {
        stack_weight(t, max_depth, st.drop_last()) + pow9((max_depth - t.levels[st.last() as int]) as nat)
    }
}

/// Sources held by a stack of nodes, counting an empty range as one
spec fn range_weight(t: TreeView, st: Seq<u32>) -> int
    decreases st.len(),
{
    if st.len() == 0 {
        0
    } else {
        let r = t.ranges[st.last() as int];
        range_weight(t, st.drop_last()) + if r.0 < r.1 {
            r.1 - r.0
        } else {
            1
        }
    }
}

proof fn lemma_pow9_positive(k: nat)
    ensures
        pow9(k) >= 1,
    decreases k,
{
    if k > 0 {
        lemma_pow9_positive((k - 1) as nat);
    }
}

proof fn lemma_push_counts(t: TreeView, max_depth: int, xs: Seq<u32>, x: u32)
    ensures
        forall|s: int| #[trigger] holding_count(t, xs.push(x), s) == holding_count(t, xs, s) + if t.holds(x as int, s) {
            1nat
        } else {
            0nat
        },
        forall|v: int| #[trigger] occurrences(xs.push(x), v) == occurrences(xs, v) + if x == v {
            1nat
        } else {
            0nat
        },
        stack_weight(t, max_depth, xs.push(x)) == stack_weight(t, max_depth, xs) + pow9(
            (max_depth - t.levels[x as int]) as nat,
        ),
        range_weight(t, xs.push(x)) == range_weight(t, xs) + if t.ranges[x as int].0 < t.ranges[x as int].1 {
            t.ranges[x as int].1 - t.ranges[x as int].0
        } else {
            1
        },
{
    assert(xs.push(x).drop_last() =~= xs);
}

/// A child of a node opened for `target` has every shallower node sharing its
/// sources opened as well
proof fn lemma_child_opened<F: Fn(u32, u32) -> bool>(t: TreeView, max_depth: int, accept: F, target: u32, i: int, c: int)
    requires
        t.traversable(max_depth),
        0 <= i < t.len(),
        opened_above(t, accept, target, i),
        !t.leaf[i],
        accept.ensures((target, i as u32), false),
        t.child_ok(i, c),
    ensures
        opened_above(t, accept, target, c),
{
    assert forall|a: int, x: int|
        0 <= a < t.len() && t.levels[a] < t.levels[c] && t.holds(c, x) && #[trigger] t.holds(a, x) implies !t.leaf[a]
            && accept.ensures((target, a as u32), false) by {
        assert(t.holds(i, x));
        if t.levels[a] == t.levels[i] && a != i {
            if a < i {
                assert(t.ordered(a, i));
            } else {
                assert(t.ordered(i, a));
            }
        }
    }
}

/// Later far nodes lie to the left: their ranges end where earlier ones start or
/// before
pub open spec fn far_right_to_left(t: TreeView, far: Seq<u32>) -> bool {
    forall|a: int, b: int|
        0 <= a < b < far.len() ==> t.ranges[#[trigger] far[b] as int].1 <= t.ranges[#[trigger] far[a] as int].0
}

/// Near sources come leaf by leaf from right to left, each leaf's sources in
/// increasing order: a later source is smaller, unless one leaf holds both and it is
/// larger
pub open spec fn near_right_to_left(t: TreeView, near: Seq<u32>) -> bool {
    forall|a: int, b: int|
        0 <= a < b < near.len() ==> #[trigger] near[b] < #[trigger] near[a] || (near[a] < near[b] && exists|i: int|
            0 <= i < t.len() && t.leaf[i] && t.holds(i, near[a] as int) && #[trigger] t.holds(i, near[b] as int))
}

/// Each node of the stack lies left of every later one
spec fn stack_ordered(t: TreeView, st: Seq<u32>) -> bool {
    forall|a: int, b: int|
        0 <= a < b < st.len() ==> t.ranges[#[trigger] st[a] as int].1 <= t.ranges[#[trigger] st[b] as int].0
}

/// Node `x` lies left of everything listed so far
spec fn left_of_lists(t: TreeView, x: int, near: Seq<u32>, far: Seq<u32>) -> bool {
    &&& forall|k: int| 0 <= k < far.len() ==> t.ranges[x].1 <= t.ranges[#[trigger] far[k] as int].0
    &&& forall|k: int| 0 <= k < near.len() ==> t.ranges[x].1 <= #[trigger] near[k]
}

/// Walk the tree for one target, depth first from the root. A node that `accept`
/// takes for the target is a far interaction; a leaf it turns down gives a near
/// interaction with each of its sources; a branch it turns down is opened and its
/// children are visited, the last child first. Returns `(near sources, far nodes)`,
/// each list in the order found: from the right end of the sources to the left.
/// Every source is counted at most once, and exactly once in a tree at least one
/// level deep.
pub fn traverse_target<F: Fn(u32, u32) -> bool>(topology: &Topology, target: u32, accept: &F) -> (lists: (
    Vec<u32>,
    Vec<u32>,
))
    requires
        topology.tree().traversable(topology.max_depth as int),
        forall|t: u32, n: u32| accept.requires((t, n)),
    ensures
        forall|k: int|
            0 <= k < lists.1@.len() ==> (#[trigger] lists.1@[k] as int) < topology.tree().len()
                && accept.ensures((target, lists.1@[k]), true) && opened_above(
                topology.tree(),
                accept,
                target,
                lists.1@[k] as int,
            ),
        forall|k: int|
            0 <= k < lists.0@.len() ==> #[trigger] lists.0@[k] < topology.tree().ranges[0].1 && near_reached(
                topology.tree(),
                accept,
                target,
                lists.0@[k] as int,
            ),
        topology.max_depth >= 1 ==> forall|s: int|
            0 <= s < topology.tree().ranges[0].1 ==> #[trigger] occurrences(lists.0@, s) + holding_count(
                topology.tree(),
                lists.1@,
                s,
            ) == 1,
        forall|s: int|
            0 <= s < topology.tree().ranges[0].1 ==> #[trigger] occurrences(lists.0@, s) + holding_count(
                topology.tree(),
                lists.1@,
                s,
            ) <= 1,
        topology.tree().ranges[0].1 > 0 ==> forall|m: int|
            0 <= m < topology.tree().len() ==> #[trigger] occurrences(lists.1@, m) <= 1,
        occurrences(lists.1@, 0) >= 1 || accept.ensures((target, 0u32), false),
        far_right_to_left(topology.tree(), lists.1@),
        near_right_to_left(topology.tree(), lists.0@),
        lists.0@.len() + lists.1@.len() <= topology.tree().ranges[0].1 + 1,
{
    let ghost t = topology.tree();
    let ghost md = topology.max_depth as int;
    let ghost n = t.ranges[0].1 as int;
    let mut near: Vec<u32> = Vec::new();
    let mut far: Vec<u32> = Vec::new();
    let mut stack: Vec<u32> = Vec::with_capacity(128);
    stack.push(0);
    proof {
        lemma_push_counts(t, md, Seq::empty(), 0);
        assert(Seq::<u32>::empty().push(0) =~= stack@);
    }
    while stack.len() > 0
        invariant
            t == topology.tree(),
            md == topology.max_depth as int,
            n == t.ranges[0].1,
            t.traversable(md),
            forall|t2: u32, n2: u32| accept.requires((t2, n2)),
            forall|k: int|
                0 <= k < stack@.len() ==> (#[trigger] stack@[k] as int) < t.len() && opened_above(
                    t,
                    accept,
                    target,
                    stack@[k] as int,
                ),
            forall|k: int|
                0 <= k < far@.len() ==> (#[trigger] far@[k] as int) < t.len() && accept.ensures((target, far@[k]), true)
                    && opened_above(t, accept, target, far@[k] as int),
            forall|k: int|
                0 <= k < near@.len() ==> #[trigger] near@[k] < n && near_reached(t, accept, target, near@[k] as int),
            md >= 1 ==> forall|s: int|
                0 <= s < n ==> #[trigger] occurrences(near@, s) + holding_count(t, far@, s) + holding_count(t, stack@, s)
                    == 1,
            forall|s: int|
                0 <= s < n ==> #[trigger] occurrences(near@, s) + holding_count(t, far@, s) + holding_count(t, stack@, s)
                    <= 1,
            (stack@ == seq![0u32] && far@.len() == 0) || occurrences(far@, 0) >= 1 || accept.ensures((target, 0u32), false),
            near@.len() + far@.len() + range_weight(t, stack@) <= n + 1,
            far_right_to_left(t, far@),
            near_right_to_left(t, near@),
            stack_ordered(t, stack@),
            forall|k: int| 0 <= k < stack@.len() ==> left_of_lists(t, #[trigger] stack@[k] as int, near@, far@),
        decreases stack_weight(t, md, stack@),
    {
        let ghost st0 = stack@;
        let ni: u32 = match stack.pop() {
            Some(v) => v,
            None => 0,
        };
        let ghost mid = stack@;
        proof {
            assert(mid =~= st0.drop_last());
            assert(st0 =~= mid.push(ni));
            lemma_push_counts(t, md, mid, ni);
            lemma_pow9_positive((md - t.levels[ni as int]) as nat);
            assert(opened_above(t, accept, target, ni as int)) by {
                assert(st0[st0.len() - 1] == ni);
            }
            assert(left_of_lists(t, ni as int, near@, far@)) by {
                assert(st0[st0.len() - 1] == ni);
            }
            assert forall|a: int, b: int| 0 <= a < b < mid.len() implies t.ranges[#[trigger] mid[a] as int].1
                <= t.ranges[#[trigger] mid[b] as int].0 by {
                assert(mid[a] == st0[a] && mid[b] == st0[b]);
            }
            assert forall|k: int| 0 <= k < mid.len() implies t.ranges[#[trigger] mid[k] as int].1 <= t.ranges[ni as int].0
                && left_of_lists(t, mid[k] as int, near@, far@) by {
                assert(mid[k] == st0[k]);
                assert(st0[st0.len() - 1] == ni);
            }
        }
        let idx: usize = ni as usize;
        let acc: bool = accept(target, ni);
        if acc {
            let ghost far0 = far@;
            far.push(ni);
            proof {
                lemma_push_counts(t, md, far0, ni);
                assert forall|k: int| 0 <= k < far@.len() implies (#[trigger] far@[k] as int) < t.len()
                    && accept.ensures((target, far@[k]), true) && opened_above(t, accept, target, far@[k] as int) by {
                    if k < far0.len() {
                        assert(far@[k] == far0[k]);
                    }
                }
                assert forall|a: int, b: int| 0 <= a < b < far@.len() implies t.ranges[#[trigger] far@[b] as int].1
                    <= t.ranges[#[trigger] far@[a] as int].0 by {
                    assert(far@[a] == far0[a]);
                    if b < far0.len() {
                        assert(far@[b] == far0[b]);
                    }
                }
                assert forall|k: int| 0 <= k < stack@.len() implies left_of_lists(t, #[trigger] stack@[k] as int, near@, far@) by {
                    assert(stack@[k] == mid[k]);
                    assert forall|k2: int| 0 <= k2 < far@.len() implies t.ranges[stack@[k] as int].1 <= t.ranges[#[trigger] far@[k2] as int].0 by {
                        if k2 < far0.len() {
                            assert(far@[k2] == far0[k2]);
                        }
                    }
                }
            }
        } else if topology.is_leaf[idx] {
            let (start, end) = topology.source_range[idx];
            let ghost near0 = near@;
            let mut e: u32 = start;
            while e < end
                invariant
                    t == topology.tree(),
                    t.lens_ok(),
                    0 <= idx < t.len(),
                    (start, end) == t.ranges[idx as int],
                    start <= e <= end,
                    near@.len() == near0.len() + (e - start),
                    near@.subrange(0, near0.len() as int) == near0,
                    forall|k: int| near0.len() <= k < near@.len() ==> start <= #[trigger] near@[k] < e,
                    forall|v: int| #[trigger] occurrences(near@, v) == occurrences(near0, v) + if start <= v < e {
                        1nat
                    } else {
                        0nat
                    },
                    t.leaf[idx as int],
                    forall|k: int| near0.len() <= k < near@.len() ==> #[trigger] near@[k] == start + (k - near0.len()),
                    near_right_to_left(t, near0),
                    left_of_lists(t, idx as int, near0, far@),
                    near_right_to_left(t, near@),
                    stack@ == mid,
                    forall|k: int| 0 <= k < mid.len() ==> t.ranges[#[trigger] mid[k] as int].1 <= start && left_of_lists(
                        t,
                        mid[k] as int,
                        near@,
                        far@,
                    ),
                decreases end - e,
            {
                let ghost before = near@;
                near.push(e);
                proof {
                    lemma_push_counts(t, md, before, e);
                    assert(near@.subrange(0, near0.len() as int) =~= before.subrange(0, near0.len() as int));
                    assert forall|a: int, b: int| 0 <= a < b < near@.len() implies #[trigger] near@[b] < #[trigger] near@[a]
                        || (near@[a] < near@[b] && exists|i: int|
                        0 <= i < t.len() && t.leaf[i] && t.holds(i, near@[a] as int) && #[trigger] t.holds(
                            i,
                            near@[b] as int,
                        )) by {
                        if b < before.len() {
                            assert(near@[a] == before[a] && near@[b] == before[b]);
                        } else if a < near0.len() {
                            assert(near@[a] == near0[a]);
                            assert(near@[a] == near0[a]);
                        } else {
                            assert(near@[a] == before[a]);
                            assert(t.holds(idx as int, near@[a] as int));
                            assert(t.holds(idx as int, near@[b] as int));
                        }
                    }
                    assert forall|k: int| 0 <= k < mid.len() implies t.ranges[#[trigger] mid[k] as int].1 <= start
                        && left_of_lists(t, mid[k] as int, near@, far@) by {
                        assert(left_of_lists(t, mid[k] as int, before, far@));
                        assert forall|k2: int| 0 <= k2 < near@.len() implies t.ranges[mid[k] as int].1 <= #[trigger] near@[k2] by {
                            if k2 < before.len() {
                                assert(near@[k2] == before[k2]);
                            }
                        }
                    }
                }
                e = e + 1;
            }
            proof {
                assert(t.ranges[idx as int].1 <= n);
                assert forall|k: int| 0 <= k < near@.len() implies #[trigger] near@[k] < n && near_reached(
                    t,
                    accept,
                    target,
                    near@[k] as int,
                ) by {
                    if k < near0.len() {
                        assert(near@[k] == near0[k]);
                    } else {
                        assert(t.holds(idx as int, near@[k] as int));
                    }
                }
            }
        } else {
            let kids: [u32; 8] = topology.children[idx];
            let ghost i = idx as int;
            let ghost r = t.ranges[i];
            let ghost l = t.levels[i] as int;
            let ghost cs: int = if t.expands(md, i) {
                child_count(kids)
            } else {
                0
            };
            proof {
                if !t.expands(md, i) {
                    assert(t.no_children(i));
                }
                assert forall|s: int| 0 <= s < cs implies #[trigger] kids[s] != INVALID_NODE && t.child_ok(i, kids[s] as int) by {}
                assert forall|s: int| cs <= s < 8 implies #[trigger] kids[s] == INVALID_NODE by {}
            }
            let mut sl: usize = 0;
            while sl < 8
                invariant
                    t == topology.tree(),
                    md == topology.max_depth as int,
                    t.traversable(md),
                    0 <= i < t.len(),
                    kids == t.children[i],
                    r == t.ranges[i],
                    l == t.levels[i],
                    !t.leaf[i],
                    opened_above(t, accept, target, i),
                    accept.ensures((target, i as u32), false),
                    0 <= cs <= 8,
                    forall|s: int| 0 <= s < cs ==> #[trigger] kids[s] != INVALID_NODE && t.child_ok(i, kids[s] as int),
                    forall|s: int| cs <= s < 8 ==> #[trigger] kids[s] == INVALID_NODE,
                    t.expands(md, i) ==> t.split_into(i, cs),
                    !t.expands(md, i) ==> cs == 0,
                    sl <= 8,
                    stack@.len() == mid.len() + if sl < cs { sl as int } else { cs },
                    stack@.subrange(0, mid.len() as int) == mid,
                    forall|j: int| 0 <= j < stack@.len() - mid.len() ==> #[trigger] stack@[mid.len() + j] == kids[j],
                    forall|k: int|
                        0 <= k < stack@.len() ==> (#[trigger] stack@[k] as int) < t.len() && opened_above(
                            t,
                            accept,
                            target,
                            stack@[k] as int,
                        ),
                    forall|k: int|
                        0 <= k < mid.len() ==> (#[trigger] mid[k] as int) < t.len() && opened_above(
                            t,
                            accept,
                            target,
                            mid[k] as int,
                        ),
                    range_weight(t, stack@) == range_weight(t, mid) + if stack@.len() > mid.len() {
                        t.ranges[kids[stack@.len() - mid.len() - 1] as int].1 - r.0
                    } else {
                        0
                    },
                    stack_weight(t, md, stack@) == stack_weight(t, md, mid) + (stack@.len() - mid.len()) * pow9(
                        (md - l - 1) as nat,
                    ),
                    forall|s: int| #[trigger] holding_count(t, stack@, s) == holding_count(t, mid, s) + if stack@.len() > mid.len()
                        && r.0 <= s < t.ranges[kids[stack@.len() - mid.len() - 1] as int].1 {
                        1nat
                    } else {
                        0nat
                    },
                    left_of_lists(t, i, near@, far@),
                    stack_ordered(t, stack@),
                    forall|k: int| 0 <= k < stack@.len() ==> left_of_lists(t, #[trigger] stack@[k] as int, near@, far@),
                    forall|k: int|
                        0 <= k < stack@.len() ==> t.ranges[#[trigger] stack@[k] as int].1 <= if stack@.len() > mid.len() {
                            t.ranges[kids[stack@.len() - mid.len() - 1] as int].1
                        } else {
                            r.0
                        },
                decreases 8 - sl,
            {
                let c: u32 = kids[sl];
                if c != INVALID_NODE {
                    let ghost before = stack@;
                    let ghost p = before.len() - mid.len();
                    proof {
                        assert(sl < cs);
                        assert(p == sl);
                        lemma_push_counts(t, md, before, c);
                        lemma_child_opened(t, md, accept, target, i, c as int);
                        assert(t.levels[c as int] == l + 1);
                        let w = pow9((md - l - 1) as nat);
                        assert((p + 1) * w == p * w + w) by (nonlinear_arith);
                        assert(t.ranges[c as int].0 < t.ranges[c as int].1);
                        if p > 0 {
                            assert(t.ranges[kids[p - 1] as int].1 == t.ranges[kids[p] as int].0);
                        } else {
                            assert(t.ranges[kids[0] as int].0 == r.0);
                        }
                        let bound = if p > 0 {
                            t.ranges[kids[p - 1] as int].1
                        } else {
                            r.0
                        };
                        assert(t.ranges[c as int].0 == bound);
                        assert(before.len() > mid.len() ==> kids[before.len() - mid.len() - 1] == kids[p - 1]);
                        assert(t.child_ok(i, c as int));
                    }
                    stack.push(c);
                    proof {
                        assert(stack@[stack@.len() - 1] == c);
                        assert forall|a: int, b: int| 0 <= a < b < stack@.len() implies t.ranges[#[trigger] stack@[a] as int].1
                            <= t.ranges[#[trigger] stack@[b] as int].0 by {
                            assert(stack@[a] == before[a]);
                            if b < before.len() {
                                assert(stack@[b] == before[b]);
                            }
                        }
                        assert forall|k: int| 0 <= k < stack@.len() implies left_of_lists(t, #[trigger] stack@[k] as int, near@, far@) by {
                            if k < before.len() {
                                assert(stack@[k] == before[k]);
                            }
                        }
                        assert forall|k: int| 0 <= k < stack@.len() implies t.ranges[#[trigger] stack@[k] as int].1
                            <= t.ranges[kids[stack@.len() - mid.len() - 1] as int].1 by {
                            assert(stack@[mid.len() + p] == c);
                            if k < before.len() {
                                assert(stack@[k] == before[k]);
                            }
                        }
                        assert(stack@.subrange(0, mid.len() as int) =~= before.subrange(0, mid.len() as int));
                        assert forall|j: int| 0 <= j < stack@.len() - mid.len() implies #[trigger] stack@[mid.len() + j] == kids[j] by {
                            if j < p {
                                assert(stack@[mid.len() + j] == before[mid.len() + j]);
                            }
                        }
                        assert forall|k: int| 0 <= k < stack@.len() implies (#[trigger] stack@[k] as int) < t.len()
                            && opened_above(t, accept, target, stack@[k] as int) by {
                            if k < before.len() {
                                assert(stack@[k] == before[k]);
                            }
                        }
                        assert(t.expands(md, i));
                        assert forall|s: int| #[trigger] holding_count(t, stack@, s) == holding_count(t, mid, s) + if stack@.len() > mid.len()
                            && r.0 <= s < t.ranges[kids[stack@.len() - mid.len() - 1] as int].1 {
                            1nat
                        } else {
                            0nat
                        } by {
                            assert(stack@[mid.len() + p] == c);
                            if p > 0 {
                                assert(t.ranges[kids[p - 1] as int].1 == t.ranges[kids[p] as int].0);
                                assert(t.ranges[kids[p - 1] as int].0 <= t.ranges[kids[p - 1] as int].1);
                                assert(r.0 <= t.ranges[kids[p - 1] as int].0) by {
                                    assert(t.child_ok(i, kids[p - 1] as int));
                                }
                            } else {
                                assert(t.ranges[kids[0] as int].0 == r.0);
                            }
                        }
                    }
                }
                sl = sl + 1;
            }
            proof {
                let pushed = stack@.len() - mid.len();
                let w = pow9((md - l - 1) as nat);
                assert(pushed <= 8);
                if pushed > 0 {
                    assert(kids[0] != INVALID_NODE);
                    assert(t.child_ok(i, kids[0] as int));
                    assert(t.levels[kids[0] as int] <= md);
                    assert(pow9((md - l) as nat) == 9 * w);
                    lemma_pow9_positive((md - l - 1) as nat);
                    assert(pushed * w < 9 * w) by (nonlinear_arith)
                        requires
                            pushed <= 8,
                            w >= 1,
                    ;
                } else {
                    assert(pushed * w == 0) by (nonlinear_arith)
                        requires
                            pushed == 0,
                    ;
                }
                if pushed > 0 {
                    assert(t.expands(md, i));
                    assert(kids[pushed - 1] == kids[cs - 1]);
                }
                assert forall|s: int| 0 <= s < n implies #[trigger] occurrences(near@, s) + holding_count(t, far@, s)
                    + holding_count(t, stack@, s) <= 1 by {
                    assert(holding_count(t, stack@, s) <= holding_count(t, mid, s) + if t.holds(i, s) {
                        1nat
                    } else {
                        0nat
                    });
                }
                if md >= 1 {
                    if i > 0 {
                        assert(l < md);
                    }
                    assert(t.expands(md, i));
                    assert forall|s: int| 0 <= s < n implies #[trigger] occurrences(near@, s) + holding_count(t, far@, s)
                        + holding_count(t, stack@, s) == 1 by {
                        assert(holding_count(t, stack@, s) == holding_count(t, mid, s) + if t.holds(i, s) {
                            1nat
                        } else {
                            0nat
                        });
                    }
                }
            }
        }
    }
    proof {
        assert forall|m: int| n > 0 && 0 <= m < t.len() implies #[trigger] occurrences(far@, m) <= 1 by {
            let s = t.ranges[m].0 as int;
            if m > 0 {
                assert(t.ranges[m].0 < t.ranges[m].1);
            }
            assert(t.levels[m] <= md);
            assert(t.ranges[m].1 <= n);
            assert(t.holds(m, s));
            lemma_holding_ge_occurrences(t, far@, m, s);
            assert(stack@.len() == 0);
            assert(occurrences(near@, s) + holding_count(t, far@, s) + holding_count(t, stack@, s) <= 1);
        }
    }
    (near, far)
}

/// Some leaf numbered below `i` holds source `s`
pub open spec fn leaf_below(t: TreeView, s: int, i: int) -> bool {
    exists|j: int| 0 <= j < i && t.leaf[j] && #[trigger] t.holds(j, s)
}

/// What `leaf_of_sources` records for source `s` after the nodes below `i`: the
/// last such leaf that holds it, or 0 when none does
pub open spec fn leaf_recorded(t: TreeView, s: int, i: int, j: usize) -> bool {
    if leaf_below(t, s, i) {
        &&& j < i
        &&& t.leaf[j as int]
        &&& t.holds(j as int, s)
        &&& forall|k: int| j < k < i && t.leaf[k] ==> !#[trigger] t.holds(k, s)
    } else {
        j == 0
    }
}

/// The leaf that holds each source: for every source of the tree, the last leaf
/// whose range holds it, or 0 when no leaf does. In a tree built from Morton codes
/// at least one level deep, every source lies in exactly one leaf
/// (`lemma_sources_in_one_leaf`).
pub fn leaf_of_sources(topology: &Topology) -> (leaf_of: Vec<usize>)
    requires
        topology.tree().traversable(topology.max_depth as int),
    ensures
        leaf_of@.len() == topology.tree().ranges[0].1,
        forall|s: int|
            0 <= s < leaf_of@.len() ==> leaf_recorded(topology.tree(), s, topology.tree().len(), #[trigger] leaf_of@[s]),
{
    let ghost t = topology.tree();
    let ghost md = topology.max_depth as int;
    let n: usize = topology.source_range[0].1 as usize;
    let mut leaf_of: Vec<usize> = Vec::with_capacity(n);
    let mut s: usize = 0;
    while s < n
        invariant
            s <= n,
            leaf_of@.len() == s,
            forall|k: int| 0 <= k < s ==> #[trigger] leaf_of@[k] == 0,
        decreases n - s,
    {
        leaf_of.push(0);
        s = s + 1;
    }
    let n_nodes: usize = topology.len();
    let mut i: usize = 0;
    while i < n_nodes
        invariant
            t == topology.tree(),
            t.traversable(md),
            n == t.ranges[0].1,
            n_nodes == t.len(),
            i <= n_nodes,
            leaf_of@.len() == n,
            forall|v: int| 0 <= v < n ==> leaf_recorded(t, v, i as int, #[trigger] leaf_of@[v]),
        decreases n_nodes - i,
    {
        let ghost prev = leaf_of@;
        if topology.is_leaf[i] {
            let (start, end) = topology.source_range[i];
            proof {
                assert(t.levels[i as int] <= md);
            }
            let mut e: u32 = start;
            while e < end
                invariant
                    t == topology.tree(),
                    (start, end) == t.ranges[i as int],
                    start <= e <= end <= n,
                    leaf_of@.len() == n,
                    forall|v: int| 0 <= v < n ==> #[trigger] leaf_of@[v] == if start <= v < e {
                        i
                    } else {
                        prev[v]
                    },
                decreases end - e,
            {
                leaf_of.set(e as usize, i);
                e = e + 1;
            }
        }
        proof {
            assert forall|v: int| 0 <= v < n implies leaf_recorded(t, v, i + 1, #[trigger] leaf_of@[v]) by {
                assert(leaf_recorded(t, v, i as int, prev[v]));
                if t.leaf[i as int] && t.holds(i as int, v) {
                    assert(leaf_below(t, v, i + 1));
                } else {
                    if leaf_below(t, v, i as int) {
                        let w = choose|j: int| 0 <= j < i && t.leaf[j] && #[trigger] t.holds(j, v);
                        assert(leaf_below(t, v, i + 1));
                    } else {
                        assert(!leaf_below(t, v, i + 1)) by {
                            if leaf_below(t, v, i + 1) {
                                let w = choose|j: int| 0 <= j < i + 1 && t.leaf[j] && #[trigger] t.holds(j, v);
                                assert(leaf_below(t, v, i as int));
                            }
                        }
                    }
                }
            }
        }
        i = i + 1;
    }
    leaf_of
}

/// A node holding `s` counts towards `s` each time it is listed
proof fn lemma_holding_ge_occurrences(t: TreeView, xs: Seq<u32>, m: int, s: int)
    requires
        t.holds(m, s),
    ensures
        holding_count(t, xs, s) >= occurrences(xs, m),
    decreases xs.len(),
{
    if xs.len() > 0 {
        lemma_holding_ge_occurrences(t, xs.drop_last(), m, s);
    }
}

/// For target `tt`, the number of times far nodes below index `m` that hold source
/// `s` list it
pub open spec fn far_count(t: TreeView, far: InteractionList, s: int, tt: int, m: int) -> nat
    decreases m,
{
    if m <= 0 {
        0
    } else {
        far_count(t, far, s, tt, m - 1) + if t.holds(m - 1, s) {
            occurrences(far.group(m - 1), tt)
        } else {
            0nat
        }
    }
}

/// Entries of `xs` that are nodes below index `m` holding source `s`
spec fn nodes_holding(t: TreeView, xs: Seq<u32>, s: int, m: int) -> nat
    decreases m,
{
    if m <= 0 {
        0
    } else {
        nodes_holding(t, xs, s, m - 1) + if t.holds(m - 1, s) {
            occurrences(xs, m - 1)
        } else {
            0nat
        }
    }
}

proof fn lemma_nodes_holding_push(t: TreeView, xs: Seq<u32>, x: u32, s: int, m: int)
    ensures
        nodes_holding(t, xs.push(x), s, m) == nodes_holding(t, xs, s, m) + if x < m && t.holds(x as int, s) {
            1nat
        } else {
            0nat
        },
    decreases m,
{
    lemma_push_counts(t, 0, xs, x);
    if m > 0 {
        lemma_nodes_holding_push(t, xs, x, s, m - 1);
    }
}

/// Counting the entries of a node list that hold `s` node by node
proof fn lemma_holding_by_node(t: TreeView, xs: Seq<u32>, s: int, m: int)
    requires
        forall|k: int| 0 <= k < xs.len() ==> #[trigger] xs[k] < m,
    ensures
        holding_count(t, xs, s) == nodes_holding(t, xs, s, m),
    decreases xs.len(),
{
    if xs.len() == 0 {
        assert(nodes_holding(t, xs, s, m) == 0) by {
            lemma_nodes_holding_empty(t, xs, s, m);
        }
    } else {
        let ys = xs.drop_last();
        assert forall|k: int| 0 <= k < ys.len() implies #[trigger] ys[k] < m by {
            assert(ys[k] == xs[k]);
        }
        lemma_holding_by_node(t, ys, s, m);
        assert(xs =~= ys.push(xs.last()));
        lemma_nodes_holding_push(t, ys, xs.last(), s, m);
        assert(xs[xs.len() - 1] < m);
    }
}

proof fn lemma_nodes_holding_empty(t: TreeView, xs: Seq<u32>, s: int, m: int)
    requires
        xs.len() == 0,
    ensures
        nodes_holding(t, xs, s, m) == 0,
    decreases m,
{
    if m > 0 {
        lemma_nodes_holding_empty(t, xs, s, m - 1);
    }
}

proof fn lemma_far_count_by_node(t: TreeView, far: InteractionList, xs: Seq<u32>, s: int, tt: int, m: int)
    requires
        forall|j: int| 0 <= j < m ==> #[trigger] occurrences(far.group(j), tt) == occurrences(xs, j),
    ensures
        far_count(t, far, s, tt, m) == nodes_holding(t, xs, s, m),
    decreases m,
{
    if m > 0 {
        lemma_far_count_by_node(t, far, xs, s, tt, m - 1);
        assert(occurrences(far.group(m - 1), tt) == occurrences(xs, m - 1));
    }
}

/// A value at two positions of a sequence occurs at least twice in it
proof fn lemma_occurrences_two(xs: Seq<u32>, i: int, j: int)
    requires
        0 <= i < j < xs.len(),
        xs[i] == xs[j],
    ensures
        occurrences(xs, xs[j] as int) >= 2,
    decreases xs.len(),
{
    let ys = xs.drop_last();
    if j == xs.len() - 1 {
        lemma_occurrences_one(ys, i);
        assert(ys[i] == xs[i]);
    } else {
        assert(ys[i] == xs[i] && ys[j] == xs[j]);
        lemma_occurrences_two(ys, i, j);
    }
}

proof fn lemma_occurrences_one(xs: Seq<u32>, i: int)
    requires
        0 <= i < xs.len(),
    ensures
        occurrences(xs, xs[i] as int) >= 1,
    decreases xs.len(),
{
    let ys = xs.drop_last();
    if i < xs.len() - 1 {
        assert(ys[i] == xs[i]);
        lemma_occurrences_one(ys, i);
    }
}

/// A non-decreasing sequence with no repeated value is increasing
proof fn lemma_increasing(xs: Seq<u32>, i: int, j: int)
    requires
        forall|a: int, b: int| 0 <= a <= b < xs.len() ==> #[trigger] xs[a] <= #[trigger] xs[b],
        forall|v: int| #[trigger] occurrences(xs, v) <= 1,
        0 <= i < j < xs.len(),
    ensures
        xs[i] < xs[j],
{
    if xs[i] == xs[j] {
        lemma_occurrences_two(xs, i, j);
        assert(occurrences(xs, xs[j] as int) <= 1);
    }
}

/// A property of every pair holds of each target listed for a source
proof fn lemma_targets_of_all(pairs: Seq<(u32, u32)>, b: int, prop: spec_fn(u32, u32) -> bool)
    requires
        forall|p: int| 0 <= p < pairs.len() ==> #[trigger] prop(pairs[p].0, pairs[p].1),
    ensures
        forall|k: int| 0 <= k < targets_of(pairs, b).len() ==> #[trigger] prop(b as u32, targets_of(pairs, b)[k]),
    decreases pairs.len(),
{
    if pairs.len() > 0 {
        let q = pairs.drop_last();
        assert forall|p: int| 0 <= p < q.len() implies #[trigger] prop(q[p].0, q[p].1) by {
            assert(q[p] == pairs[p]);
        }
        lemma_targets_of_all(q, b, prop);
        let x = pairs.last();
        assert(prop(pairs[pairs.len() - 1].0, pairs[pairs.len() - 1].1));
        if x.0 == b {
            assert forall|k: int| 0 <= k < targets_of(pairs, b).len() implies #[trigger] prop(
                b as u32,
                targets_of(pairs, b)[k],
            ) by {
                if k < targets_of(q, b).len() {
                    assert(targets_of(pairs, b)[k] == targets_of(q, b)[k]);
                }
            }
        }
    }
}

/// Pairs in non-decreasing order of target list each source's targets in that order
proof fn lemma_targets_of_sorted(pairs: Seq<(u32, u32)>, b: int)
    requires
        forall|p: int, q: int| 0 <= p <= q < pairs.len() ==> #[trigger] pairs[p].1 <= #[trigger] pairs[q].1,
    ensures
        forall|i: int, j: int|
            0 <= i <= j < targets_of(pairs, b).len() ==> #[trigger] targets_of(pairs, b)[i] <= #[trigger] targets_of(
                pairs,
                b,
            )[j],
    decreases pairs.len(),
{
    if pairs.len() > 0 {
        let q = pairs.drop_last();
        assert forall|p1: int, p2: int| 0 <= p1 <= p2 < q.len() implies #[trigger] q[p1].1 <= #[trigger] q[p2].1 by {
            assert(q[p1] == pairs[p1]);
            assert(q[p2] == pairs[p2]);
        }
        lemma_targets_of_sorted(q, b);
        let x = pairs.last();
        if x.0 == b {
            let ts = targets_of(pairs, b);
            let tq = targets_of(q, b);
            let below = |a: u32, c: u32| c <= x.1;
            assert forall|p: int| 0 <= p < q.len() implies #[trigger] below(q[p].0, q[p].1) by {
                assert(q[p] == pairs[p]);
                assert(pairs[p].1 <= pairs[pairs.len() - 1].1);
            }
            lemma_targets_of_all(q, b, below);
            assert forall|k: int| 0 <= k < tq.len() implies #[trigger] tq[k] <= x.1 by {
                assert(below(b as u32, tq[k]));
            }
            assert forall|i: int, j: int| 0 <= i <= j < ts.len() implies #[trigger] ts[i] <= #[trigger] ts[j] by {
                if j < tq.len() {
                    assert(ts[i] == tq[i]);
                    assert(ts[j] == tq[j]);
                } else if i < tq.len() {
                    assert(ts[i] == tq[i]);
                }
            }
        }
    }
}

/// What `traverse_target` returns for `target`: the `(near, far)` lists of one
/// walk of the tree
pub open spec fn target_lists<F: Fn(u32, u32) -> bool>(
    t: TreeView,
    max_depth: int,
    accept: F,
    target: u32,
    near: Seq<u32>,
    far: Seq<u32>,
) -> bool {
    let n = t.ranges[0].1 as int;
    &&& forall|k: int|
        0 <= k < far.len() ==> (#[trigger] far[k] as int) < t.len() && accept.ensures((target, far[k]), true)
            && opened_above(t, accept, target, far[k] as int)
    &&& forall|k: int| 0 <= k < near.len() ==> #[trigger] near[k] < n && near_reached(t, accept, target, near[k] as int)
    &&& max_depth >= 1 ==> forall|s: int| 0 <= s < n ==> #[trigger] occurrences(near, s) + holding_count(t, far, s) == 1
    &&& forall|s: int| 0 <= s < n ==> #[trigger] occurrences(near, s) + holding_count(t, far, s) <= 1
    &&& n > 0 ==> forall|m: int| 0 <= m < t.len() ==> #[trigger] occurrences(far, m) <= 1
    &&& occurrences(far, 0) >= 1 || accept.ensures((target, 0u32), false)
    &&& far_right_to_left(t, far)
    &&& near_right_to_left(t, near)
    &&& near.len() + far.len() <= n + 1
}

/// Total length of a sequence of lists
pub open spec fn total_len(lists: Seq<Seq<u32>>) -> nat
    decreases lists.len(),
{
    if lists.len() == 0 {
        0
    } else {
        total_len(lists.drop_last()) + lists.last().len()
    }
}

/// What a traversal of every target produces: each source's near targets reached
/// it through a turned-down leaf, each node's far targets took it, every target
/// counts each source exactly once (in a tree at least one level deep), each group
/// lists its targets once each in increasing order, the root's group lists every
/// target that did not turn it down, and each buffer length is the largest group
pub open spec fn lists_cover<F: Fn(u32, u32) -> bool>(
    t: TreeView,
    max_depth: int,
    n_targets: int,
    accept: F,
    near: InteractionList,
    far: InteractionList,
) -> bool {
    let n_sources = t.ranges[0].1 as int;
    let n_nodes = t.len();
    &&& near.offsets_ok(n_sources)
    &&& far.offsets_ok(n_nodes)
    &&& forall|s: int, k: int|
        0 <= s < n_sources && 0 <= k < near.group(s).len() ==> #[trigger] near.group(s)[k] < n_targets
            && near_reached(t, accept, near.group(s)[k], s)
    &&& forall|m: int, k: int|
        0 <= m < n_nodes && 0 <= k < far.group(m).len() ==> #[trigger] far.group(m)[k] < n_targets
            && accept.ensures((far.group(m)[k], m as u32), true) && opened_above(t, accept, far.group(m)[k], m)
    &&& max_depth >= 1 ==> forall|s: int, tt: int|
        0 <= s < n_sources && 0 <= tt < n_targets ==> #[trigger] occurrences(near.group(s), tt) + far_count(
            t,
            far,
            s,
            tt,
            n_nodes,
        ) == 1
    &&& forall|s: int, i: int, j: int|
        0 <= s < n_sources && 0 <= i < j < near.group(s).len() ==> #[trigger] near.group(s)[i]
            < #[trigger] near.group(s)[j]
    &&& forall|m: int, i: int, j: int|
        0 <= m < n_nodes && 0 <= i < j < far.group(m).len() ==> #[trigger] far.group(m)[i]
            < #[trigger] far.group(m)[j]
    &&& forall|tt: int|
        0 <= tt < n_targets ==> #[trigger] occurrences(far.group(0), tt) == 1 || accept.ensures(
            (tt as u32, 0u32),
            false,
        )
    &&& forall|s: int| 0 <= s < n_sources ==> #[trigger] near.group(s).len() <= near.buf_len
    &&& exists|s: int| 0 <= s < n_sources && #[trigger] near.group(s).len() == near.buf_len
    &&& forall|m: int| 0 <= m < n_nodes ==> #[trigger] far.group(m).len() <= far.buf_len
    &&& exists|m: int| 0 <= m < n_nodes && #[trigger] far.group(m).len() == far.buf_len
}

/// Walk the tree for every target and group the interactions: `near` lists, for
/// each source, the targets that reach it through a leaf; `far` lists, for each
/// node, the targets that `accept` takes it for. `accept(t, n)` decides whether
/// target `t` may use node `n` as a whole.
///
/// Returns `None` when a list would hold more interactions than its 32-bit offsets
/// can count.
pub fn traverse_tree<F: Fn(u32, u32) -> bool>(topology: &Topology, n_targets: usize, accept: &F) -> (lists: Option<
    (InteractionList, InteractionList),
>)
    requires
        topology.tree().traversable(topology.max_depth as int),
        0 < topology.tree().ranges[0].1 < usize::MAX,
        topology.tree().len() < usize::MAX,
        n_targets <= u32::MAX,
        forall|t: u32, n: u32| accept.requires((t, n)),
    ensures
        n_targets * (topology.tree().ranges[0].1 + 1) <= u32::MAX ==> lists is Some,
        lists is None ==> exists|nears: Seq<Seq<u32>>, fars: Seq<Seq<u32>>|
            #![trigger total_len(nears), total_len(fars)]
            {
                &&& nears.len() == n_targets
                &&& fars.len() == n_targets
                &&& forall|tt: int|
                    0 <= tt < n_targets ==> #[trigger] target_lists(
                        topology.tree(),
                        topology.max_depth as int,
                        accept,
                        tt as u32,
                        nears[tt],
                        fars[tt],
                    )
                &&& total_len(nears) > u32::MAX || total_len(fars) > u32::MAX
            },
        lists matches Some((near, far)) ==> lists_cover(
            topology.tree(),
            topology.max_depth as int,
            n_targets as int,
            accept,
            near,
            far,
        ),
{
    let ghost t = topology.tree();
    let ghost md = topology.max_depth as int;
    let n_sources: usize = topology.source_range[0].1 as usize;
    let n_nodes: usize = topology.len();
    let mut near_pairs: Vec<(u32, u32)> = Vec::new();
    let mut far_pairs: Vec<(u32, u32)> = Vec::new();
    let ghost mut nears: Seq<Seq<u32>> = Seq::empty();
    let ghost mut fars: Seq<Seq<u32>> = Seq::empty();
    let mut ti: usize = 0;
    while ti < n_targets
        invariant
            t == topology.tree(),
            md == topology.max_depth as int,
            t.traversable(md),
            n_sources == t.ranges[0].1,
            n_sources > 0,
            near_pairs@.len() == total_len(nears),
            far_pairs@.len() == total_len(fars),
            forall|tt: int| 0 <= tt < ti ==> #[trigger] target_lists(t, md, accept, tt as u32, nears[tt], fars[tt]),
            n_nodes == t.len(),
            n_targets <= u32::MAX,
            forall|t2: u32, n2: u32| accept.requires((t2, n2)),
            ti <= n_targets,
            nears.len() == ti,
            fars.len() == ti,
            near_pairs@.len() + far_pairs@.len() <= ti * (n_sources + 1),
            forall|p: int|
                0 <= p < near_pairs@.len() ==> (#[trigger] near_pairs@[p]).0 < n_sources && near_pairs@[p].1 < ti
                    && near_reached(t, accept, near_pairs@[p].1, near_pairs@[p].0 as int),
            forall|p: int|
                0 <= p < far_pairs@.len() ==> (#[trigger] far_pairs@[p]).0 < n_nodes && far_pairs@[p].1 < ti
                    && accept.ensures((far_pairs@[p].1, far_pairs@[p].0), true) && opened_above(
                    t,
                    accept,
                    far_pairs@[p].1,
                    far_pairs@[p].0 as int,
                ),
            forall|p: int, q: int|
                0 <= p <= q < near_pairs@.len() ==> #[trigger] near_pairs@[p].1 <= #[trigger] near_pairs@[q].1,
            forall|p: int, q: int| 0 <= p <= q < far_pairs@.len() ==> #[trigger] far_pairs@[p].1 <= #[trigger] far_pairs@[q].1,
            forall|b: int, tt: int|
                #[trigger] occurrences(targets_of(near_pairs@, b), tt) == if 0 <= tt < ti {
                    occurrences(nears[tt], b)
                } else {
                    0
                },
            forall|b: int, tt: int|
                #[trigger] occurrences(targets_of(far_pairs@, b), tt) == if 0 <= tt < ti {
                    occurrences(fars[tt], b)
                } else {
                    0
                },
            forall|tt: int, k: int| 0 <= tt < ti && 0 <= k < fars[tt].len() ==> #[trigger] fars[tt][k] < n_nodes,
            md >= 1 ==> forall|tt: int, s: int|
                0 <= tt < ti && 0 <= s < n_sources ==> #[trigger] occurrences(nears[tt], s) + holding_count(
                    t,
                    fars[tt],
                    s,
                ) == 1,
            forall|tt: int, s: int| 0 <= tt < ti && 0 <= s < n_sources ==> #[trigger] occurrences(nears[tt], s) <= 1,
            forall|tt: int, m: int| 0 <= tt < ti && 0 <= m < n_nodes ==> #[trigger] occurrences(fars[tt], m) <= 1,
            forall|tt: int|
                0 <= tt < ti ==> #[trigger] occurrences(fars[tt], 0) >= 1 || accept.ensures((tt as u32, 0u32), false),
        decreases n_targets - ti,
    {
        let target: u32 = ti as u32;
        let (nl, fl) = traverse_target(topology, target, accept);
        proof {
            assert(target_lists(t, md, accept, target, nl@, fl@));
        }
        let ghost np0 = near_pairs@;
        let ghost fp0 = far_pairs@;
        let mut k: usize = 0;
        proof {
            assert(nl@.take(0) =~= Seq::<u32>::empty());
        }
        while k < nl.len()
            invariant
                ti < n_targets,
                target == ti,
                n_sources == t.ranges[0].1,
                k <= nl@.len(),
                near_pairs@.len() == np0.len() + k,
                near_pairs@.subrange(0, np0.len() as int) == np0,
                forall|p: int|
                    0 <= p < near_pairs@.len() ==> (#[trigger] near_pairs@[p]).0 < n_sources && near_pairs@[p].1 <= ti
                        && near_reached(t, accept, near_pairs@[p].1, near_pairs@[p].0 as int),
                forall|k2: int|
                    0 <= k2 < nl@.len() ==> #[trigger] nl@[k2] < n_sources && near_reached(t, accept, target, nl@[k2] as int),
                forall|p: int| np0.len() <= p < near_pairs@.len() ==> #[trigger] near_pairs@[p].1 == ti,
                forall|p: int| 0 <= p < np0.len() ==> #[trigger] np0[p].1 < ti,
                forall|p: int, q: int| 0 <= p <= q < np0.len() ==> #[trigger] np0[p].1 <= #[trigger] np0[q].1,
                forall|b: int, tt: int|
                    #[trigger] occurrences(targets_of(near_pairs@, b), tt) == occurrences(targets_of(np0, b), tt) + if tt
                        == ti {
                        occurrences(nl@.take(k as int), b)
                    } else {
                        0
                    },
            decreases nl.len() - k,
        {
            let ghost before = near_pairs@;
            near_pairs.push((nl[k], target));
            proof {
                assert(near_pairs@.subrange(0, np0.len() as int) =~= before.subrange(0, np0.len() as int));
                assert(nl@.take(k + 1) =~= nl@.take(k as int).push(nl@[k as int]));
                assert forall|b: int, tt: int| #[trigger] occurrences(targets_of(near_pairs@, b), tt) == occurrences(
                    targets_of(np0, b),
                    tt,
                ) + if tt == ti {
                    occurrences(nl@.take(k + 1), b)
                } else {
                    0
                } by {
                    lemma_targets_of_push(before, (nl@[k as int], target), b);
                    lemma_push_counts(t, 0, nl@.take(k as int), nl@[k as int]);
                    if nl@[k as int] == b {
                        lemma_push_counts(t, 0, targets_of(before, b), target);
                    }
                }
                assert forall|p: int| 0 <= p < near_pairs@.len() implies (#[trigger] near_pairs@[p]).0 < n_sources
                    && near_pairs@[p].1 <= ti && near_reached(t, accept, near_pairs@[p].1, near_pairs@[p].0 as int) by {
                    if p < before.len() {
                        assert(near_pairs@[p] == before[p]);
                    }
                }
            }
            k = k + 1;
        }
        let mut k: usize = 0;
        proof {
            assert(fl@.take(0) =~= Seq::<u32>::empty());
        }
        while k < fl.len()
            invariant
                ti < n_targets,
                target == ti,
                n_nodes == t.len(),
                k <= fl@.len(),
                far_pairs@.len() == fp0.len() + k,
                far_pairs@.subrange(0, fp0.len() as int) == fp0,
                forall|p: int|
                    0 <= p < far_pairs@.len() ==> (#[trigger] far_pairs@[p]).0 < n_nodes && far_pairs@[p].1 <= ti
                        && accept.ensures((far_pairs@[p].1, far_pairs@[p].0), true) && opened_above(
                        t,
                        accept,
                        far_pairs@[p].1,
                        far_pairs@[p].0 as int,
                    ),
                forall|k2: int|
                    0 <= k2 < fl@.len() ==> (#[trigger] fl@[k2] as int) < t.len() && accept.ensures((target, fl@[k2]), true)
                        && opened_above(t, accept, target, fl@[k2] as int),
                forall|p: int| fp0.len() <= p < far_pairs@.len() ==> #[trigger] far_pairs@[p].1 == ti,
                forall|p: int| 0 <= p < fp0.len() ==> #[trigger] fp0[p].1 < ti,
                forall|p: int, q: int| 0 <= p <= q < fp0.len() ==> #[trigger] fp0[p].1 <= #[trigger] fp0[q].1,
                forall|b: int, tt: int|
                    #[trigger] occurrences(targets_of(far_pairs@, b), tt) == occurrences(targets_of(fp0, b), tt) + if tt
                        == ti {
                        occurrences(fl@.take(k as int), b)
                    } else {
                        0
                    },
            decreases fl.len() - k,
        {
            let ghost before = far_pairs@;
            far_pairs.push((fl[k], target));
            proof {
                assert(far_pairs@.subrange(0, fp0.len() as int) =~= before.subrange(0, fp0.len() as int));
                assert(fl@.take(k + 1) =~= fl@.take(k as int).push(fl@[k as int]));
                assert forall|b: int, tt: int| #[trigger] occurrences(targets_of(far_pairs@, b), tt) == occurrences(
                    targets_of(fp0, b),
                    tt,
                ) + if tt == ti {
                    occurrences(fl@.take(k + 1), b)
                } else {
                    0
                } by {
                    lemma_targets_of_push(before, (fl@[k as int], target), b);
                    lemma_push_counts(t, 0, fl@.take(k as int), fl@[k as int]);
                    if fl@[k as int] == b {
                        lemma_push_counts(t, 0, targets_of(before, b), target);
                    }
                }
                assert forall|p: int| 0 <= p < far_pairs@.len() implies (#[trigger] far_pairs@[p]).0 < n_nodes
                    && far_pairs@[p].1 <= ti && accept.ensures((far_pairs@[p].1, far_pairs@[p].0), true)
                    && opened_above(t, accept, far_pairs@[p].1, far_pairs@[p].0 as int) by {
                    if p < before.len() {
                        assert(far_pairs@[p] == before[p]);
                    }
                }
            }
            k = k + 1;
        }
        proof {
            assert(nl@.take(nl@.len() as int) =~= nl@);
            assert(fl@.take(fl@.len() as int) =~= fl@);
            let nears2 = nears.push(nl@);
            let fars2 = fars.push(fl@);
            assert forall|b: int, tt: int| #[trigger] occurrences(targets_of(near_pairs@, b), tt) == if 0 <= tt < ti + 1 {
                occurrences(nears2[tt], b)
            } else {
                0
            } by {
                if 0 <= tt < ti {
                    assert(nears2[tt] == nears[tt]);
                }
            }
            assert forall|b: int, tt: int| #[trigger] occurrences(targets_of(far_pairs@, b), tt) == if 0 <= tt < ti + 1 {
                occurrences(fars2[tt], b)
            } else {
                0
            } by {
                if 0 <= tt < ti {
                    assert(fars2[tt] == fars[tt]);
                }
            }
            assert forall|tt: int, k2: int| 0 <= tt < ti + 1 && 0 <= k2 < fars2[tt].len() implies #[trigger] fars2[tt][k2]
                < n_nodes by {
                if tt < ti {
                    assert(fars2[tt] == fars[tt]);
                } else {
                    assert(fars2[tt] == fl@);
                }
            }
            assert forall|tt: int, s: int| 0 <= tt < ti + 1 && 0 <= s < n_sources implies #[trigger] occurrences(
                nears2[tt],
                s,
            ) <= 1 by {
                if tt < ti {
                    assert(nears2[tt] == nears[tt]);
                } else {
                    assert(nears2[tt] == nl@);
                    assert(occurrences(nl@, s) + holding_count(t, fl@, s) <= 1);
                }
            }
            assert forall|tt: int, m: int| 0 <= tt < ti + 1 && 0 <= m < n_nodes implies #[trigger] occurrences(
                fars2[tt],
                m,
            ) <= 1 by {
                if tt < ti {
                    assert(fars2[tt] == fars[tt]);
                } else {
                    assert(fars2[tt] == fl@);
                }
            }
            assert forall|tt: int| 0 <= tt < ti + 1 implies #[trigger] occurrences(fars2[tt], 0) >= 1 || accept.ensures(
                (tt as u32, 0u32),
                false,
            ) by {
                if tt < ti {
                    assert(fars2[tt] == fars[tt]);
                } else {
                    assert(fars2[tt] == fl@);
                }
            }
            if md >= 1 {
                assert forall|tt: int, s: int| 0 <= tt < ti + 1 && 0 <= s < n_sources implies #[trigger] occurrences(
                    nears2[tt],
                    s,
                ) + holding_count(t, fars2[tt], s) == 1 by {
                    if tt < ti {
                        assert(nears2[tt] == nears[tt]);
                        assert(fars2[tt] == fars[tt]);
                    } else {
                        assert(nears2[tt] == nl@);
                        assert(fars2[tt] == fl@);
                    }
                }
            }
            assert forall|p: int, q: int| 0 <= p <= q < near_pairs@.len() implies #[trigger] near_pairs@[p].1
                <= #[trigger] near_pairs@[q].1 by {
                if q < np0.len() {
                    assert(near_pairs@[p] == np0[p]);
                    assert(near_pairs@[q] == np0[q]);
                } else if p < np0.len() {
                    assert(near_pairs@[p] == np0[p]);
                }
            }
            assert forall|p: int, q: int| 0 <= p <= q < far_pairs@.len() implies #[trigger] far_pairs@[p].1
                <= #[trigger] far_pairs@[q].1 by {
                if q < fp0.len() {
                    assert(far_pairs@[p] == fp0[p]);
                    assert(far_pairs@[q] == fp0[q]);
                } else if p < fp0.len() {
                    assert(far_pairs@[p] == fp0[p]);
                }
            }
            assert((ti + 1) * (n_sources + 1) == ti * (n_sources + 1) + n_sources + 1) by (nonlinear_arith);
            assert(nears2.drop_last() =~= nears);
            assert(fars2.drop_last() =~= fars);
            assert forall|tt: int| 0 <= tt < ti + 1 implies #[trigger] target_lists(t, md, accept, tt as u32, nears2[tt], fars2[tt]) by {
                if tt < ti {
                    assert(nears2[tt] == nears[tt]);
                    assert(fars2[tt] == fars[tt]);
                } else {
                    assert(tt as u32 == target);
                }
            }
            nears = nears2;
            fars = fars2;
        }
        ti = ti + 1;
    }
    proof {
        assert(n_targets * (n_sources + 1) >= near_pairs@.len() + far_pairs@.len());
    }
    if near_pairs.len() > 0xffff_ffffusize || far_pairs.len() > 0xffff_ffffusize {
        proof {
            assert(total_len(nears) > u32::MAX || total_len(fars) > u32::MAX);
        }
        return None;
    }
    let near = InteractionList::from_pairs(n_sources, &near_pairs);
    let far = InteractionList::from_pairs(n_nodes, &far_pairs);
    proof {
        let near_ok = |a: u32, c: u32| a < n_sources && c < n_targets && near_reached(t, accept, c, a as int);
        assert forall|p: int| 0 <= p < near_pairs@.len() implies #[trigger] near_ok(near_pairs@[p].0, near_pairs@[p].1) by {}
        let far_ok = |a: u32, c: u32|
            a < n_nodes && c < n_targets && accept.ensures((c, a), true) && opened_above(t, accept, c, a as int);
        assert forall|p: int| 0 <= p < far_pairs@.len() implies #[trigger] far_ok(far_pairs@[p].0, far_pairs@[p].1) by {}
        assert forall|s: int, k: int| 0 <= s < n_sources && 0 <= k < near.group(s).len() implies #[trigger] near.group(
            s,
        )[k] < n_targets && near_reached(t, accept, near.group(s)[k], s) by {
            lemma_targets_of_all(near_pairs@, s, near_ok);
            assert(near.group(s) == targets_of(near_pairs@, s));
            assert(near_ok(s as u32, targets_of(near_pairs@, s)[k]));
        }
        assert forall|m: int, k: int| 0 <= m < n_nodes && 0 <= k < far.group(m).len() implies #[trigger] far.group(m)[k]
            < n_targets && accept.ensures((far.group(m)[k], m as u32), true) && opened_above(
            t,
            accept,
            far.group(m)[k],
            m,
        ) by {
            lemma_targets_of_all(far_pairs@, m, far_ok);
            assert(far.group(m) == targets_of(far_pairs@, m));
            assert(far_ok(m as u32, targets_of(far_pairs@, m)[k]));
        }
        if md >= 1 {
            assert forall|s: int, tt: int| 0 <= s < n_sources && 0 <= tt < n_targets implies #[trigger] occurrences(
                near.group(s),
                tt,
            ) + far_count(t, far, s, tt, n_nodes as int) == 1 by {
                assert(near.group(s) == targets_of(near_pairs@, s));
                assert forall|j: int| 0 <= j < n_nodes implies #[trigger] occurrences(far.group(j), tt) == occurrences(
                    fars[tt],
                    j,
                ) by {
                    assert(far.group(j) == targets_of(far_pairs@, j));
                }
                lemma_far_count_by_node(t, far, fars[tt], s, tt, n_nodes as int);
                assert forall|k2: int| 0 <= k2 < fars[tt].len() implies #[trigger] fars[tt][k2] < n_nodes by {}
                lemma_holding_by_node(t, fars[tt], s, n_nodes as int);
            }
        }
        assert forall|s: int, i: int, j: int| 0 <= s < n_sources && 0 <= i < j < near.group(s).len() implies #[trigger] near.group(
            s,
        )[i] < #[trigger] near.group(s)[j] by {
            let g = targets_of(near_pairs@, s);
            lemma_targets_of_sorted(near_pairs@, s);
            assert(near.group(s) == g);
            assert forall|v: int| #[trigger] occurrences(g, v) <= 1 by {
                if 0 <= v < n_targets {
                    assert(occurrences(nears[v], s) <= 1);
                }
            }
            lemma_increasing(g, i, j);
        }
        assert forall|m: int, i: int, j: int| 0 <= m < n_nodes && 0 <= i < j < far.group(m).len() implies #[trigger] far.group(
            m,
        )[i] < #[trigger] far.group(m)[j] by {
            let g = targets_of(far_pairs@, m);
            lemma_targets_of_sorted(far_pairs@, m);
            assert(far.group(m) == g);
            assert forall|v: int| #[trigger] occurrences(g, v) <= 1 by {
                if 0 <= v < n_targets {
                    assert(occurrences(fars[v], m) <= 1);
                }
            }
            lemma_increasing(g, i, j);
        }
        assert forall|tt: int| 0 <= tt < n_targets implies #[trigger] occurrences(far.group(0), tt) == 1
            || accept.ensures((tt as u32, 0u32), false) by {
            assert(far.group(0) == targets_of(far_pairs@, 0));
            assert(occurrences(fars[tt], 0) <= 1);
            assert(occurrences(fars[tt], 0) >= 1 || accept.ensures((tt as u32, 0u32), false));
        }
        assert forall|s: int| 0 <= s < n_sources implies #[trigger] near.group(s).len() <= near.buf_len by {
            assert(near.group(s) == targets_of(near_pairs@, s));
        }
        let sw = choose|s: int| 0 <= s < n_sources && #[trigger] targets_of(near_pairs@, s).len() == near.buf_len;
        assert(near.group(sw) == targets_of(near_pairs@, sw));
        assert forall|m: int| 0 <= m < n_nodes implies #[trigger] far.group(m).len() <= far.buf_len by {
            assert(far.group(m) == targets_of(far_pairs@, m));
        }
        let mw = choose|m: int| 0 <= m < n_nodes && #[trigger] targets_of(far_pairs@, m).len() == far.buf_len;
        assert(far.group(mw) == targets_of(far_pairs@, mw));
        assert(lists_cover(t, md, n_targets as int, accept, near, far));
    }
    Some((near, far))
}

} // verus!
