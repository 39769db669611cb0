//! Topology of the octree: how the nodes of the tree connect and which range of the
//! Morton-sorted sources each node holds

use vstd::prelude::*;
use crate::octree::node::{
    INVALID_NODE, get_range_in_same_node, level_shift, prefix_spec, prefix_partitioned,
    lemma_shr_monotone, lemma_prefix_parent,
};

verus! {

/// The codes are in non-decreasing order
pub open spec fn codes_sorted(codes: Seq<u64>) -> bool {
    forall|i: int, j: int| #![trigger codes[i], codes[j]] 0 <= i <= j < codes.len() ==> codes[i] <= codes[j]
}

/// Every code is a Morton code of `max_depth` levels: nothing is left above the root level
pub open spec fn codes_fit_depth(codes: Seq<u64>, max_depth: int) -> bool {
    forall|i: int| 0 <= i < codes.len() ==> prefix_spec(#[trigger] codes[i], max_depth, 0) == 0
}

/// All codes in the half-open range `r` share one prefix at `level`
pub open spec fn uniform_prefix(codes: Seq<u64>, max_depth: int, level: int, r: (u32, u32)) -> bool {
    forall|k: int|
        r.0 <= k < r.1 ==> prefix_spec(#[trigger] codes[k], max_depth, level) == prefix_spec(
            codes[r.0 as int],
            max_depth,
            level,
        )
}

/// Number of places in `codes[a..b]` where the prefix at `level` changes from one
/// code to the next
pub open spec fn prefix_changes(codes: Seq<u64>, max_depth: int, level: int, a: int, b: int) -> nat
    decreases b - a,
{
    if b <= a + 1 {
        0
    } else {
        prefix_changes(codes, max_depth, level, a, b - 1) + if prefix_spec(codes[b - 1], max_depth, level)
            != prefix_spec(codes[b - 2], max_depth, level) {
            1nat
        } else {
            0nat
        }
    }
}

/// The root gets at most eight children: sorted, the codes change their prefix one
/// level below the root at most seven times
pub open spec fn root_fanout_ok(codes: Seq<u64>, max_depth: int) -> bool {
    max_depth >= 1 ==> prefix_changes(codes, max_depth, 1, 0, codes.len() as int) <= 7
}

/// Index of the first empty child slot at or after `s` (8 when all are used)
pub open spec fn count_from(a: [u32; 8], s: int) -> int
    decreases 8 - s,
{
    if s < 0 || s >= 8 {
        8
    } else if a[s] == INVALID_NODE {
        s
    } else {
        count_from(a, s + 1)
    }
}

/// Number of children recorded in a slot array (children fill the leading slots)
pub open spec fn child_count(a: [u32; 8]) -> int {
    count_from(a, 0)
}

/// The non-leaf nodes with an index in `[a, b)`, in increasing order
pub open spec fn nonleaf_in(leaf: Seq<bool>, a: int, b: int) -> Seq<usize>
    decreases b - a,
{
    if b <= a {
        Seq::empty()
    } else if leaf[b - 1] {
        nonleaf_in(leaf, a, b - 1)
    } else {
        nonleaf_in(leaf, a, b - 1).push((b - 1) as usize)
    }
}

/// The mathematical model of a topology: one entry per tree node in each sequence
pub struct TreeView {
    pub children: Seq<[u32; 8]>,
    pub levels: Seq<u8>,
    pub ranges: Seq<(u32, u32)>,
    pub leaf: Seq<bool>,
}

pub open spec fn tree_view(
    children: Seq<[u32; 8]>,
    levels: Seq<u8>,
    ranges: Seq<(u32, u32)>,
    leaf: Seq<bool>,
) -> TreeView {
    TreeView { children, levels, ranges, leaf }
}

impl TreeView {
    pub open spec fn len(self) -> int {
        self.children.len() as int
    }

    pub open spec fn lens_ok(self) -> bool {
        &&& self.levels.len() == self.children.len()
        &&& self.ranges.len() == self.children.len()
        &&& self.leaf.len() == self.children.len()
    }

    /// Facts about node `i` alone: its level, its range of sources, the shared prefix
    /// of those sources, and when it is a leaf
    pub open spec fn node_basic(self, codes: Seq<u64>, max_depth: int, leaf_threshold: int, i: int) -> bool {
        let r = self.ranges[i];
        let l = self.levels[i] as int;
        &&& l <= max_depth
        &&& r.0 <= r.1 <= codes.len()
        &&& i > 0 ==> r.0 < r.1
        &&& i > 0 ==> uniform_prefix(codes, max_depth, l, r)
        &&& i > 0 ==> self.leaf[i] == (r.1 - r.0 <= leaf_threshold || l >= max_depth)
    }

    /// `c` is a valid child of `i`: created later, one level deeper, inside its range
    pub open spec fn child_ok(self, i: int, c: int) -> bool {
        &&& i < c < self.len()
        &&& self.levels[c] == self.levels[i] + 1
        &&& self.ranges[i].0 <= self.ranges[c].0
        &&& self.ranges[c].1 <= self.ranges[i].1
    }

    /// A child's range stops only where the prefix at the child's level changes
    pub open spec fn maximal_child(self, codes: Seq<u64>, max_depth: int, i: int, c: int) -> bool {
        self.ranges[c].1 < self.ranges[i].1 ==> prefix_spec(
            codes[self.ranges[c].1 as int],
            max_depth,
            self.levels[c] as int,
        ) != prefix_spec(codes[self.ranges[c].0 as int], max_depth, self.levels[c] as int)
    }

    pub open spec fn no_children(self, i: int) -> bool {
        forall|s: int| 0 <= s < 8 ==> #[trigger] self.children[i][s] == INVALID_NODE
    }

    /// Nodes that get children: branches above the deepest level
    pub open spec fn expands(self, max_depth: int, i: int) -> bool {
        !self.leaf[i] && self.levels[i] < max_depth
    }

    /// The first `cs` slots of node `i` hold children whose ranges follow each other
    /// from the start of `i`'s range up to `end`, each a maximal run of one prefix
    pub open spec fn tiling(self, codes: Seq<u64>, max_depth: int, i: int, cs: int, end: int) -> bool {
        let a = self.children[i];
        let r = self.ranges[i];
        &&& 0 <= cs <= 8
        &&& forall|s: int|
            0 <= s < cs ==> #[trigger] a[s] != INVALID_NODE && self.child_ok(i, a[s] as int)
                && self.maximal_child(codes, max_depth, i, a[s] as int)
        &&& forall|s: int| cs <= s < 8 ==> #[trigger] a[s] == INVALID_NODE
        &&& cs == 0 ==> end == r.0
        &&& cs > 0 ==> self.ranges[a[0] as int].0 == r.0 && self.ranges[a[cs - 1] as int].1 == end
        &&& forall|s: int|
            0 <= s < cs - 1 ==> self.ranges[#[trigger] a[s] as int].1 == self.ranges[a[s
                + 1] as int].0
    }

    /// Node `i`'s children split its whole range into maximal same-prefix runs
    pub open spec fn tiled(self, codes: Seq<u64>, max_depth: int, i: int) -> bool {
        self.tiling(codes, max_depth, i, child_count(self.children[i]), self.ranges[i].1 as int)
    }

    /// Breadth-first order: by level, then by position of the range
    pub open spec fn ordered(self, i: int, j: int) -> bool {
        ||| self.levels[i] < self.levels[j]
        ||| (self.levels[i] == self.levels[j] && self.ranges[i].1 <= self.ranges[j].0)
    }

    pub open spec fn has_parent(self, j: int) -> bool {
        exists|i: int, s: int| 0 <= i < j && 0 <= s < 8 && #[trigger] self.children[i][s] == j
    }

    /// The tree built top-down from the Morton codes `codes`
    pub open spec fn built_from(self, codes: Seq<u64>, max_depth: int, leaf_threshold: int) -> bool {
        &&& self.lens_ok()
        &&& self.len() >= 1
        &&& codes.len() <= u32::MAX
        &&& self.ranges[0] == (0u32, codes.len() as u32)
        &&& self.levels[0] == 0
        &&& !self.leaf[0]
        &&& forall|i: int|
            0 <= i < self.len() ==> #[trigger] self.node_basic(codes, max_depth, leaf_threshold, i)
        &&& forall|i: int|
            0 <= i < self.len() ==> if #[trigger] self.expands(max_depth, i) {
                self.tiled(codes, max_depth, i)
            } else {
                self.no_children(i)
            }
        &&& forall|i: int, j: int| 0 <= i < j < self.len() ==> #[trigger] self.ordered(i, j)
        &&& forall|j: int| 0 < j < self.len() ==> #[trigger] self.has_parent(j)
        &&& self.len() <= u32::MAX
    }

    /// Source `s` is in the range of node `i`
    pub open spec fn holds(self, i: int, s: int) -> bool {
        self.ranges[i].0 <= s < self.ranges[i].1
    }
}

proof fn lemma_child_count(a: [u32; 8], cs: int, s: int)
    requires
        0 <= s <= cs <= 8,
        forall|t: int| s <= t < cs ==> a[t] != INVALID_NODE,
        cs < 8 ==> a[cs] == INVALID_NODE,
    ensures
        count_from(a, s) == cs,
    decreases cs - s,
{
    if s < cs {
        lemma_child_count(a, cs, s + 1);
    }
}

/// Counting prefix changes over a range splits at any inner point `m`
proof fn lemma_changes_split(codes: Seq<u64>, md: int, lv: int, a: int, m: int, b: int)
    requires
        a < m <= b,
    ensures
        prefix_changes(codes, md, lv, a, b) == prefix_changes(codes, md, lv, a, m) + (if m < b && prefix_spec(
            codes[m],
            md,
            lv,
        ) != prefix_spec(codes[m - 1], md, lv) {
            1nat
        } else {
            0nat
        }) + prefix_changes(codes, md, lv, m, b),
    decreases b - m,
{
    if b > m {
        lemma_changes_split(codes, md, lv, a, m, b - 1);
    }
}

/// No change within a run of one prefix
proof fn lemma_changes_zero(codes: Seq<u64>, md: int, lv: int, a: int, b: int)
    requires
        0 <= a,
        b <= codes.len(),
        forall|i: int| a <= i < b ==> prefix_spec(#[trigger] codes[i], md, lv) == prefix_spec(codes[a], md, lv),
    ensures
        prefix_changes(codes, md, lv, a, b) == 0,
    decreases b - a,
{
    if b > a + 1 {
        lemma_changes_zero(codes, md, lv, a, b - 1);
        assert(prefix_spec(codes[b - 1], md, lv) == prefix_spec(codes[a], md, lv));
        assert(prefix_spec(codes[b - 2], md, lv) == prefix_spec(codes[a], md, lv));
    }
}

/// In sorted codes each change raises the prefix, so the changes are at most the
/// rise of the prefix over the range
proof fn lemma_changes_bound(codes: Seq<u64>, md: int, lv: int, a: int, b: int)
    requires
        codes_sorted(codes),
        0 <= a < b <= codes.len(),
        0 <= level_shift(md, lv) < 64,
    ensures
        prefix_changes(codes, md, lv, a, b) <= prefix_spec(codes[b - 1], md, lv) - prefix_spec(codes[a], md, lv),
    decreases b - a,
{
    if b > a + 1 {
        lemma_changes_bound(codes, md, lv, a, b - 1);
        assert(codes[b - 2] <= codes[b - 1]);
        lemma_shr_monotone(codes[b - 2], codes[b - 1], level_shift(md, lv) as u64);
    }
}

/// Below a node whose codes share a prefix there are at most eight children
proof fn lemma_uniform_fanout(codes: Seq<u64>, md: int, level: int, r: (u32, u32))
    requires
        codes_sorted(codes),
        0 <= level < md <= 21,
        r.0 <= r.1 <= codes.len(),
        uniform_prefix(codes, md, level, r),
    ensures
        prefix_changes(codes, md, level + 1, r.0 as int, r.1 as int) <= 7,
{
    if r.1 > r.0 + 1 {
        lemma_changes_bound(codes, md, level + 1, r.0 as int, r.1 as int);
        lemma_prefix_parent(codes[r.0 as int], md, level);
        lemma_prefix_parent(codes[r.1 - 1], md, level);
        assert(prefix_spec(codes[r.1 - 1], md, level) == prefix_spec(codes[r.0 as int], md, level));
    }
}

/// Sorted Morton codes of `max_depth` levels give the root at most eight children
pub proof fn lemma_fit_depth_fanout(codes: Seq<u64>, max_depth: int)
    requires
        codes_sorted(codes),
        codes_fit_depth(codes, max_depth),
        0 <= max_depth <= 21,
        codes.len() <= u32::MAX,
    ensures
        root_fanout_ok(codes, max_depth),
{
    if max_depth >= 1 && codes.len() > 0 {
        let n = codes.len();
        assert(uniform_prefix(codes, max_depth, 0, (0u32, n as u32))) by {
            assert(prefix_spec(codes[0], max_depth, 0) == 0);
        }
        lemma_uniform_fanout(codes, max_depth, 0, (0u32, n as u32));
    }
}

proof fn lemma_sorted_partitioned(codes: Seq<u64>, max_depth: int, level: int, start: int, end: int)
    requires
        codes_sorted(codes),
        0 <= level <= max_depth,
        level_shift(max_depth, level) < 64,
        0 <= start,
        end <= codes.len(),
    ensures
        prefix_partitioned(codes, max_depth, level, start, end),
{
    let sh = level_shift(max_depth, level) as u64;
    assert forall|i: int, j: int|
        #![trigger codes[i], codes[j]]
        start <= i < j < end && prefix_spec(codes[j], max_depth, level) == prefix_spec(
            codes[start],
            max_depth,
            level,
        ) implies prefix_spec(codes[i], max_depth, level) == prefix_spec(
        codes[start],
        max_depth,
        level,
    ) by {
        assert(codes[start] <= codes[i]);
        assert(codes[i] <= codes[j]);
        lemma_shr_monotone(codes[start], codes[i], sh);
        lemma_shr_monotone(codes[i], codes[j], sh);
    }
}


proof fn lemma_nonleaf_props(leaf: Seq<bool>, a: int, b: int)
    requires
        0 <= a <= b <= leaf.len(),
        b <= usize::MAX,
    ensures
        nonleaf_in(leaf, a, b).len() <= b - a,
        forall|k: int|
            0 <= k < nonleaf_in(leaf, a, b).len() ==> a <= #[trigger] nonleaf_in(leaf, a, b)[k] < b
                && !leaf[nonleaf_in(leaf, a, b)[k] as int],
        forall|k1: int, k2: int|
            0 <= k1 < k2 < nonleaf_in(leaf, a, b).len() ==> #[trigger] nonleaf_in(leaf, a, b)[k1]
                < #[trigger] nonleaf_in(leaf, a, b)[k2],
    decreases b - a,
{
    if a < b {
        lemma_nonleaf_props(leaf, a, b - 1);
        let s0 = nonleaf_in(leaf, a, b - 1);
        let s1 = nonleaf_in(leaf, a, b);
        if !leaf[b - 1] {
            assert(s1 == s0.push((b - 1) as usize));
            assert forall|k: int| 0 <= k < s1.len() implies a <= #[trigger] s1[k] < b && !leaf[s1[k] as int] by {
                if k < s0.len() {
                    assert(s1[k] == s0[k]);
                }
            }
            assert forall|k1: int, k2: int| 0 <= k1 < k2 < s1.len() implies #[trigger] s1[k1] < #[trigger] s1[k2] by {
                assert(s1[k1] == s0[k1]);
                if k2 < s0.len() {
                    assert(s1[k2] == s0[k2]);
                }
            }
        }
    }
}

proof fn lemma_nonleaf_index(leaf: Seq<bool>, a: int, i: int, b: int)
    requires
        0 <= a <= i < b <= leaf.len(),
        b <= usize::MAX,
        !leaf[i],
    ensures
        nonleaf_in(leaf, a, i).len() < nonleaf_in(leaf, a, b).len(),
        nonleaf_in(leaf, a, b)[nonleaf_in(leaf, a, i).len() as int] == i,
    decreases b - i,
{
    if b > i + 1 {
        lemma_nonleaf_index(leaf, a, i, b - 1);
        let s0 = nonleaf_in(leaf, a, b - 1);
        let s1 = nonleaf_in(leaf, a, b);
        if !leaf[b - 1] {
            assert(s1 == s0.push((b - 1) as usize));
            assert(s1[nonleaf_in(leaf, a, i).len() as int] == s0[nonleaf_in(leaf, a, i).len() as int]);
        }
    } else {
        assert(nonleaf_in(leaf, a, b) == nonleaf_in(leaf, a, i).push(i as usize));
    }
}

proof fn lemma_nonleaf_extend(leaf: Seq<bool>, leaf2: Seq<bool>, a: int, b: int)
    requires
        0 <= a <= b <= leaf.len(),
        b <= leaf2.len(),
        forall|i: int| a <= i < b ==> leaf2[i] == leaf[i],
    ensures
        nonleaf_in(leaf2, a, b) == nonleaf_in(leaf, a, b),
    decreases b - a,
{
    if a < b {
        lemma_nonleaf_extend(leaf, leaf2, a, b - 1);
    }
}

proof fn lemma_nonleaf_concat(leaf: Seq<bool>, a: int, b: int, c: int)
    requires
        0 <= a <= b <= c <= leaf.len(),
    ensures
        nonleaf_in(leaf, a, b) + nonleaf_in(leaf, b, c) == nonleaf_in(leaf, a, c),
    decreases c - b,
{
    if b < c {
        lemma_nonleaf_concat(leaf, a, b, c - 1);
        assert(nonleaf_in(leaf, a, b) + nonleaf_in(leaf, b, c - 1) == nonleaf_in(leaf, a, c - 1));
        if !leaf[c - 1] {
            assert(nonleaf_in(leaf, a, b) + nonleaf_in(leaf, b, c) =~= (nonleaf_in(leaf, a, b)
                + nonleaf_in(leaf, b, c - 1)).push((c - 1) as usize));
        }
    } else {
        assert(nonleaf_in(leaf, a, b) + nonleaf_in(leaf, b, c) =~= nonleaf_in(leaf, a, c));
    }
}

/// Create the children of node `idx_parent` (at `level`) by splitting its range of
/// sources into maximal runs of one Morton prefix at `level + 1`; queue the new
/// children that are not leaves for expansion at the next level
#[verifier::rlimit(60)]
fn expand_node(
    codes: &[u64],
    max_depth: u8,
    leaf_threshold: u32,
    level: u8,
    idx_parent: usize,
    children: &mut Vec<[u32; 8]>,
    levels: &mut Vec<u8>,
    source_range: &mut Vec<(u32, u32)>,
    is_leaf: &mut Vec<bool>,
    next_level_nodes: &mut Vec<usize>,
)
    requires
        max_depth <= 21,
        level < max_depth,
        codes_sorted(codes@),
        codes@.len() <= u32::MAX,
        old(levels)@.len() == old(children)@.len(),
        old(source_range)@.len() == old(children)@.len(),
        old(is_leaf)@.len() == old(children)@.len(),
        idx_parent < old(children)@.len(),
        old(levels)@[idx_parent as int] == level,
        old(source_range)@[idx_parent as int].0 <= old(source_range)@[idx_parent as int].1
            <= codes@.len(),
        prefix_changes(
            codes@,
            max_depth as int,
            level + 1,
            old(source_range)@[idx_parent as int].0 as int,
            old(source_range)@[idx_parent as int].1 as int,
        ) <= 7,
        forall|s: int| 0 <= s < 8 ==> #[trigger] old(children)@[idx_parent as int][s] == INVALID_NODE,
        old(children)@.len() + (old(source_range)@[idx_parent as int].1 - old(
            source_range,
        )@[idx_parent as int].0) <= u32::MAX,
    ensures
        ({
            let n0 = old(children)@.len() as int;
            let n1 = final(children)@.len() as int;
            let r = old(source_range)@[idx_parent as int];
            let t = tree_view(final(children)@, final(levels)@, final(source_range)@, final(is_leaf)@);
            &&& t.lens_ok()
            &&& n0 <= n1
            &&& n1 - n0 <= r.1 - r.0
            &&& forall|i: int| 0 <= i < n0 ==> #[trigger] final(levels)@[i] == old(levels)@[i]
            &&& forall|i: int| 0 <= i < n0 ==> #[trigger] final(source_range)@[i] == old(source_range)@[i]
            &&& forall|i: int| 0 <= i < n0 ==> #[trigger] final(is_leaf)@[i] == old(is_leaf)@[i]
            &&& forall|i: int| 0 <= i < n0 && i != idx_parent ==> #[trigger] final(children)@[i] == old(children)@[i]
            &&& forall|j: int| n0 <= j < n1 ==> #[trigger] final(levels)@[j] == level + 1
            &&& forall|j: int| n0 <= j < n1 ==> t.no_children(j)
            &&& forall|j: int| n0 <= j < n1 ==> #[trigger] t.node_basic(codes@, max_depth as int, leaf_threshold as int, j)
            &&& forall|j: int| n0 <= j < n1 ==> r.0 <= #[trigger] final(source_range)@[j].0 && final(source_range)@[j].1 <= r.1
            &&& forall|j: int| n0 <= j < n1 ==> #[trigger] final(source_range)@[j].0 - r.0 >= j - n0
            &&& forall|j: int| n0 <= j < n1 - 1 ==> #[trigger] final(source_range)@[j].1 == final(source_range)@[j + 1].0
            &&& forall|j: int, j2: int| n0 <= j < j2 < n1 ==> #[trigger] final(source_range)@[j].1 <= #[trigger] final(source_range)@[j2].0
            &&& forall|s: int| 0 <= s < n1 - n0 ==> #[trigger] final(children)@[idx_parent as int][s] == n0 + s
            &&& t.tiling(codes@, max_depth as int, idx_parent as int, n1 - n0, r.1 as int)
            &&& final(next_level_nodes)@ == old(next_level_nodes)@ + nonleaf_in(final(is_leaf)@, n0, n1)
        }),
{
    let ghost n0 = children@.len() as int;
    let ghost md = max_depth as int;
    let ghost lt = leaf_threshold as int;
    let ghost p = idx_parent as int;
    let (range_start, range_end) = source_range[idx_parent];
    let mut child_slot: u32 = 0;
    let mut cursor: usize = range_start as usize;
    while cursor < range_end as usize
        invariant
            max_depth <= 21,
            level < max_depth,
            codes_sorted(codes@),
            codes@.len() <= u32::MAX,
            md == max_depth as int,
            lt == leaf_threshold as int,
            p == idx_parent as int,
            n0 == old(children)@.len(),
            0 <= p < n0,
            (range_start, range_end) == old(source_range)@[p],
            old(levels)@[p] == level,
            range_start <= cursor <= range_end <= codes@.len(),
            n0 + (range_end - range_start) <= u32::MAX,
            levels@.len() == children@.len(),
            source_range@.len() == children@.len(),
            is_leaf@.len() == children@.len(),
            children@.len() == n0 + child_slot,
            child_slot <= cursor - range_start,
            child_slot <= 8,
            forall|i: int| 0 <= i < n0 ==> #[trigger] levels@[i] == old(levels)@[i],
            forall|i: int| 0 <= i < n0 ==> #[trigger] source_range@[i] == old(source_range)@[i],
            forall|i: int| 0 <= i < n0 ==> #[trigger] is_leaf@[i] == old(is_leaf)@[i],
            forall|i: int| 0 <= i < n0 && i != p ==> #[trigger] children@[i] == old(children)@[i],
            forall|j: int| n0 <= j < children@.len() ==> #[trigger] levels@[j] == level + 1,
            forall|j: int| n0 <= j < children@.len() ==> tree_view(children@, levels@, source_range@, is_leaf@).no_children(j),
            forall|j: int| n0 <= j < children@.len() ==> #[trigger] tree_view(children@, levels@, source_range@, is_leaf@).node_basic(codes@, md, lt, j),
            forall|j: int| n0 <= j < children@.len() ==> range_start <= #[trigger] source_range@[j].0 && source_range@[j].1 <= cursor,
            forall|j: int| n0 <= j < children@.len() ==> #[trigger] source_range@[j].0 - range_start >= j - n0,
            forall|j: int| n0 <= j < children@.len() - 1 ==> #[trigger] source_range@[j].1 == source_range@[j + 1].0,
            forall|j: int, j2: int| n0 <= j < j2 < children@.len() ==> #[trigger] source_range@[j].1 <= #[trigger] source_range@[j2].0,
            forall|s: int| 0 <= s < child_slot ==> #[trigger] children@[p][s] == n0 + s,
            tree_view(children@, levels@, source_range@, is_leaf@).tiling(codes@, md, p, child_slot as int, cursor as int),
            cursor < range_end ==> child_slot + prefix_changes(codes@, md, level + 1, cursor as int, range_end as int) <= 7,
            next_level_nodes@ == old(next_level_nodes)@ + nonleaf_in(is_leaf@, n0, children@.len() as int),
        decreases range_end - cursor,
    {
        proof {
            lemma_sorted_partitioned(codes@, md, level + 1, cursor as int, range_end as int);
        }
        let child_end = get_range_in_same_node(codes, level + 1, max_depth, cursor, range_end as usize);
        let ghost old_children = children@;
        let ghost old_levels = levels@;
        let ghost old_ranges = source_range@;
        let ghost old_leaf = is_leaf@;
        let ghost cprefix = prefix_spec(codes@[cursor as int], md, level + 1);

        // Child index is the current length of the nodes arrays
        let idx_child = levels.len();

        // Add a child node
        levels.push(level + 1);
        children.push([INVALID_NODE; 8]);
        source_range.push((cursor as u32, child_end as u32));

        let child_is_leaf: bool = {
            let range_size = child_end - cursor;
            range_size <= leaf_threshold as usize || (level + 1) >= max_depth
        };
        is_leaf.push(child_is_leaf);

        // Update tree connectivity for this node
        children[idx_parent][child_slot as usize] = idx_child as u32;
        child_slot += 1;

        if !child_is_leaf {
            next_level_nodes.push(idx_child);
        }

        proof {
            let t = tree_view(children@, levels@, source_range@, is_leaf@);
            let t0 = tree_view(old_children, old_levels, old_ranges, old_leaf);
            let nn = children@.len() as int;
            assert(nn == idx_child + 1);
            // the new node
            assert(uniform_prefix(codes@, md, level + 1, (cursor as u32, child_end as u32)));
            assert(t.node_basic(codes@, md, lt, idx_child as int));
            assert forall|j: int| n0 <= j < nn implies #[trigger] t.node_basic(codes@, md, lt, j) by {
                if j < idx_child {
                    assert(t0.node_basic(codes@, md, lt, j));
                }
            }
            assert forall|j: int| n0 <= j < nn implies t.no_children(j) by {
                if j < idx_child {
                    assert(t0.no_children(j));
                    assert(children@[j] == old_children[j]);
                } else {
                    assert(j == idx_child);
                }
            }
            // the next child starts after one more change of prefix
            assert(cursor < child_end) by {
                if child_end == cursor {
                    assert(prefix_spec(codes@[cursor as int], md, level + 1) != cprefix);
                }
            }
            lemma_changes_zero(codes@, md, level + 1, cursor as int, child_end as int);
            if child_end < range_end {
                lemma_changes_split(codes@, md, level + 1, cursor as int, child_end as int, range_end as int);
                assert(prefix_spec(codes@[child_end - 1], md, level + 1) == cprefix);
            }
            // tiling of the parent
            lemma_nonleaf_extend(old_leaf, is_leaf@, n0, idx_child as int);
            assert(children@[p]@ == old_children[p]@.update(child_slot - 1, idx_child as u32));
            assert forall|s: int| 0 <= s < child_slot implies #[trigger] children@[p][s] == n0 + s by {
                if s < child_slot - 1 {
                    assert(children@[p][s] == old_children[p][s]);
                }
            }
            assert(t.tiling(codes@, md, p, child_slot as int, child_end as int)) by {
                let a = children@[p];
                let a0 = old_children[p];
                assert forall|s: int| 0 <= s < child_slot implies #[trigger] a[s] != INVALID_NODE
                    && t.child_ok(p, a[s] as int) && t.maximal_child(codes@, md, p, a[s] as int) by {
                    if s < child_slot - 1 {
                        assert(a[s] == a0[s]);
                        assert(t0.child_ok(p, a0[s] as int));
                        assert(t0.maximal_child(codes@, md, p, a0[s] as int));
                    } else {
                        assert(a[s] == idx_child);
                        assert(levels@[p] == old_levels[p]);
                        assert(source_range@[p] == old_ranges[p]);
                        assert(levels@[idx_child as int] == level + 1);
                        assert(source_range@[idx_child as int] == (cursor as u32, child_end as u32));
                        if child_end < range_end {
                            assert(prefix_spec(codes@[child_end as int], md, level + 1) != cprefix);
                        }
                        assert(a[s] != INVALID_NODE);
                        assert(t.child_ok(p, a[s] as int));
                        assert(t.maximal_child(codes@, md, p, a[s] as int));
                    }
                }
                assert forall|s: int| child_slot <= s < 8 implies #[trigger] a[s] == INVALID_NODE by {
                    assert(a[s] == a0[s]);
                }
                assert forall|s: int| 0 <= s < child_slot - 1 implies t.ranges[#[trigger] a[s] as int].1
                    == t.ranges[a[s + 1] as int].0 by {
                    assert(a[s] == n0 + s);
                    assert(a[s + 1] == n0 + s + 1);
                }
            }
        }
        cursor = child_end;
    }
    proof {
        lemma_nonleaf_props(is_leaf@, n0, children@.len() as int);
    }
}


/// Node-level facts carry over when the tree only grows: nodes keep their level,
/// range and leaf flag, and nodes whose child slots did not change keep their children
proof fn lemma_tree_frame(t1: TreeView, t2: TreeView, codes: Seq<u64>, md: int, lt: int)
    requires
        t1.lens_ok(),
        t2.lens_ok(),
        t1.len() <= t2.len(),
        forall|i: int| 0 <= i < t1.len() ==> #[trigger] t2.levels[i] == t1.levels[i],
        forall|i: int| 0 <= i < t1.len() ==> #[trigger] t2.ranges[i] == t1.ranges[i],
        forall|i: int| 0 <= i < t1.len() ==> #[trigger] t2.leaf[i] == t1.leaf[i],
    ensures
        forall|i: int|
            0 <= i < t1.len() && t1.node_basic(codes, md, lt, i) ==> #[trigger] t2.node_basic(codes, md, lt, i),
        forall|i: int|
            0 <= i < t1.len() && t2.children[i] == t1.children[i] && t1.tiled(codes, md, i)
                ==> #[trigger] t2.tiled(codes, md, i),
        forall|i: int|
            0 <= i < t1.len() && t2.children[i] == t1.children[i] && t1.no_children(i)
                ==> #[trigger] t2.no_children(i),
        forall|i: int, j: int| 0 <= i < j < t1.len() && t1.ordered(i, j) ==> #[trigger] t2.ordered(i, j),
        forall|i: int| 0 <= i < t1.len() ==> #[trigger] t2.expands(md, i) == t1.expands(md, i),
{
    assert forall|i: int|
        0 <= i < t1.len() && t2.children[i] == t1.children[i] && t1.tiled(codes, md, i)
            implies #[trigger] t2.tiled(codes, md, i) by {
        let a = t1.children[i];
        let cs = child_count(a);
        assert forall|s: int| 0 <= s < cs implies #[trigger] a[s] != INVALID_NODE && t2.child_ok(i, a[s] as int)
            && t2.maximal_child(codes, md, i, a[s] as int) by {
            assert(t1.child_ok(i, a[s] as int));
            assert(t1.maximal_child(codes, md, i, a[s] as int));
        }
        assert forall|s: int| 0 <= s < cs - 1 implies t2.ranges[#[trigger] a[s] as int].1 == t2.ranges[a[s + 1] as int].0 by {
            assert(t1.child_ok(i, a[s] as int));
            assert(t1.child_ok(i, a[s + 1] as int));
        }
        if cs > 0 {
            assert(t1.child_ok(i, a[0] as int));
            assert(t1.child_ok(i, a[cs - 1] as int));
        }
    }
    assert forall|i: int|
        0 <= i < t1.len() && t2.children[i] == t1.children[i] && t1.no_children(i)
            implies #[trigger] t2.no_children(i) by {
        assert forall|s: int| 0 <= s < 8 implies #[trigger] t2.children[i][s] == INVALID_NODE by {
            assert(t1.children[i][s] == INVALID_NODE);
        }
    }
}

/// Topology information for traversing the octree
///
/// Each vector has one entry per tree node; `children` holds indices into these
/// vectors (the tree connectivity), with `INVALID_NODE` in unused slots.
#[derive(Debug)]
pub struct Topology {
    pub children: Vec<[u32; 8]>,
    pub levels: Vec<u8>,
    pub source_range: Vec<(u32, u32)>,
    pub is_leaf: Vec<bool>,
    pub max_depth: u8,
}

impl Topology {
    pub open spec fn tree(&self) -> TreeView {
        tree_view(self.children@, self.levels@, self.source_range@, self.is_leaf@)
    }

    pub fn new(
        children: Vec<[u32; 8]>,
        levels: Vec<u8>,
        source_range: Vec<(u32, u32)>,
        is_leaf: Vec<bool>,
        max_depth: u8,
    ) -> (topology: Self)
        requires
            levels@.len() == children@.len(),
            source_range@.len() == children@.len(),
            is_leaf@.len() == children@.len(),
        ensures
            topology.children@ == children@,
            topology.levels@ == levels@,
            topology.source_range@ == source_range@,
            topology.is_leaf@ == is_leaf@,
            topology.max_depth == max_depth,
    {
        Self { children, levels, source_range, is_leaf, max_depth }
    }

    /// Return the number of nodes in the Topology object
    pub fn len(&self) -> (n: usize)
        ensures
            n == self.children@.len(),
    {
        // Lengths of all vectors were checked at build, so we can choose any
        // of the member data
        self.children.len()
    }
}

/// Build the internal structure of the tree, using a top down approach
///
/// `codes` are the Morton codes of the sources in sorted order. The root holds every
/// source; each branch above `max_depth` is split into children holding the maximal
/// runs of sources that share a prefix one level deeper; a child with at most
/// `leaf_threshold` sources, or at the deepest level, is a leaf. Nodes are numbered
/// breadth-first.
#[verifier::rlimit(60)]
pub fn build_topology(codes: &[u64], max_depth: u8, leaf_threshold: u32) -> (topology: Topology)
    requires
        max_depth <= 21,
        leaf_threshold > 0,
        codes_sorted(codes@),
        root_fanout_ok(codes@, max_depth as int),
        codes@.len() <= u32::MAX,
        1 + max_depth * codes@.len() <= u32::MAX,
    ensures
        topology.max_depth == max_depth,
        topology.tree().built_from(codes@, max_depth as int, leaf_threshold as int),
{
    let ghost md = max_depth as int;
    let ghost lt = leaf_threshold as int;
    let n_sources: usize = codes.len();
    let ghost n = n_sources as int;
    // The estimate avoids some reallocations; the vectors grow as needed
    let n_nodes_estimate: usize = n_sources / leaf_threshold as usize;

    // Together, these form the same information as a Vec<Node>
    // They are stored separately for cache efficiency when traversing the tree
    let mut levels: Vec<u8> = Vec::with_capacity(n_nodes_estimate);
    let mut children: Vec<[u32; 8]> = Vec::with_capacity(n_nodes_estimate);
    let mut source_range: Vec<(u32, u32)> = Vec::with_capacity(n_nodes_estimate);
    let mut is_leaf: Vec<bool> = Vec::with_capacity(n_nodes_estimate);

    // Start at root node
    levels.push(0);
    children.push([INVALID_NODE; 8]);
    source_range.push((0, n_sources as u32));
    is_leaf.push(false);

    // Nodes that need children built at the next level
    let mut current_level_nodes: Vec<usize> = vec![0];
    let mut level: u8 = 0;
    let ghost mut a: int = 0;
    let ghost mut par: Seq<int> = seq![0int];
    let ghost mut pslot: Seq<int> = seq![0int];

    proof {
        let t = tree_view(children@, levels@, source_range@, is_leaf@);
        assert(t.node_basic(codes@, md, lt, 0));
        assert(t.no_children(0));
        assert(nonleaf_in(is_leaf@, 0, 0) =~= Seq::<usize>::empty());
        assert(nonleaf_in(is_leaf@, 0, 1) =~= seq![0usize]);
        assert(current_level_nodes@ =~= nonleaf_in(is_leaf@, 0, 1));
    }

    while level < max_depth && current_level_nodes.len() > 0
        invariant
            md == max_depth as int,
            lt == leaf_threshold as int,
            n == codes@.len(),
            n_sources == n,
            max_depth <= 21,
            leaf_threshold > 0,
            codes_sorted(codes@),
            root_fanout_ok(codes@, md),
            n <= u32::MAX,
            1 + md * n <= u32::MAX,
            level <= max_depth,
            tree_view(children@, levels@, source_range@, is_leaf@).lens_ok(),
            children@.len() >= 1,
            children@.len() <= usize::MAX,
            0 <= a <= children@.len(),
            source_range@[0] == (0u32, n as u32),
            levels@[0] == 0,
            !is_leaf@[0],
            forall|i: int| 0 <= i < children@.len() ==> #[trigger] tree_view(children@, levels@, source_range@, is_leaf@).node_basic(codes@, md, lt, i),
            forall|i: int| 0 <= i < a ==> #[trigger] levels@[i] < level,
            forall|i: int| a <= i < children@.len() ==> #[trigger] levels@[i] == level,
            forall|i: int| 0 <= i < a ==> if #[trigger] tree_view(children@, levels@, source_range@, is_leaf@).expands(md, i) {
                tree_view(children@, levels@, source_range@, is_leaf@).tiled(codes@, md, i)
            } else {
                tree_view(children@, levels@, source_range@, is_leaf@).no_children(i)
            },
            forall|i: int| a <= i < children@.len() ==> #[trigger] tree_view(children@, levels@, source_range@, is_leaf@).no_children(i),
            forall|i: int, j: int| 0 <= i < j < children@.len() ==> #[trigger] tree_view(children@, levels@, source_range@, is_leaf@).ordered(i, j),
            par.len() == children@.len(),
            pslot.len() == children@.len(),
            forall|j: int| 0 < j < children@.len() ==> 0 <= #[trigger] par[j] < j && 0 <= pslot[j] < 8 && children@[par[j]][pslot[j]] == j,
            current_level_nodes@ == nonleaf_in(is_leaf@, a, children@.len() as int),
            children@.len() <= 1 + level * n,
        decreases max_depth - level,
    {
        let mut next_level_nodes: Vec<usize> = Vec::new();
        let ghost b: int = children@.len() as int;
        let mut k: usize = 0;
        proof {
            lemma_nonleaf_props(is_leaf@, a, b);
            assert(next_level_nodes@ =~= nonleaf_in(is_leaf@, b, b));
        }
        while k < current_level_nodes.len()
            invariant
                md == max_depth as int,
                lt == leaf_threshold as int,
                n == codes@.len(),
                max_depth <= 21,
                codes_sorted(codes@),
                root_fanout_ok(codes@, md),
                n <= u32::MAX,
                1 + md * n <= u32::MAX,
                level < max_depth,
                tree_view(children@, levels@, source_range@, is_leaf@).lens_ok(),
                children@.len() <= usize::MAX,
                0 <= a <= b <= children@.len(),
                b >= 1,
                source_range@[0] == (0u32, n as u32),
                levels@[0] == 0,
                !is_leaf@[0],
                k <= current_level_nodes@.len(),
                current_level_nodes@ == nonleaf_in(is_leaf@, a, b),
                forall|i: int| 0 <= i < children@.len() ==> #[trigger] tree_view(children@, levels@, source_range@, is_leaf@).node_basic(codes@, md, lt, i),
                forall|i: int| 0 <= i < a ==> #[trigger] levels@[i] < level,
                forall|i: int| a <= i < b ==> #[trigger] levels@[i] == level,
                forall|i: int| b <= i < children@.len() ==> #[trigger] levels@[i] == level + 1,
                forall|i: int| 0 <= i < a ==> if #[trigger] tree_view(children@, levels@, source_range@, is_leaf@).expands(md, i) {
                    tree_view(children@, levels@, source_range@, is_leaf@).tiled(codes@, md, i)
                } else {
                    tree_view(children@, levels@, source_range@, is_leaf@).no_children(i)
                },
                forall|q: int| 0 <= q < k ==> #[trigger] tree_view(children@, levels@, source_range@, is_leaf@).tiled(codes@, md, current_level_nodes@[q] as int),
                forall|q: int| k <= q < current_level_nodes@.len() ==> #[trigger] tree_view(children@, levels@, source_range@, is_leaf@).no_children(current_level_nodes@[q] as int),
                forall|i: int| a <= i < b && is_leaf@[i] ==> #[trigger] tree_view(children@, levels@, source_range@, is_leaf@).no_children(i),
                forall|i: int| b <= i < children@.len() ==> #[trigger] tree_view(children@, levels@, source_range@, is_leaf@).no_children(i),
                forall|i: int, j: int| 0 <= i < j < children@.len() ==> #[trigger] tree_view(children@, levels@, source_range@, is_leaf@).ordered(i, j),
                forall|j: int| b <= j < children@.len() ==> #[trigger] source_range@[j].1 <= (if k < current_level_nodes@.len() {
                    source_range@[current_level_nodes@[k as int] as int].0 as int
                } else {
                    n
                }),
                forall|j: int| b <= j < children@.len() ==> #[trigger] source_range@[j].0 >= j - b,
                par.len() == children@.len(),
                pslot.len() == children@.len(),
                forall|j: int| 0 < j < children@.len() ==> 0 <= #[trigger] par[j] < j && 0 <= pslot[j] < 8 && children@[par[j]][pslot[j]] == j,
                next_level_nodes@ == nonleaf_in(is_leaf@, b, children@.len() as int),
                b <= 1 + level * n,
            decreases current_level_nodes@.len() - k,
        {
            let idx_parent = current_level_nodes[k];
            let ghost t1 = tree_view(children@, levels@, source_range@, is_leaf@);
            let ghost n0 = children@.len() as int;
            let ghost p = idx_parent as int;
            proof {
                lemma_nonleaf_props(is_leaf@, a, b);
                assert(a <= p < b);
                assert(t1.node_basic(codes@, md, lt, p));
                assert(t1.no_children(p));
                // the nodes made so far at the next level fit before this parent's range
                if n0 > b {
                    assert(t1.node_basic(codes@, md, lt, n0 - 1));
                    assert(source_range@[n0 - 1].0 >= n0 - 1 - b);
                }
                assert(n0 - b <= source_range@[p].0);
                assert((level + 1) * n <= md * n) by (nonlinear_arith)
                    requires level + 1 <= md, n >= 0;
                assert(level * n + n == (level + 1) * n) by (nonlinear_arith);
                if p == 0 {
                    assert(levels@[0] == level);
                    assert(source_range@[0] == (0u32, n as u32));
                    assert(md >= 1);
                    assert(root_fanout_ok(codes@, md));
                    assert(prefix_changes(codes@, md, level + 1, 0, n) <= 7);
                } else {
                    lemma_uniform_fanout(codes@, md, level as int, source_range@[p]);
                }
            }
            expand_node(
                codes,
                max_depth,
                leaf_threshold,
                level,
                idx_parent,
                &mut children,
                &mut levels,
                &mut source_range,
                &mut is_leaf,
                &mut next_level_nodes,
            );
            proof {
                let t2 = tree_view(children@, levels@, source_range@, is_leaf@);
                let n1 = children@.len() as int;
                let cs = n1 - n0;
                lemma_tree_frame(t1, t2, codes@, md, lt);
                // the parent is now tiled
                assert forall|s: int| 0 <= s < cs implies children@[p][s] != INVALID_NODE by {
                    assert(children@[p][s] == n0 + s);
                }
                lemma_child_count(children@[p], cs, 0);
                assert(t2.tiled(codes@, md, p));
                // witnesses of the new nodes' parent
                par = par + Seq::new(cs as nat, |j: int| p);
                pslot = pslot + Seq::new(cs as nat, |j: int| j);
                assert forall|j: int| 0 < j < n1 implies 0 <= #[trigger] par[j] < j && 0 <= pslot[j] < 8 && children@[par[j]][pslot[j]] == j by {
                    if j < n0 {
                        assert(par[j] != p) by {
                            if par[j] == p {
                                assert(t1.children[p][pslot[j]] == INVALID_NODE);
                                assert(j < u32::MAX);
                            }
                        }
                        assert(children@[par[j]] == t1.children[par[j]]);
                    } else {
                        assert(children@[p][j - n0] == n0 + (j - n0));
                    }
                }
                // next-level list
                lemma_nonleaf_extend(t1.leaf, is_leaf@, b, n0);
                lemma_nonleaf_concat(is_leaf@, b, n0, n1);
                lemma_nonleaf_extend(t1.leaf, is_leaf@, a, b);
                // children of other nodes are untouched
                assert forall|q: int| 0 <= q < k implies #[trigger] t2.tiled(codes@, md, current_level_nodes@[q] as int) by {
                    let i = current_level_nodes@[q] as int;
                    assert(current_level_nodes@[q] < current_level_nodes@[k as int]);
                    assert(t1.tiled(codes@, md, i));
                    assert(children@[i] == t1.children[i]);
                }
                assert forall|q: int| k + 1 <= q < current_level_nodes@.len() implies #[trigger] t2.no_children(current_level_nodes@[q] as int) by {
                    let i = current_level_nodes@[q] as int;
                    assert(current_level_nodes@[k as int] < current_level_nodes@[q]);
                    assert(t1.no_children(i));
                    assert(children@[i] == t1.children[i]);
                }
                assert forall|i: int| 0 <= i < a implies if #[trigger] t2.expands(md, i) {
                    t2.tiled(codes@, md, i)
                } else {
                    t2.no_children(i)
                } by {
                    assert(children@[i] == t1.children[i]);
                    assert(t1.expands(md, i) ==> t1.tiled(codes@, md, i));
                    assert(!t1.expands(md, i) ==> t1.no_children(i));
                }
                assert forall|i: int| a <= i < b && is_leaf@[i] implies #[trigger] t2.no_children(i) by {
                    assert(i != p);
                    assert(children@[i] == t1.children[i]);
                    assert(t1.no_children(i));
                }
                assert forall|i: int| b <= i < n1 implies #[trigger] t2.no_children(i) by {
                    if i < n0 {
                        assert(children@[i] == t1.children[i]);
                        assert(t1.no_children(i));
                    }
                }
                assert forall|i: int| 0 <= i < n1 implies #[trigger] t2.node_basic(codes@, md, lt, i) by {
                    if i < n0 {
                        assert(t1.node_basic(codes@, md, lt, i));
                    }
                }
                assert forall|i: int, j: int| 0 <= i < j < n1 implies #[trigger] t2.ordered(i, j) by {
                    if j < n0 {
                        assert(t1.ordered(i, j));
                    } else if i >= n0 {
                        assert(source_range@[i].1 <= source_range@[j].0);
                    } else if i >= b {
                        assert(source_range@[i].1 <= source_range@[p].0);
                    } else {
                        assert(levels@[i] <= level);
                    }
                }
                // frontier
                if k + 1 < current_level_nodes@.len() {
                    let p2 = current_level_nodes@[k + 1] as int;
                    assert(p < p2);
                    assert(t1.ordered(p, p2));
                    assert(levels@[p2] == level);
                }
            }
            k = k + 1;
        }
        proof {
            let t = tree_view(children@, levels@, source_range@, is_leaf@);
            let n1 = children@.len() as int;
            lemma_nonleaf_props(is_leaf@, a, b);
            assert forall|i: int| 0 <= i < b implies if #[trigger] t.expands(md, i) {
                t.tiled(codes@, md, i)
            } else {
                t.no_children(i)
            } by {
                if a <= i {
                    if !is_leaf@[i] {
                        lemma_nonleaf_index(is_leaf@, a, i, b);
                        assert(current_level_nodes@[nonleaf_in(is_leaf@, a, i).len() as int] == i);
                    }
                }
            }
            if n1 > b {
                assert(t.node_basic(codes@, md, lt, n1 - 1));
            }
            assert(n1 - b <= n);
            assert(level * n + n == (level + 1) * n) by (nonlinear_arith);
        }
        current_level_nodes = next_level_nodes;
        proof {
            a = b;
        }
        level = level + 1;
    }
    proof {
        let t = tree_view(children@, levels@, source_range@, is_leaf@);
        let nn = children@.len() as int;
        assert forall|i: int| 0 <= i < nn implies if #[trigger] t.expands(md, i) {
            t.tiled(codes@, md, i)
        } else {
            t.no_children(i)
        } by {
            if a <= i {
                if t.expands(md, i) {
                    lemma_nonleaf_index(is_leaf@, a, i, nn);
                    assert(false);
                }
            }
        }
        assert forall|j: int| 0 < j < nn implies #[trigger] t.has_parent(j) by {
            assert(children@[par[j]][pslot[j]] == j);
        }
        assert(level * n <= md * n) by (nonlinear_arith)
            requires level <= md, n >= 0;
    }
    Topology::new(children, levels, source_range, is_leaf, max_depth)
}


/// A tiled node's children split its range, so one of them holds any of its sources
proof fn lemma_tiled_child_holding(t: TreeView, codes: Seq<u64>, md: int, i: int, s: int) -> (c: int)
    requires
        t.lens_ok(),
        0 <= i < t.len(),
        t.tiled(codes, md, i),
        t.holds(i, s),
    ensures
        t.child_ok(i, c),
        t.holds(c, s),
{
    let a = t.children[i];
    let cs = child_count(a);
    assert(cs > 0);
    lemma_slot_holding(t, codes, md, i, s, 0)
}

proof fn lemma_slot_holding(t: TreeView, codes: Seq<u64>, md: int, i: int, s: int, k: int) -> (c: int)
    requires
        t.lens_ok(),
        0 <= i < t.len(),
        t.tiled(codes, md, i),
        t.holds(i, s),
        0 <= k < child_count(t.children[i]),
        t.ranges[t.children[i][k] as int].0 <= s,
    ensures
        t.child_ok(i, c),
        t.holds(c, s),
    decreases 8 - k,
{
    let a = t.children[i];
    let cs = child_count(a);
    assert(t.child_ok(i, a[k] as int));
    if s < t.ranges[a[k] as int].1 {
        a[k] as int
    } else {
        assert(k < cs - 1);
        assert(t.ranges[a[k] as int].1 == t.ranges[a[k + 1] as int].0);
        lemma_slot_holding(t, codes, md, i, s, k + 1)
    }
}

/// Above a node that holds a source, every level has a node that holds it too, and
/// that node has children
proof fn lemma_ancestor_holding(t: TreeView, codes: Seq<u64>, md: int, lt: int, j: int, s: int, l: int) -> (a: int)
    requires
        t.built_from(codes, md, lt),
        0 <= j < t.len(),
        t.holds(j, s),
        0 <= l <= t.levels[j],
    ensures
        0 <= a < t.len(),
        t.levels[a] == l,
        t.holds(a, s),
        l < t.levels[j] ==> t.expands(md, a),
    decreases j,
{
    if t.levels[j] == l {
        j
    } else {
        assert(j > 0);
        assert(t.has_parent(j));
        let (p, k) = choose|p: int, k: int| 0 <= p < j && 0 <= k < 8 && #[trigger] t.children[p][k] == j;
        assert(t.node_basic(codes, md, lt, p));
        if !t.expands(md, p) {
            assert(t.no_children(p));
            assert(t.children[p][k] == INVALID_NODE);
            assert(false);
        }
        assert(t.tiled(codes, md, p));
        let cs = child_count(t.children[p]);
        if k >= cs {
            assert(t.children[p][k] == INVALID_NODE);
            assert(false);
        }
        assert(t.child_ok(p, j));
        if t.levels[p] == l {
            p
        } else {
            lemma_ancestor_holding(t, codes, md, lt, p, s, l)
        }
    }
}

/// Below a node that holds a source there is a leaf that holds it
proof fn lemma_leaf_holding(t: TreeView, codes: Seq<u64>, md: int, lt: int, i: int, s: int) -> (j: int)
    requires
        t.built_from(codes, md, lt),
        md >= 1,
        0 <= i < t.len(),
        t.holds(i, s),
    ensures
        0 <= j < t.len(),
        t.leaf[j],
        t.holds(j, s),
    decreases md - t.levels[i],
{
    assert(t.node_basic(codes, md, lt, i));
    if t.leaf[i] {
        i
    } else {
        assert(t.expands(md, i));
        assert(t.tiled(codes, md, i));
        let c = lemma_tiled_child_holding(t, codes, md, i, s);
        assert(t.node_basic(codes, md, lt, c));
        lemma_leaf_holding(t, codes, md, lt, c, s)
    }
}

/// Every source lies in exactly one leaf of a tree at least one level deep
pub proof fn lemma_sources_in_one_leaf(t: TreeView, codes: Seq<u64>, max_depth: int, leaf_threshold: int, s: int)
    requires
        t.built_from(codes, max_depth, leaf_threshold),
        max_depth >= 1,
        0 <= s < codes.len(),
    ensures
        exists|j: int| 0 <= j < t.len() && t.leaf[j] && #[trigger] t.holds(j, s),
        forall|j1: int, j2: int|
            0 <= j1 < t.len() && 0 <= j2 < t.len() && t.leaf[j1] && t.leaf[j2] && #[trigger] t.holds(j1, s)
                && #[trigger] t.holds(j2, s) ==> j1 == j2,
{
    assert(t.holds(0, s));
    let j = lemma_leaf_holding(t, codes, max_depth, leaf_threshold, 0, s);
    assert(t.holds(j, s));
    assert forall|j1: int, j2: int|
        0 <= j1 < t.len() && 0 <= j2 < t.len() && t.leaf[j1] && t.leaf[j2] && #[trigger] t.holds(j1, s)
            && #[trigger] t.holds(j2, s) implies j1 == j2 by {
        if j1 != j2 {
            let (a, b) = if j1 < j2 { (j1, j2) } else { (j2, j1) };
            assert(t.ordered(a, b));
            if t.levels[a] == t.levels[b] {
                assert(false);
            } else {
                let anc = lemma_ancestor_holding(t, codes, max_depth, leaf_threshold, b, s, t.levels[a] as int);
                if anc == a {
                    assert(!t.leaf[a]);
                } else {
                    let (x, y) = if anc < a { (anc, a) } else { (a, anc) };
                    assert(t.ordered(x, y));
                }
            }
        }
    }
}

impl TreeView {
    /// The first `cs` slots of node `i` hold children that split its range into
    /// consecutive pieces; the other slots are empty
    pub open spec fn split_into(self, i: int, cs: int) -> bool {
        let a = self.children[i];
        let r = self.ranges[i];
        &&& 0 <= cs <= 8
        &&& forall|s: int| 0 <= s < cs ==> #[trigger] a[s] != INVALID_NODE && self.child_ok(i, a[s] as int)
        &&& forall|s: int| cs <= s < 8 ==> #[trigger] a[s] == INVALID_NODE
        &&& cs == 0 ==> r.0 == r.1
        &&& cs > 0 ==> self.ranges[a[0] as int].0 == r.0 && self.ranges[a[cs - 1] as int].1 == r.1
        &&& forall|s: int|
            0 <= s < cs - 1 ==> self.ranges[#[trigger] a[s] as int].1 == self.ranges[a[s + 1] as int].0
    }

    /// The shape a traversal relies on: ranges nest inside the root's and only the
    /// root's may be empty, only the deepest level and leaves lack children, a
    /// branch's children split its range, and nodes are numbered breadth-first
    pub open spec fn traversable(self, max_depth: int) -> bool {
        &&& self.lens_ok()
        &&& 1 <= self.len() <= u32::MAX
        &&& self.levels[0] == 0
        &&& self.ranges[0].0 == 0
        &&& forall|i: int|
            0 <= i < self.len() ==> #[trigger] self.levels[i] <= max_depth && self.ranges[i].0
                <= self.ranges[i].1 <= self.ranges[0].1
        &&& forall|i: int| 0 < i < self.len() ==> #[trigger] self.ranges[i].0 < self.ranges[i].1
        &&& forall|i: int| 0 < i < self.len() && !#[trigger] self.leaf[i] ==> self.levels[i] < max_depth
        &&& forall|i: int|
            0 <= i < self.len() ==> if #[trigger] self.expands(max_depth, i) {
                self.split_into(i, child_count(self.children[i]))
            } else {
                self.no_children(i)
            }
        &&& forall|i: int, j: int| 0 <= i < j < self.len() ==> #[trigger] self.ordered(i, j)
    }
}

/// A tree built from Morton codes can be traversed
pub proof fn lemma_built_from_traversable(t: TreeView, codes: Seq<u64>, max_depth: int, leaf_threshold: int)
    requires
        t.built_from(codes, max_depth, leaf_threshold),
    ensures
        t.traversable(max_depth),
{
    assert forall|i: int| 0 <= i < t.len() implies #[trigger] t.levels[i] <= max_depth && t.ranges[i].0
        <= t.ranges[i].1 <= t.ranges[0].1 by {
        assert(t.node_basic(codes, max_depth, leaf_threshold, i));
    }
    assert forall|i: int| 0 < i < t.len() implies #[trigger] t.ranges[i].0 < t.ranges[i].1 by {
        assert(t.node_basic(codes, max_depth, leaf_threshold, i));
    }
    assert forall|i: int| 0 < i < t.len() && !#[trigger] t.leaf[i] implies t.levels[i] < max_depth by {
        assert(t.node_basic(codes, max_depth, leaf_threshold, i));
    }
    assert forall|i: int| 0 <= i < t.len() implies if #[trigger] t.expands(max_depth, i) {
        t.split_into(i, child_count(t.children[i]))
    } else {
        t.no_children(i)
    } by {
        if t.expands(max_depth, i) {
            assert(t.tiled(codes, max_depth, i));
        }
    }
}

} // verus!
