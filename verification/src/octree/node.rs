//! Functions for working with individual nodes in the tree

use vstd::prelude::*;
use vstd::arithmetic::power2::pow2;
use vstd::bits::lemma_u64_shr_is_div;
use crate::morton::{interleave, morton_code, lemma_morton_bound, lemma_morton_shift};
use crate::octree::topology::codes_fit_depth;

verus! {

/// Sentinel value to identify nodes who have not been assigned in the tree yet
pub const INVALID_NODE: u32 = 0xffff_ffffu32;

/// Number of bits a Morton code spends on the levels below `level`
pub open spec fn level_shift(max_level: int, level: int) -> int {
    3 * (max_level - level)
}

/// The Morton code prefix at a given level: the code with the bits of all deeper
/// levels removed
pub open spec fn prefix_spec(code: u64, max_level: int, level: int) -> u64 {
    code >> (level_shift(max_level, level) as u64)
}

/// The codes in `codes[start..end]` whose prefix at `level` equals the prefix of
/// `codes[start]` come before all those whose prefix differs
pub open spec fn prefix_partitioned(
    codes: Seq<u64>,
    max_level: int,
    level: int,
    start: int,
    end: int,
) -> bool {
    forall|i: int, j: int|
        #![trigger codes[i], codes[j]]
        start <= i < j < end && prefix_spec(codes[j], max_level, level) == prefix_spec(
            codes[start],
            max_level,
            level,
        ) ==> prefix_spec(codes[i], max_level, level) == prefix_spec(
            codes[start],
            max_level,
            level,
        )
}

/// Return the morton code prefix at a given level of the tree
pub fn get_prefix(code: u64, max_level: u8, level: u8) -> (prefix: u64)
    requires
        level <= max_level,
        level_shift(max_level as int, level as int) < 64,
    ensures
        prefix == prefix_spec(code, max_level as int, level as int),
{
    let shift: u64 = 3u64 * (max_level - level) as u64;
    let prefix: u64 = code >> shift;
    prefix
}

/// Shifting right preserves the order of codes
pub proof fn lemma_shr_monotone(a: u64, b: u64, s: u64)
    requires
        a <= b,
        s < 64,
    ensures
        a >> s <= b >> s,
{
    assert(a <= b && s < 64 ==> a >> s <= b >> s) by (bit_vector);
}

/// The prefix at a level is the prefix one level deeper with its last three bits removed
pub proof fn lemma_prefix_parent(code: u64, max_level: int, level: int)
    requires
        0 <= level < max_level,
        level_shift(max_level, level) < 64,
    ensures
        prefix_spec(code, max_level, level + 1) >> 3u64 == prefix_spec(code, max_level, level),
        prefix_spec(code, max_level, level) * 8 <= prefix_spec(code, max_level, level + 1),
        prefix_spec(code, max_level, level + 1) < prefix_spec(code, max_level, level) * 8 + 8,
{
    let s: u64 = level_shift(max_level, level + 1) as u64;
    let q: u64 = prefix_spec(code, max_level, level + 1);
    assert(s + 3 < 64 ==> (code >> s) >> 3u64 == code >> ((s + 3) as u64)) by (bit_vector);
    assert(q >> 3u64 == q / 8) by (bit_vector);
}

/// At its own level (the deepest), a code is its own prefix
pub proof fn lemma_prefix_at_max_level(code: u64, max_level: int)
    ensures
        prefix_spec(code, max_level, max_level) == code,
{
    assert(code >> 0u64 == code) by (bit_vector);
}

// Get the end index of a range that has the same parent node at the current level
// Returns the index that has the changed prefix, so an open range [start_index, end_index)
// The range is bounded by [start, end]
pub fn get_range_in_same_node(
    codes: &[u64],
    level: u8,
    max_depth: u8,
    start: usize,
    end: usize,
) -> (r: usize)
    requires
        level <= max_depth,
        level_shift(max_depth as int, level as int) < 64,
        start <= end <= codes@.len(),
        start < codes@.len(),
        prefix_partitioned(codes@, max_depth as int, level as int, start as int, end as int),
    ensures
        start <= r <= end,
        forall|i: int|
            start <= i < r ==> prefix_spec(#[trigger] codes@[i], max_depth as int, level as int)
                == prefix_spec(codes@[start as int], max_depth as int, level as int),
        forall|i: int|
            r <= i < end ==> prefix_spec(#[trigger] codes@[i], max_depth as int, level as int)
                != prefix_spec(codes@[start as int], max_depth as int, level as int),
{
    let shift = 3 * (max_depth - level) as u64;
    let target_prefix = codes[start] >> shift;

    // Binary search for first index with different prefix
    let mut lo: usize = start;
    let mut hi: usize = end;
    while lo < hi
        invariant
            start <= lo <= hi <= end <= codes@.len(),
            shift == level_shift(max_depth as int, level as int),
            shift < 64,
            target_prefix == prefix_spec(codes@[start as int], max_depth as int, level as int),
            prefix_partitioned(codes@, max_depth as int, level as int, start as int, end as int),
            forall|i: int|
                start <= i < lo ==> prefix_spec(#[trigger] codes@[i], max_depth as int, level as int)
                    == target_prefix,
            forall|i: int|
                hi <= i < end ==> prefix_spec(#[trigger] codes@[i], max_depth as int, level as int)
                    != target_prefix,
        decreases hi - lo,
    {
        let mid: usize = lo + (hi - lo) / 2;
        if codes[mid] >> shift == target_prefix {
            assert forall|i: int| start <= i < mid + 1 implies prefix_spec(
                #[trigger] codes@[i],
                max_depth as int,
                level as int,
            ) == target_prefix by {
                if i < mid {
                    assert(codes@[mid as int] == codes@[mid as int]);
                }
            }
            lo = mid + 1;
        } else {
            assert forall|i: int| mid <= i < end implies prefix_spec(
                #[trigger] codes@[i],
                max_depth as int,
                level as int,
            ) != target_prefix by {
                if mid < i {
                    assert(codes@[mid as int] == codes@[mid as int]);
                }
            }
            hi = mid;
        }
    }
    lo
}


/// The prefix of a cell's Morton code at `level` is the Morton code of the cell of
/// that level (side `2^(max_depth - level)` grid cells) which contains it
pub proof fn lemma_prefix_is_cell(x: u32, y: u32, z: u32, max_depth: int, level: int)
    requires
        0 <= level <= max_depth <= 21,
    ensures
        prefix_spec(morton_code(x as nat, y as nat, z as nat, max_depth as nat) as u64, max_depth, level)
            == morton_code(
            x as nat / pow2((max_depth - level) as nat),
            y as nat / pow2((max_depth - level) as nat),
            z as nat / pow2((max_depth - level) as nat),
            level as nat,
        ),
{
    let code = morton_code(x as nat, y as nat, z as nat, max_depth as nat);
    let k = (max_depth - level) as nat;
    lemma_morton_bound(x as nat, y as nat, z as nat, max_depth as nat);
    vstd::arithmetic::power2::lemma2_to64();
    if 3 * max_depth < 64 {
        vstd::arithmetic::power2::lemma_pow2_strictly_increases((3 * max_depth) as nat, 64);
    }
    lemma_u64_shr_is_div(code as u64, (3 * k) as u64);
    lemma_morton_shift(x as nat, y as nat, z as nat, max_depth as nat, k);
}

/// Return the morton code of each cell: the grid cells that hold the sources'
/// centroids, `2^max_depth` cells per side
pub fn encode(cells: &[(u32, u32, u32)], max_depth: u8) -> (codes: Vec<u64>)
    requires
        max_depth <= 21,
    ensures
        codes@.len() == cells@.len(),
        forall|i: int|
            0 <= i < cells@.len() ==> #[trigger] codes@[i] == morton_code(
                cells@[i].0 as nat,
                cells@[i].1 as nat,
                cells@[i].2 as nat,
                max_depth as nat,
            ),
        codes_fit_depth(codes@, max_depth as int),
{
    let n: usize = cells.len();
    let mut codes: Vec<u64> = Vec::with_capacity(n);
    let mut i: usize = 0;
    while i < n
        invariant
            n == cells@.len(),
            max_depth <= 21,
            i <= n,
            codes@.len() == i,
            forall|j: int|
                0 <= j < i ==> #[trigger] codes@[j] == morton_code(
                    cells@[j].0 as nat,
                    cells@[j].1 as nat,
                    cells@[j].2 as nat,
                    max_depth as nat,
                ),
            codes_fit_depth(codes@, max_depth as int),
        decreases n - i,
    {
        let (x, y, z) = cells[i];
        let code = interleave(x, y, z, max_depth);
        proof {
            lemma_morton_bound(x as nat, y as nat, z as nat, max_depth as nat);
            vstd::arithmetic::power2::lemma2_to64();
            if 3 * max_depth < 64 {
                vstd::arithmetic::power2::lemma_pow2_strictly_increases((3 * max_depth) as nat, 64);
            }
            lemma_u64_shr_is_div(code, (3 * max_depth) as u64);
            vstd::arithmetic::div_mod::lemma_basic_div(code as int, pow2((3 * max_depth) as nat) as int);
            assert(prefix_spec(code, max_depth as int, 0) == 0);
        }
        codes.push(code);
        i = i + 1;
    }
    codes
}

} // verus!
