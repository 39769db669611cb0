use oersted::math::{argsort, sort_by_indices};
use oersted::morton::interleave;
use oersted::octree::evaluation::{leaf_of_sources, traverse_target, traverse_tree, InteractionList};
use oersted::octree::node::{encode, get_prefix, get_range_in_same_node, INVALID_NODE};
use oersted::octree::topology::build_topology;

#[test]
fn prefix_drops_deeper_levels() {
    // three bits per level
    assert_eq!(get_prefix(0b101_110_011, 3, 1), 0b101);
    assert_eq!(get_prefix(0b101_110_011, 3, 2), 0b101_110);
    assert_eq!(get_prefix(0b101_110_011, 3, 3), 0b101_110_011);
    assert_eq!(get_prefix(0b101_110_011, 3, 0), 0);
}

#[test]
fn range_in_same_node_stops_where_prefix_changes() {
    let codes: Vec<u64> = vec![0b000_001, 0b000_010, 0b001_000, 0b001_111, 0b010_000];
    assert_eq!(get_range_in_same_node(&codes, 1, 2, 0, 5), 2);
    assert_eq!(get_range_in_same_node(&codes, 1, 2, 2, 5), 4);
    assert_eq!(get_range_in_same_node(&codes, 1, 2, 4, 5), 5);
    // the end bound caps the range
    assert_eq!(get_range_in_same_node(&codes, 1, 2, 0, 1), 1);
    // at the deepest level every distinct code is its own node
    assert_eq!(get_range_in_same_node(&codes, 2, 2, 0, 5), 1);
    // at the root every code shares the empty prefix
    assert_eq!(get_range_in_same_node(&codes, 0, 2, 0, 5), 5);
}

#[test]
fn morton_interleaves_x_lowest() {
    assert_eq!(interleave(1, 0, 0, 1), 1);
    assert_eq!(interleave(0, 1, 0, 1), 2);
    assert_eq!(interleave(0, 0, 1, 1), 4);
    assert_eq!(interleave(1, 1, 1, 1), 7);
    assert_eq!(interleave(2, 0, 0, 2), 8);
    assert_eq!(interleave(3, 5, 6, 3), 0b110_101_011);
    // bits above the depth are ignored
    assert_eq!(interleave(2, 0, 0, 1), 0);
    assert_eq!(interleave(0x1f_ffff, 0x1f_ffff, 0x1f_ffff, 21), (1u64 << 63) - 1);
}

#[test]
fn prefix_of_code_is_code_of_parent_cell() {
    let (x, y, z) = (5u32, 3u32, 6u32);
    let code = interleave(x, y, z, 3);
    assert_eq!(get_prefix(code, 3, 1), interleave(x >> 2, y >> 2, z >> 2, 1));
    assert_eq!(get_prefix(code, 3, 2), interleave(x >> 1, y >> 1, z >> 1, 2));
}

#[test]
fn encode_gives_one_code_per_cell() {
    let cells = vec![(0u32, 0u32, 0u32), (1, 0, 0), (1, 1, 1), (3, 2, 1)];
    let codes = encode(&cells, 2);
    assert_eq!(codes, vec![0, 1, 7, interleave(3, 2, 1, 2)]);
    assert_eq!(codes[3], 0b011_101);
}

#[test]
fn argsort_is_stable() {
    let keys: Vec<u64> = vec![3, 1, 2, 1, 0, 3];
    assert_eq!(argsort(&keys), vec![4, 1, 3, 2, 0, 5]);
    assert_eq!(argsort(&[]), Vec::<usize>::new());
    assert_eq!(argsort(&[7]), vec![0]);
}

#[test]
fn sort_by_indices_gathers() {
    let mut data = vec![10, 20, 30, 40];
    let mut scratch = vec![0; 4];
    sort_by_indices(&mut data, &mut scratch, &[2, 0, 3, 1]);
    assert_eq!(data, vec![30, 10, 40, 20]);
    assert_eq!(scratch, data);
}

#[test]
fn argsort_then_gather_sorts_codes() {
    let mut codes: Vec<u64> = vec![9, 4, 7, 4, 1];
    let perm = argsort(&codes);
    let mut scratch = vec![0u64; codes.len()];
    sort_by_indices(&mut codes, &mut scratch, &perm);
    assert_eq!(codes, vec![1, 4, 4, 7, 9]);
    assert_eq!(perm, vec![4, 1, 3, 2, 0]);
}

// One source in each octant of the root: eight leaves under the root
#[test]
fn topology_single_level() {
    let codes: Vec<u64> = (0..8).collect();
    let t = build_topology(&codes, 1, 16);
    assert_eq!(t.len(), 9);
    assert_eq!(t.children[0], [1, 2, 3, 4, 5, 6, 7, 8]);
    assert_eq!(t.source_range[0], (0, 8));
    assert!(!t.is_leaf[0]);
    for i in 1..9 {
        assert_eq!(t.levels[i], 1);
        assert_eq!(t.source_range[i], ((i - 1) as u32, i as u32));
        assert!(t.is_leaf[i]);
        assert_eq!(t.children[i], [INVALID_NODE; 8]);
    }
}

#[test]
fn topology_two_levels_breadth_first() {
    // depth 2: codes 0,1 share cell 0 at level 1; codes 8,9,10 share cell 1; 63 alone
    let codes: Vec<u64> = vec![0, 1, 8, 9, 10, 63];
    let t = build_topology(&codes, 2, 2);
    assert_eq!(t.len(), 7);
    // level 1: cells 0 (2 sources, leaf), 1 (3 sources, branch), 7 (1 source, leaf)
    assert_eq!(t.children[0], [1, 2, 3, INVALID_NODE, INVALID_NODE, INVALID_NODE, INVALID_NODE, INVALID_NODE]);
    assert_eq!(t.source_range[1], (0, 2));
    assert_eq!(t.source_range[2], (2, 5));
    assert_eq!(t.source_range[3], (5, 6));
    assert_eq!(t.is_leaf[1..4], [true, false, true]);
    // level 2: the branch splits into its three codes
    assert_eq!(t.children[2][..4], [4, 5, 6, INVALID_NODE]);
    assert_eq!(t.source_range[4..7], [(2, 3), (3, 4), (4, 5)]);
    assert_eq!(t.levels, vec![0, 1, 1, 1, 2, 2, 2]);
    assert!(t.is_leaf[4] && t.is_leaf[5] && t.is_leaf[6]);
}

#[test]
fn topology_of_no_sources_is_a_bare_root() {
    let t = build_topology(&[], 21, 16);
    assert_eq!(t.len(), 1);
    assert_eq!(t.source_range[0], (0, 0));
    assert_eq!(t.children[0], [INVALID_NODE; 8]);
    assert!(!t.is_leaf[0]);
}

#[test]
fn topology_small_root_still_splits() {
    // the root is never a leaf: its children are made even below the threshold
    let codes: Vec<u64> = vec![0, 0, 5];
    let t = build_topology(&codes, 21, 16);
    assert_eq!(t.len(), 2);
    assert_eq!(t.children[0][0], 1);
    assert_eq!(t.source_range[1], (0, 3));
    assert!(t.is_leaf[1]);
}

#[test]
fn interaction_list_groups_targets_by_source() {
    let pairs: Vec<(u32, u32)> = vec![(2, 0), (0, 0), (2, 1), (0, 1), (1, 2)];
    let list = InteractionList::from_pairs(3, &pairs);
    assert_eq!(list.offsets, vec![0, 2, 3, 5]);
    assert_eq!(list.data, vec![0, 1, 2, 0, 1]);
    assert_eq!(list.buf_len, 2);
}

#[test]
fn interaction_list_with_idle_sources() {
    let list = InteractionList::from_pairs(4, &[(3, 7)]);
    assert_eq!(list.offsets, vec![0, 0, 0, 0, 1]);
    assert_eq!(list.data, vec![7]);
    assert_eq!(list.buf_len, 1);
    let empty = InteractionList::from_pairs(2, &[]);
    assert_eq!(empty.offsets, vec![0, 0, 0]);
    assert!(empty.data.is_empty());
    assert_eq!(empty.buf_len, 0);
}

// Tree of `topology_two_levels_breadth_first`: root 0; level 1: leaf 1 (sources 0..2),
// branch 2 (sources 2..5), leaf 3 (source 5); level 2: leaves 4, 5, 6 (sources 2, 3, 4)
fn two_level_tree() -> oersted::octree::topology::Topology {
    build_topology(&[0, 1, 8, 9, 10, 63], 2, 2)
}

#[test]
fn traversal_opening_everything_reaches_every_source_once() {
    let t = two_level_tree();
    let (near, far) = traverse_target(&t, 0, &|_t: u32, _n: u32| false);
    assert!(far.is_empty());
    // depth first, last child first
    assert_eq!(near, vec![5, 4, 3, 2, 0, 1]);
}

#[test]
fn traversal_taking_the_root_stops_there() {
    let t = two_level_tree();
    let (near, far) = traverse_target(&t, 0, &|_t: u32, _n: u32| true);
    assert!(near.is_empty());
    assert_eq!(far, vec![0]);
}

#[test]
fn traversal_takes_the_branch_and_opens_the_rest() {
    let t = two_level_tree();
    let (near, far) = traverse_target(&t, 3, &|_t: u32, n: u32| n == 2 || n == 5);
    // node 5 lies below the taken node 2 and is never visited
    assert_eq!(far, vec![2]);
    assert_eq!(near, vec![5, 0, 1]);
}

#[test]
fn traversal_per_target_lists() {
    let t = two_level_tree();
    // target 0 takes the whole tree, target 1 opens everything, target 2 takes leaf 1
    let accept = |tt: u32, n: u32| (tt == 0 && n == 0) || (tt == 2 && n == 1);
    let (near, far) = traverse_tree(&t, 3, &accept).unwrap();
    assert_eq!(near.offsets, vec![0, 1, 2, 4, 6, 8, 10]);
    assert_eq!(near.data, vec![1, 1, 1, 2, 1, 2, 1, 2, 1, 2]);
    assert_eq!(near.buf_len, 2);
    assert_eq!(far.offsets, vec![0, 1, 2, 2, 2, 2, 2, 2]);
    assert_eq!(far.data, vec![0, 2]);
    assert_eq!(far.buf_len, 1);
}

#[test]
fn traversal_of_no_targets_lists_nothing() {
    let t = two_level_tree();
    let (near, far) = traverse_tree(&t, 0, &|_t: u32, _n: u32| false).unwrap();
    assert_eq!(near.offsets, vec![0; 7]);
    assert_eq!(far.offsets, vec![0; 8]);
    assert!(near.data.is_empty() && far.data.is_empty());
    assert_eq!((near.buf_len, far.buf_len), (0, 0));
}

#[test]
fn every_source_lies_in_one_leaf() {
    let cells: Vec<(u32, u32, u32)> = vec![(0, 0, 0), (3, 1, 2), (3, 1, 3), (1, 1, 1), (2, 2, 2), (0, 0, 1), (3, 3, 3)];
    let mut codes = encode(&cells, 2);
    let perm = argsort(&codes);
    let mut scratch = vec![0u64; codes.len()];
    sort_by_indices(&mut codes, &mut scratch, &perm);
    let t = build_topology(&codes, 2, 1);
    for s in 0..codes.len() as u32 {
        let holders = (0..t.len())
            .filter(|&i| t.is_leaf[i] && t.source_range[i].0 <= s && s < t.source_range[i].1)
            .count();
        assert_eq!(holders, 1);
    }
}

#[test]
fn leaf_of_each_source() {
    let t = two_level_tree();
    assert_eq!(leaf_of_sources(&t), vec![1, 1, 4, 5, 6, 3]);
    let single = build_topology(&(0..8).collect::<Vec<u64>>(), 1, 16);
    assert_eq!(leaf_of_sources(&single), vec![1, 2, 3, 4, 5, 6, 7, 8]);
}

#[test]
fn root_only_tree_lists_the_root_once() {
    // no level below the root: it has no children and is not a leaf
    let t = build_topology(&[0, 0, 0], 0, 1);
    assert_eq!(t.len(), 1);
    let (near, far) = traverse_tree(&t, 3, &|tt: u32, _n: u32| tt != 1).unwrap();
    assert_eq!(far.offsets, vec![0, 2]);
    assert_eq!(far.data, vec![0, 2]);
    assert_eq!(near.offsets, vec![0, 0, 0, 0]);
}

#[test]
fn sort_codes_orders_and_keeps_the_permutation() {
    let (perm, sorted) = oersted::octree::sources::sort_codes(&[9, 4, 7, 4, 1]);
    assert_eq!(perm, vec![4, 1, 3, 2, 0]);
    assert_eq!(sorted, vec![1, 4, 4, 7, 9]);
}

#[test]
fn topology_from_codes_with_high_bits() {
    // two codes at depth 1 that differ far above the level-1 bits: two leaves
    let codes: Vec<u64> = vec![0, 1u64 << 62];
    let t = build_topology(&codes, 1, 16);
    assert_eq!(t.len(), 3);
    assert_eq!(t.source_range[1], (0, 1));
    assert_eq!(t.source_range[2], (1, 2));
    assert!(t.is_leaf[1] && t.is_leaf[2]);
}
