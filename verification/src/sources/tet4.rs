//! Node numbering of the faces of a 4-node tetrahedral element

use vstd::prelude::*;

verus! {

/// Node indices of face `f` in winding order: the perimeter is traversed by the right
/// hand rule with the normal facing away from the element. Refer to the gmsh
/// documentation for node numbering on a tet element:
/// <https://gmsh.info/doc/texinfo/gmsh.html#Node-ordering>
pub open spec fn winding(f: int) -> (usize, usize, usize) {
    if f == 0 {
        (0usize, 2usize, 1usize)
    } else if f == 1 {
        (0usize, 3usize, 2usize)
    } else if f == 2 {
        (1usize, 2usize, 3usize)
    } else {
        (0usize, 1usize, 3usize)
    }
}

/// Return the node indices associated with a given triangular face, using the proper
/// winding order: the perimeter of the face is traversed according to the right hand
/// rule, with the normal facing away from the center of the element.
pub fn face_nodes(f: usize) -> (nodes: (usize, usize, usize))
    requires
        f < 4,
    ensures
        nodes == winding(f as int),
{
    match f {
        0 => (0, 2, 1),
        1 => (0, 3, 2),
        2 => (1, 2, 3),
        _ => (0, 1, 3),
    }
}

/// Face `f` traverses the directed edge from node `a` to node `b`
pub open spec fn has_edge(f: int, a: usize, b: usize) -> bool {
    let (p, q, r) = winding(f);
    (p == a && q == b) || (q == a && r == b) || (r == a && p == b)
}

/// The node that face `f` leaves out
pub open spec fn opposite(f: int) -> usize {
    if f == 0 {
        3usize
    } else if f == 1 {
        1usize
    } else if f == 2 {
        0usize
    } else {
        2usize
    }
}

/// The four faces form a closed, consistently oriented surface: each face has three
/// distinct nodes and leaves out a different node, and every directed edge of a face
/// is traversed backwards by another face
pub proof fn lemma_faces_closed()
    ensures
        forall|f: int| 0 <= f < 4 ==> {
            let (p, q, r) = #[trigger] winding(f);
            &&& p < 4 && q < 4 && r < 4
            &&& p != q && q != r && r != p
            &&& p != opposite(f) && q != opposite(f) && r != opposite(f)
        },
        forall|f: int, g: int| 0 <= f < g < 4 ==> #[trigger] opposite(f) != #[trigger] opposite(g),
        forall|f: int, a: usize, b: usize|
            0 <= f < 4 && #[trigger] has_edge(f, a, b) ==> exists|g: int|
                0 <= g < 4 && g != f && #[trigger] has_edge(g, b, a),
{
    assert forall|f: int, a: usize, b: usize|
        0 <= f < 4 && #[trigger] has_edge(f, a, b) implies exists|g: int|
            0 <= g < 4 && g != f && #[trigger] has_edge(g, b, a) by {
        if f == 0 {
            if a == 0 {
                assert(has_edge(1, b, a));
            } else if a == 2 {
                assert(has_edge(2, b, a));
            } else {
                assert(has_edge(3, b, a));
            }
        } else if f == 1 {
            if a == 0 {
                assert(has_edge(3, b, a));
            } else if a == 3 {
                assert(has_edge(2, b, a));
            } else {
                assert(has_edge(0, b, a));
            }
        } else if f == 2 {
            if a == 1 {
                assert(has_edge(0, b, a));
            } else if a == 2 {
                assert(has_edge(1, b, a));
            } else {
                assert(has_edge(3, b, a));
            }
        } else {
            if a == 0 {
                assert(has_edge(0, b, a));
            } else if a == 1 {
                assert(has_edge(2, b, a));
            } else {
                assert(has_edge(1, b, a));
            }
        }
    }
}

} // verus!
