//! Finite element mesh operations

use vstd::prelude::*;
use std::collections::HashMap;

verus! {

broadcast use vstd::std_specs::hash::group_hash_axioms;

/// A triangular face, as the indices of its three nodes in winding order
pub type Face = (u32, u32, u32);

pub open spec fn min3(a: u32, b: u32, c: u32) -> u32 {
    if a <= b && a <= c {
        a
    } else if b <= c {
        b
    } else {
        c
    }
}

pub open spec fn max3(a: u32, b: u32, c: u32) -> u32 {
    if a >= b && a >= c {
        a
    } else if b >= c {
        b
    } else {
        c
    }
}

/// Faces with the same three nodes, in any order, share one key: the sorted node
/// indices packed into one integer
pub open spec fn face_key(f: Face) -> u128 {
    let lo = min3(f.0, f.1, f.2) as int;
    let hi = max3(f.0, f.1, f.2) as int;
    let mid = f.0 + f.1 + f.2 - lo - hi;
    (lo * 0x1_0000_0000_0000_0000 + mid * 0x1_0000_0000 + hi) as u128
}

/// `g` has the same three nodes as `f`, in some order
pub open spec fn same_nodes(f: Face, g: Face) -> bool {
    ||| g == (f.0, f.1, f.2)
    ||| g == (f.0, f.2, f.1)
    ||| g == (f.1, f.0, f.2)
    ||| g == (f.1, f.2, f.0)
    ||| g == (f.2, f.0, f.1)
    ||| g == (f.2, f.1, f.0)
}

/// How many faces in `faces` have the same nodes as `f`
pub open spec fn node_set_count(faces: Seq<Face>, f: Face) -> nat
    decreases faces.len(),
{
    if faces.len() == 0 {
        0
    } else {
        node_set_count(faces.drop_last(), f) + if same_nodes(f, faces.last()) {
            1nat
        } else {
            0nat
        }
    }
}

/// The last face in `faces` with the same nodes as `f`
pub open spec fn last_of_node_set(faces: Seq<Face>, f: Face) -> Face
    decreases faces.len(),
{
    if faces.len() == 0 {
        (0u32, 0u32, 0u32)
    } else if same_nodes(f, faces.last()) {
        faces.last()
    } else {
        last_of_node_set(faces.drop_last(), f)
    }
}

/// Face `f` of the flat connectivity array: element `f / 4`, local face `f % 4`.
/// Refer the gmsh docs for node numbering scheme:
/// <https://gmsh.info/doc/texinfo/gmsh.html#Node-ordering>
pub open spec fn elem_face(c: Seq<u32>, f: int) -> Face {
    let b = (f / 4) * 4;
    let r = f % 4;
    if r == 0 {
        (c[b], c[b + 3], c[b + 2])
    } else if r == 1 {
        (c[b], c[b + 2], c[b + 1])
    } else if r == 2 {
        (c[b], c[b + 1], c[b + 3])
    } else {
        (c[b + 1], c[b + 2], c[b + 3])
    }
}

/// All faces of all complete 4-node elements, element by element
pub open spec fn mesh_faces(c: Seq<u32>) -> Seq<Face> {
    Seq::new((4 * (c.len() / 4)) as nat, |f: int| elem_face(c, f))
}

/// How many faces in `faces` have key `k`
pub open spec fn key_count(faces: Seq<Face>, k: u128) -> nat
    decreases faces.len(),
{
    if faces.len() == 0 {
        0
    } else {
        key_count(faces.drop_last(), k) + if face_key(faces.last()) == k {
            1nat
        } else {
            0nat
        }
    }
}

/// The last face in `faces` with key `k`
pub open spec fn last_with_key(faces: Seq<Face>, k: u128) -> Face
    decreases faces.len(),
{
    if faces.len() == 0 {
        (0u32, 0u32, 0u32)
    } else if face_key(faces.last()) == k {
        faces.last()
    } else {
        last_with_key(faces.drop_last(), k)
    }
}

/// The surface of a set of faces: every node set that occurs an odd number of times
/// (a face shared by two elements cancels), represented by its last occurrence
pub open spec fn surface_map(faces: Seq<Face>) -> Map<u128, Face> {
    Map::new(|k: u128| key_count(faces, k) % 2 == 1, |k: u128| last_with_key(faces, k))
}

/// Adding one face toggles its key in the surface
pub proof fn lemma_surface_map_push(faces: Seq<Face>, f: Face)
    ensures
        surface_map(faces.push(f)) == if surface_map(faces).contains_key(face_key(f)) {
            surface_map(faces).remove(face_key(f))
        } else {
            surface_map(faces).insert(face_key(f), f)
        },
{
    let fs = faces.push(f);
    assert(fs.drop_last() == faces);
    assert(fs.last() == f);
    if surface_map(faces).contains_key(face_key(f)) {
        assert(surface_map(fs) =~= surface_map(faces).remove(face_key(f)));
    } else {
        assert(surface_map(fs) =~= surface_map(faces).insert(face_key(f), f));
    }
}

/// The face kept for a key carries that key
pub proof fn lemma_last_with_key(faces: Seq<Face>, k: u128)
    requires
        key_count(faces, k) > 0,
    ensures
        face_key(last_with_key(faces, k)) == k,
    decreases faces.len(),
{
    if face_key(faces.last()) != k {
        lemma_last_with_key(faces.drop_last(), k);
    }
}

/// The surface of no faces is empty
pub proof fn lemma_surface_map_empty()
    ensures
        surface_map(Seq::<Face>::empty()) == Map::<u128, Face>::empty(),
{
    assert(surface_map(Seq::<Face>::empty()) =~= Map::<u128, Face>::empty());
}

/// The number with 32-bit digits `lo`, `mid`, `hi`, most significant first
spec fn key_value(lo: int, mid: int, hi: int) -> int {
    lo * 0x1_0000_0000_0000_0000 + mid * 0x1_0000_0000 + hi
}

/// A number below `2^96` built from three 32-bit digits gives its digits back
proof fn lemma_key_digits(lo: int, mid: int, hi: int)
    requires
        0 <= lo < 0x1_0000_0000,
        0 <= mid < 0x1_0000_0000,
        0 <= hi < 0x1_0000_0000,
    ensures
        0 <= key_value(lo, mid, hi) <= u128::MAX,
        key_value(lo, mid, hi) % 0x1_0000_0000 == hi,
        (key_value(lo, mid, hi) / 0x1_0000_0000) % 0x1_0000_0000 == mid,
        (key_value(lo, mid, hi) / 0x1_0000_0000) / 0x1_0000_0000 == lo,
{
    let k: int = 0x1_0000_0000;
    let v = lo * 0x1_0000_0000_0000_0000 + mid * 0x1_0000_0000 + hi;
    assert(v == (lo * k + mid) * k + hi);
    vstd::arithmetic::div_mod::lemma_fundamental_div_mod_converse(v, k, lo * k + mid, hi);
    vstd::arithmetic::div_mod::lemma_fundamental_div_mod_converse(lo * k + mid, k, lo, mid);
}

/// Two faces get the same key exactly when they have the same three nodes, in any
/// order: faces cancel in `surface_faces` only when their node sets agree
pub proof fn lemma_face_key_identifies_nodes(f: Face, g: Face)
    ensures
        face_key(f) == face_key(g) <==> same_nodes(f, g),
{
    let lf = min3(f.0, f.1, f.2) as int;
    let hf = max3(f.0, f.1, f.2) as int;
    let mf = f.0 + f.1 + f.2 - lf - hf;
    let lg = min3(g.0, g.1, g.2) as int;
    let hg = max3(g.0, g.1, g.2) as int;
    let mg = g.0 + g.1 + g.2 - lg - hg;
    assert(0 <= mf < 0x1_0000_0000 && lf <= mf <= hf);
    assert(0 <= mg < 0x1_0000_0000 && lg <= mg <= hg);
    lemma_key_digits(lf, mf, hf);
    lemma_key_digits(lg, mg, hg);
    let vf = lf * 0x1_0000_0000_0000_0000 + mf * 0x1_0000_0000 + hf;
    let vg = lg * 0x1_0000_0000_0000_0000 + mg * 0x1_0000_0000 + hg;
    assert(face_key(f) as int == vf);
    assert(face_key(g) as int == vg);
    if face_key(f) == face_key(g) {
        assert(lf == lg && mf == mg && hf == hg);
    }
}

/// Counting faces by key counts the faces with the same nodes
pub proof fn lemma_key_count_nodes(faces: Seq<Face>, f: Face)
    ensures
        key_count(faces, face_key(f)) == node_set_count(faces, f),
        key_count(faces, face_key(f)) > 0 ==> last_with_key(faces, face_key(f)) == last_of_node_set(faces, f),
    decreases faces.len(),
{
    if faces.len() > 0 {
        lemma_key_count_nodes(faces.drop_last(), f);
        lemma_face_key_identifies_nodes(faces.last(), f);
        lemma_face_key_identifies_nodes(f, faces.last());
    }
}

/// The key of a face, computed by sorting its three node indices
fn compute_face_key(f: Face) -> (k: u128)
    ensures
        k == face_key(f),
{
    let (a, b, c) = f;
    // Internal faces will have opposite ordering, so these need to be sorted
    let (lo, mid, hi) = if a <= b {
        if b <= c {
            (a, b, c)
        } else if a <= c {
            (a, c, b)
        } else {
            (c, a, b)
        }
    } else {
        if a <= c {
            (b, a, c)
        } else if b <= c {
            (b, c, a)
        } else {
            (c, b, a)
        }
    };
    (lo as u128) * 0x1_0000_0000_0000_0000u128 + (mid as u128) * 0x1_0000_0000u128 + (hi as u128)
}

/// Insert the face when its key is absent, otherwise remove the key
fn toggle_face(face_map: &mut HashMap<u128, Face>, face: Face, Ghost(done): Ghost<Seq<Face>>)
    requires
        old(face_map)@ == surface_map(done),
    ensures
        final(face_map)@ == surface_map(done.push(face)),
{
    let key = compute_face_key(face);
    proof {
        lemma_surface_map_push(done, face);
    }
    if face_map.contains_key(&key) {
        face_map.remove(&key);
    } else {
        face_map.insert(key, face);
    }
}

/// The output of `surface_faces` read as triangles
pub open spec fn triangles(out: Seq<u32>) -> Seq<Face> {
    Seq::new(out.len() / 3, |t: int| (out[3 * t], out[3 * t + 1], out[3 * t + 2]))
}

/// Determine which faces in a mesh are on the surface
///
/// # Arguments
/// * `connectivity`: flat array of indices into `nodes` of the four nodes in each element; row-major order
///
/// # Returns
/// a flat vector of the indices for each node in the surface faces (3 nodes per face)
///
/// A face is on the surface when its three nodes occur together in an odd number of
/// element faces (an internal face is shared by two elements with opposite winding);
/// it is returned with the winding of its last occurrence. The faces come out in the
/// order of a hash map, which is not fixed.
pub fn surface_faces(connectivity: &[u32]) -> (faces_out: Vec<u32>)
    ensures
        faces_out@.len() % 3 == 0,
        triangles(faces_out@).len() == surface_map(mesh_faces(connectivity@)).dom().len(),
        forall|t: int|
            0 <= t < triangles(faces_out@).len() ==> {
                let tri = #[trigger] triangles(faces_out@)[t];
                &&& surface_map(mesh_faces(connectivity@)).contains_key(face_key(tri))
                &&& surface_map(mesh_faces(connectivity@))[face_key(tri)] == tri
            },
        forall|k: u128|
            #[trigger] surface_map(mesh_faces(connectivity@)).contains_key(k) ==> exists|t: int|
                0 <= t < triangles(faces_out@).len() && #[trigger] triangles(faces_out@)[t]
                    == surface_map(mesh_faces(connectivity@))[k],
        forall|t: int|
            0 <= t < triangles(faces_out@).len() ==> node_set_count(
                mesh_faces(connectivity@),
                #[trigger] triangles(faces_out@)[t],
            ) % 2 == 1 && triangles(faces_out@)[t] == last_of_node_set(
                mesh_faces(connectivity@),
                triangles(faces_out@)[t],
            ),
        forall|i: int|
            0 <= i < mesh_faces(connectivity@).len() && node_set_count(
                mesh_faces(connectivity@),
                #[trigger] mesh_faces(connectivity@)[i],
            ) % 2 == 1 ==> exists|t: int|
                0 <= t < triangles(faces_out@).len() && same_nodes(
                    mesh_faces(connectivity@)[i],
                    #[trigger] triangles(faces_out@)[t],
                ),
{
    let n_total: usize = connectivity.len();
    let n_elements: usize = n_total / 4;
    let ghost all = mesh_faces(connectivity@);

    // Waste a bit of memory by allocating more memory than we need...
    let mut faces_out: Vec<u32> = Vec::with_capacity(n_elements);
    let mut face_map: HashMap<u128, Face> = HashMap::with_capacity(n_elements);
    proof {
        lemma_surface_map_empty();
        assert(all.take(0) =~= Seq::<Face>::empty());
    }

    let mut e: usize = 0;
    while e < n_elements
        invariant
            n_total == connectivity@.len(),
            n_elements == connectivity@.len() / 4,
            all == mesh_faces(connectivity@),
            e <= n_elements,
            face_map@ == surface_map(all.take(4 * e)),
        decreases n_elements - e,
    {
        assert(4 * e + 4 <= connectivity@.len());
        let b: usize = 4 * e;
        let elem0 = connectivity[b];
        let elem1 = connectivity[b + 1];
        let elem2 = connectivity[b + 2];
        let elem3 = connectivity[b + 3];
        // Refer the gmsh docs for node numbering scheme:
        // <https://gmsh.info/doc/texinfo/gmsh.html#Node-ordering>
        let f0: Face = (elem0, elem3, elem2);
        let f1: Face = (elem0, elem2, elem1);
        let f2: Face = (elem0, elem1, elem3);
        let f3: Face = (elem1, elem2, elem3);
        proof {
            assert(all[4 * e] == f0);
            assert(all[4 * e + 1] == f1);
            assert(all[4 * e + 2] == f2);
            assert(all[4 * e + 3] == f3);
            assert(all.take(4 * e).push(f0) =~= all.take(4 * e + 1));
            assert(all.take(4 * e + 1).push(f1) =~= all.take(4 * e + 2));
            assert(all.take(4 * e + 2).push(f2) =~= all.take(4 * e + 3));
            assert(all.take(4 * e + 3).push(f3) =~= all.take(4 * e + 4));
        }
        toggle_face(&mut face_map, f0, Ghost(all.take(4 * e)));
        toggle_face(&mut face_map, f1, Ghost(all.take(4 * e + 1)));
        toggle_face(&mut face_map, f2, Ghost(all.take(4 * e + 2)));
        toggle_face(&mut face_map, f3, Ghost(all.take(4 * e + 3)));
        e = e + 1;
    }
    proof {
        assert(all.take(4 * e) =~= all);
    }

    let ghost sm = surface_map(all);
    proof {
        assert(face_map@.dom().finite());
        vstd::set_lib::lemma_set_empty_equivalency_len(sm.dom());
    }
    for face in it: face_map.values()
        invariant
            sm == surface_map(all),
            face_map@ == sm,
            sm.dom().len() == 0 ==> forall|k: u128| !sm.contains_key(k),
            it.seq().unref().to_set() == sm.values(),
            it.seq().len() == sm.dom().len(),
            faces_out@.len() == 3 * it.index(),
            forall|t: int| 0 <= t < it.index() ==> #[trigger] triangles(faces_out@)[t] == *it.seq()[t],
            forall|t: int| 0 <= t < it.index() ==> {
                let tri = #[trigger] triangles(faces_out@)[t];
                &&& sm.contains_key(face_key(tri))
                &&& sm[face_key(tri)] == tri
            },
            it.index() == it.seq().len() ==> forall|k: u128| #[trigger] sm.contains_key(k) ==> exists|t: int|
                0 <= t < triangles(faces_out@).len() && #[trigger] triangles(faces_out@)[t] == sm[k],
    {
        let ghost before = faces_out@;
        let ghost i = it.index();
        faces_out.push(face.0);
        faces_out.push(face.1);
        faces_out.push(face.2);
        proof {
            assert(*face == *it.seq()[i]);
            assert forall|t: int| 0 <= t < i + 1 implies #[trigger] triangles(faces_out@)[t] == *it.seq()[t] by {
                if t < i {
                    assert(triangles(before)[t] == triangles(faces_out@)[t]);
                }
            }
            assert forall|t: int| 0 <= t < i + 1 implies {
                let tri = #[trigger] triangles(faces_out@)[t];
                &&& sm.contains_key(face_key(tri))
                &&& sm[face_key(tri)] == tri
            } by {
                let tri = triangles(faces_out@)[t];
                if t < i {
                    assert(triangles(before)[t] == tri);
                } else {
                    assert(it.seq().unref()[t] == tri);
                    assert(it.seq().unref().to_set().contains(tri));
                    assert(sm.values().contains(tri));
                    let k = choose|k: u128| sm.contains_key(k) && sm[k] == tri;
                    lemma_last_with_key(all, k);
                }
            }
            if i + 1 == sm.dom().len() {
                assert forall|k: u128| #[trigger] sm.contains_key(k) implies exists|t: int|
                    0 <= t < triangles(faces_out@).len() && #[trigger] triangles(faces_out@)[t] == sm[k] by {
                    assert(sm.values().contains(sm[k]));
                    assert(it.seq().unref().to_set().contains(sm[k]));
                    let j = choose|j: int| 0 <= j < it.seq().unref().len() && it.seq().unref()[j] == sm[k];
                    assert(triangles(faces_out@)[j] == sm[k]);
                }
            }
        }
    }
    proof {
        let tris = triangles(faces_out@);
        assert forall|t: int| 0 <= t < tris.len() implies node_set_count(all, #[trigger] tris[t]) % 2 == 1
            && tris[t] == last_of_node_set(all, tris[t]) by {
            lemma_key_count_nodes(all, tris[t]);
            assert(sm.contains_key(face_key(tris[t])));
        }
        assert forall|i: int| 0 <= i < all.len() && node_set_count(all, #[trigger] all[i]) % 2 == 1 implies exists|t: int|
            0 <= t < tris.len() && same_nodes(all[i], #[trigger] tris[t]) by {
            let k = face_key(all[i]);
            lemma_key_count_nodes(all, all[i]);
            assert(sm.contains_key(k));
            let t = choose|t: int| 0 <= t < tris.len() && #[trigger] tris[t] == sm[k];
            lemma_last_with_key(all, k);
            lemma_face_key_identifies_nodes(all[i], tris[t]);
        }
    }
    faces_out
}

} // verus!
