use oersted::mesh::surface_faces;
use oersted::sources::tet4::face_nodes;

fn sorted_faces(flat: &[u32]) -> Vec<[u32; 3]> {
    let mut faces: Vec<[u32; 3]> = flat.chunks_exact(3).map(|f| [f[0], f[1], f[2]]).collect();
    faces.sort();
    faces
}

#[test]
fn single_tet_is_all_surface() {
    let faces = surface_faces(&[0, 1, 2, 3]);
    assert_eq!(faces.len(), 12);
    // gmsh winding of the four faces
    assert_eq!(sorted_faces(&faces), vec![[0, 1, 3], [0, 2, 1], [0, 3, 2], [1, 2, 3]]);
}

#[test]
fn shared_face_is_internal() {
    // two tets glued on face (1, 2, 3)
    let faces = surface_faces(&[0, 1, 2, 3, 4, 3, 2, 1]);
    assert_eq!(faces.len(), 18);
    let faces = sorted_faces(&faces);
    for f in &faces {
        let mut key = *f;
        key.sort();
        assert_ne!(key, [1, 2, 3]);
    }
    assert_eq!(
        faces,
        vec![[0, 1, 3], [0, 2, 1], [0, 3, 2], [4, 1, 2], [4, 2, 3], [4, 3, 1]]
    );
}

#[test]
fn face_used_three_times_survives_with_last_winding() {
    // the node set {1, 2, 3} appears in three elements; the last occurrence is kept
    let faces = surface_faces(&[0, 1, 2, 3, 4, 3, 2, 1, 5, 1, 2, 3]);
    let faces = sorted_faces(&faces);
    assert!(faces.contains(&[2, 3, 1]) || faces.contains(&[1, 2, 3]) || faces.contains(&[3, 1, 2]));
    let with_key: Vec<&[u32; 3]> = faces
        .iter()
        .filter(|f| {
            let mut k = **f;
            k.sort();
            k == [1, 2, 3]
        })
        .collect();
    assert_eq!(with_key.len(), 1);
    // element 5,1,2,3 has face (elem1, elem2, elem3) = (1, 2, 3)
    assert_eq!(*with_key[0], [1, 2, 3]);
    assert_eq!(faces.len(), 10);
}

#[test]
fn empty_and_partial_connectivity() {
    assert!(surface_faces(&[]).is_empty());
    // a trailing partial element is ignored
    assert!(surface_faces(&[0, 1, 2]).is_empty());
    assert_eq!(surface_faces(&[0, 1, 2, 3, 9]).len(), 12);
}

#[test]
fn tet_face_winding() {
    assert_eq!(face_nodes(0), (0, 2, 1));
    assert_eq!(face_nodes(1), (0, 3, 2));
    assert_eq!(face_nodes(2), (1, 2, 3));
    assert_eq!(face_nodes(3), (0, 1, 3));
}

#[test]
fn tet_faces_close_up() {
    // every directed edge is walked back by another face
    let mut edges = Vec::new();
    for f in 0..4 {
        let (a, b, c) = face_nodes(f);
        edges.push((a, b));
        edges.push((b, c));
        edges.push((c, a));
    }
    for &(a, b) in &edges {
        assert!(edges.contains(&(b, a)));
    }
}
