use manifold_knn::{Error, KdNode, KdTree, TetMesh, Tetrahedron, VertexRegistry};

const R: usize = usize::MAX;

/// Two tetrahedra sharing the face {1, 2, 3}.
fn two_tets() -> TetMesh {
    TetMesh {
        tetrahedra: vec![
            Tetrahedron { vertices: [0, 1, 2, 3], neighbors: [Some(1), None, None, None] },
            Tetrahedron { vertices: [1, 2, 3, 4], neighbors: [None, None, None, Some(0)] },
        ],
        vertex_to_tets: vec![vec![0], vec![0, 1], vec![0, 1], vec![0, 1], vec![1]],
    }
}

#[test]
fn deleted_tetrahedra_have_only_the_largest_vertex() {
    let live = Tetrahedron { vertices: [0, 1, 2, 3], neighbors: [None; 4] };
    let hull = Tetrahedron { vertices: [R, 0, 1, 2], neighbors: [None; 4] };
    let gone = Tetrahedron { vertices: [R, R, R, R], neighbors: [None; 4] };
    assert!(!live.is_deleted());
    assert!(!hull.is_deleted());
    assert!(gone.is_deleted());
}

#[test]
fn incident_neighbors_of_shared_vertices() {
    let mesh = two_tets();
    assert_eq!(mesh.incident_neighbors(0, 5), vec![1, 2, 3]);
    assert_eq!(mesh.incident_neighbors(1, 5), vec![0, 2, 3, 4]);
    assert_eq!(mesh.incident_neighbors(1, 4), vec![0, 2, 3]);
    assert_eq!(mesh.incident_neighbors(9, 5), Vec::<usize>::new());
}

#[test]
fn current_edges_between_active_vertices() {
    let mesh = two_tets();
    let all = vec![true; 5];
    assert_eq!(
        mesh.current_edges(5, &all),
        vec![(0, 1), (0, 2), (0, 3), (1, 2), (1, 3), (1, 4), (2, 3), (2, 4), (3, 4)]
    );
    let without_two = vec![true, true, false, true, true];
    assert_eq!(mesh.current_edges(5, &without_two), vec![(0, 1), (0, 3), (1, 3), (1, 4), (3, 4)]);
    assert_eq!(mesh.current_edges(4, &all), vec![(0, 1), (0, 2), (0, 3), (1, 2), (1, 3), (2, 3)]);
    let short = vec![true, true];
    assert_eq!(mesh.current_edges(5, &short), vec![(0, 1)]);
}

#[test]
fn cavity_is_the_accepted_component_of_the_start() {
    let mesh = two_tets();
    assert_eq!(mesh.cavity(0, &|_t: usize| true), vec![0, 1]);
    assert_eq!(mesh.cavity(1, &|_t: usize| true), vec![1, 0]);
    assert_eq!(mesh.cavity(0, &|t: usize| t == 1), Vec::<usize>::new());
    assert_eq!(mesh.cavity(1, &|t: usize| t == 1), vec![1]);
}

#[test]
fn boundary_faces_of_cavities() {
    let mesh = two_tets();
    assert_eq!(mesh.boundary_faces(&vec![0]), vec![(0, 0), (0, 1), (0, 2), (0, 3)]);
    assert_eq!(
        mesh.boundary_faces(&vec![0, 1]),
        vec![(0, 1), (0, 2), (0, 3), (1, 0), (1, 1), (1, 2)]
    );
}

#[test]
fn faces_follow_the_orientation_table() {
    let v = [10, 11, 12, 13];
    assert_eq!(manifold_knn::mesh::face_vertices(&v, 0), (11, 12, 13));
    assert_eq!(manifold_knn::mesh::face_vertices(&v, 1), (10, 13, 12));
    assert_eq!(manifold_knn::mesh::face_vertices(&v, 2), (10, 11, 13));
    assert_eq!(manifold_knn::mesh::face_vertices(&v, 3), (10, 12, 11));
}

#[test]
fn locate_cell_walks_through_crossed_faces() {
    let mesh = two_tets();
    assert_eq!(mesh.locate_cell(0, &|_f: (usize, usize, usize), opp: usize| opp == 0), 1);
    assert_eq!(mesh.locate_cell(0, &|_f: (usize, usize, usize), _opp: usize| true), 1);
    assert_eq!(mesh.locate_cell(0, &|_f: (usize, usize, usize), _opp: usize| false), 0);
    assert_eq!(mesh.locate_cell(1, &|_f: (usize, usize, usize), opp: usize| opp == 4), 0);
}

#[test]
fn first_vertex_replaces_the_enclosing_tetrahedron() {
    let mut mesh = TetMesh::with_enclosing(false);
    assert_eq!(mesh.tetrahedra[0].vertices, [R - 3, R - 2, R - 1, R]);
    assert_eq!(TetMesh::with_enclosing(true).tetrahedra[0].vertices, [R - 2, R - 3, R - 1, R]);
    mesh.add_vertex_slot();
    assert_eq!(mesh.start_cell(None), 0);
    let cavity = mesh.cavity(0, &|_t: usize| true);
    assert_eq!(cavity, vec![0]);
    mesh.insert_vertex(0, &cavity, &|_f: (usize, usize, usize)| false);
    assert_eq!(mesh.tetrahedra.len(), 5);
    assert!(mesh.tetrahedra[0].is_deleted());
    assert_eq!(mesh.tetrahedra[0].neighbors, [None; 4]);
    let (u, v, w, z) = (R - 3, R - 2, R - 1, R);
    assert_eq!(mesh.tetrahedra[1].vertices, [v, w, z, 0]);
    assert_eq!(mesh.tetrahedra[2].vertices, [u, z, w, 0]);
    assert_eq!(mesh.tetrahedra[3].vertices, [u, v, z, 0]);
    assert_eq!(mesh.tetrahedra[4].vertices, [u, w, v, 0]);
    for t in 1..5 {
        let n = mesh.tetrahedra[t].neighbors;
        assert_eq!(n[3], None);
        for slot in 0..3 {
            let other = n[slot].unwrap();
            assert!((1..5).contains(&other) && other != t);
            assert!(mesh.tetrahedra[other].neighbors.contains(&Some(t)));
        }
    }
    assert_eq!(mesh.vertex_to_tets, vec![vec![1, 2, 3, 4]]);
    assert_eq!(mesh.incident_neighbors(0, 1), Vec::<usize>::new());
    assert_eq!(mesh.start_cell(Some(0)), 1);
}

#[test]
fn negative_faces_swap_their_first_two_vertices() {
    let mut mesh = TetMesh::with_enclosing(false);
    mesh.add_vertex_slot();
    mesh.insert_vertex(0, &vec![0], &|f: (usize, usize, usize)| f.0 == usize::MAX - 2);
    let (u, v, w, z) = (R - 3, R - 2, R - 1, R);
    assert_eq!(mesh.tetrahedra[1].vertices, [w, v, z, 0]);
    assert_eq!(mesh.tetrahedra[2].vertices, [u, z, w, 0]);
}

#[test]
fn start_cell_skips_deleted_tetrahedra() {
    let mut mesh = two_tets();
    mesh.tetrahedra[0].vertices = [R, R, R, R];
    mesh.tetrahedra[0].neighbors = [None; 4];
    mesh.tetrahedra[1].neighbors = [None; 4];
    assert_eq!(mesh.start_cell(Some(1)), 1);
    assert_eq!(mesh.start_cell(Some(0)), 0);
}

#[test]
fn kd_tree_insertion_follows_the_comparisons() {
    let mut tree = KdTree::new();
    tree.insert(10, &|_p: usize, _axis: usize| true);
    assert_eq!(tree.root, Some(0));
    tree.insert(11, &|_p: usize, _axis: usize| true);
    tree.insert(12, &|_p: usize, _axis: usize| false);
    // Left of node 0, then right of node 1, which compares on axis 1.
    tree.insert(13, &|p: usize, axis: usize| p == 10 || axis == 0);
    let shape: Vec<(usize, Option<usize>, Option<usize>)> =
        tree.nodes.iter().map(|n: &KdNode| (n.point_idx, n.left, n.right)).collect();
    assert_eq!(
        shape,
        vec![(10, Some(1), Some(2)), (11, None, Some(3)), (12, None, None), (13, None, None)]
    );
}

#[test]
fn registry_records_insertions_and_deletions() {
    let mesh = two_tets();
    let mut registry = VertexRegistry::new();
    assert!(registry.is_empty());
    for key in 0..5 {
        let (birth, prior) = registry.record_insertion(key, &mesh, 5);
        assert_eq!(birth, key);
        let expected: Vec<usize> = match key {
            0 => vec![],
            1 => vec![0],
            2 => vec![0, 1],
            3 => vec![0, 1, 2],
            _ => vec![1, 2, 3],
        };
        assert_eq!(prior, expected);
    }
    assert_eq!(registry.len(), 5);
    assert_eq!(registry.active_len(), 5);
    assert_eq!(registry.vertex_key(2), Some(2));
    assert_eq!(registry.deactivate(2), Ok(2));
    assert_eq!(registry.deactivate(2), Err(Error::InactivePoint { index: 2 }));
    assert_eq!(registry.deactivate(9), Err(Error::InvalidIndex { index: 9, len: 5 }));
    assert_eq!(registry.vertex_key(2), None);
    assert!(!registry.is_active(2));
    assert_eq!(registry.active_len(), 4);
    assert_eq!(registry.ensure_active_key(3), Ok(3));
    assert_eq!(registry.ensure_active_key(2), Err(Error::InactivePoint { index: 2 }));
    assert_eq!(registry.neighbors(&mesh, 5, 1), Ok(vec![0, 3, 4]));
    assert_eq!(registry.neighbors(&mesh, 5, 7), Err(Error::InvalidIndex { index: 7, len: 5 }));
    assert_eq!(registry.current_edges(&mesh, 5), vec![(0, 1), (0, 3), (1, 3), (1, 4), (3, 4)]);
}

#[test]
fn early_insertions_list_every_earlier_point() {
    let mesh = TetMesh::with_enclosing(false);
    let mut registry = VertexRegistry::new();
    registry.record_insertion(0, &mesh, 0);
    registry.record_insertion(1, &mesh, 0);
    let (birth, prior) = registry.record_insertion(2, &mesh, 0);
    assert_eq!(birth, 2);
    assert_eq!(prior, vec![0, 1]);
    registry.record_insertion(3, &mesh, 0);
    let (birth, prior) = registry.record_insertion(4, &mesh, 0);
    assert_eq!(birth, 4);
    assert_eq!(prior, Vec::<usize>::new());
}

#[test]
fn outside_tetrahedra_are_relinked_to_the_cones() {
    let mut mesh = two_tets();
    mesh.add_vertex_slot();
    mesh.insert_vertex(5, &vec![0], &|_f: (usize, usize, usize)| false);
    // Tetrahedron 0 is cleared; the cone over its face 0 (index 2) now sits
    // between tetrahedron 1 and the new vertex.
    assert!(mesh.tetrahedra[0].is_deleted());
    assert_eq!(mesh.tetrahedra[0].neighbors, [None; 4]);
    assert_eq!(mesh.tetrahedra.len(), 6);
    assert_eq!(mesh.tetrahedra[1].neighbors, [None, None, None, Some(2)]);
    assert_eq!(mesh.tetrahedra[2].neighbors[3], Some(1));
    assert_eq!(mesh.tetrahedra[2].vertices[3], 5);
    assert!(!mesh.tetrahedra[2].is_deleted());
}

#[test]
fn kd_tree_insertion_accepts_any_acyclic_tree() {
    // The root comes after its child in the node vector.
    let mut tree = KdTree {
        nodes: vec![
            KdNode { point_idx: 5, left: None, right: None },
            KdNode { point_idx: 7, left: Some(0), right: None },
        ],
        root: Some(1),
    };
    tree.insert(9, &|_node: usize, _axis: usize| true);
    assert_eq!(tree.nodes.len(), 3);
    assert_eq!(tree.root, Some(1));
    assert_eq!(tree.nodes[0].left, Some(2));
    assert_eq!(tree.nodes[2].point_idx, 9);
}
