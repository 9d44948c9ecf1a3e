use manifold_knn::{KdTree, ManifoldKnn, TetMesh, VertexRegistry};

fn coord(p: [f64; 3]) -> robust::Coord3D<f64> {
    robust::Coord3D { x: p[0], y: p[1], z: p[2] }
}

fn orient(a: [f64; 3], b: [f64; 3], c: [f64; 3], d: [f64; 3]) -> f64 {
    robust::orient3d(coord(a), coord(b), coord(c), coord(d))
}

/// A small incremental triangulation that drives the library's mesh
/// bookkeeping with the robust geometric predicates.
struct Triangulation {
    points: Vec<[f64; 3]>,
    corners: [[f64; 3]; 4],
    mesh: TetMesh,
    tree: KdTree,
}

impl Triangulation {
    fn new(r: f64, center: [f64; 3]) -> Self {
        let [cx, cy, cz] = center;
        let corners = [
            [cx, cy + 3.0 * r, cz],
            [cx - 2.0 * r * 1.732, cy - r, cz - r * 1.414],
            [cx + 2.0 * r * 1.732, cy - r, cz - r * 1.414],
            [cx, cy - r, cz + 3.0 * r * 1.414],
        ];
        let negative = orient(corners[0], corners[1], corners[2], corners[3]) < 0.0;
        Triangulation { points: Vec::new(), corners, mesh: TetMesh::with_enclosing(negative), tree: KdTree::new() }
    }

    fn at(&self, v: usize) -> [f64; 3] {
        if v >= usize::MAX - 3 { self.corners[v - (usize::MAX - 3)] } else { self.points[v] }
    }

    fn nearest(&self, q: [f64; 3]) -> Option<usize> {
        let d = |p: [f64; 3]| (p[0] - q[0]).powi(2) + (p[1] - q[1]).powi(2) + (p[2] - q[2]).powi(2);
        (0..self.points.len() - 1).min_by(|&a, &b| d(self.points[a]).partial_cmp(&d(self.points[b])).unwrap())
    }

    fn insert(&mut self, p: [f64; 3]) -> usize {
        let idx = self.points.len();
        self.points.push(p);
        self.mesh.add_vertex_slot();
        let start = self.mesh.start_cell(self.nearest(p));
        let cell = self.mesh.locate_cell(start, &|f: (usize, usize, usize), opp: usize| {
            let (a, b, c) = (self.at(f.0), self.at(f.1), self.at(f.2));
            orient(a, b, c, p) * orient(a, b, c, self.at(opp)) < 0.0
        });
        let cavity = self.mesh.cavity(cell, &|t: usize| {
            let v = self.mesh.tetrahedra[t].vertices;
            robust::insphere(coord(self.at(v[0])), coord(self.at(v[1])), coord(self.at(v[2])), coord(self.at(v[3])), coord(p))
                > 0.0
        });
        let points = self.points.clone();
        let corners = self.corners;
        let at = |v: usize| if v >= usize::MAX - 3 { corners[v - (usize::MAX - 3)] } else { points[v] };
        self.mesh.insert_vertex(idx, &cavity, &|f: (usize, usize, usize)| orient(at(f.0), at(f.1), at(f.2), p) < 0.0);
        self.tree.insert(idx, &|node: usize, axis: usize| p[axis] < points[node][axis]);
        idx
    }
}

fn points() -> Vec<[f64; 3]> {
    vec![
        [0.0, 0.0, 0.0],
        [1.0, 0.0, 0.0],
        [0.0, 1.0, 0.0],
        [0.0, 0.0, 1.0],
        [1.0, 1.0, 1.0],
        [0.25, 0.35, 0.90],
        [1.25, 0.20, 0.60],
        [0.6, 0.1, 0.3],
        [0.2, 0.8, 0.5],
    ]
}

fn insertion_neighbors(pts: &[[f64; 3]]) -> (Triangulation, Vec<Vec<usize>>) {
    let mut tri = Triangulation::new(100.0, [0.5, 0.5, 0.5]);
    let mut registry = VertexRegistry::new();
    let mut lists = Vec::new();
    for &p in pts {
        let key = tri.insert(p);
        let (_, prior) = registry.record_insertion(key, &tri.mesh, tri.points.len());
        lists.push(prior);
    }
    (tri, lists)
}

#[test]
fn delaunay_insertion_neighbors_are_earlier() {
    let pts = points();
    let (_, lists) = insertion_neighbors(&pts);
    assert_eq!(lists[0], Vec::<usize>::new());
    assert_eq!(lists[1], vec![0]);
    assert_eq!(lists[3], vec![0, 1, 2]);
    for (j, list) in lists.iter().enumerate() {
        assert!(list.iter().all(|&i| i < j));
        assert!(list.windows(2).all(|w| w[0] < w[1]));
    }
}

#[test]
fn delaunay_mesh_links_are_mutual() {
    let (tri, _) = insertion_neighbors(&points());
    let tets = &tri.mesh.tetrahedra;
    for (t, tet) in tets.iter().enumerate() {
        if tet.is_deleted() {
            assert_eq!(tet.neighbors, [None; 4]);
            continue;
        }
        for slot in 0..4 {
            if let Some(n) = tet.neighbors[slot] {
                assert!(!tets[n].is_deleted());
                assert!(tets[n].neighbors.contains(&Some(t)));
                let shared = tet.vertices.iter().filter(|v| tets[n].vertices.contains(v)).count();
                assert_eq!(shared, 3);
            }
        }
    }
}

#[test]
fn delaunay_successor_table_matches_bruteforce() {
    let pts = points();
    let (_, lists) = insertion_neighbors(&pts);
    let index = ManifoldKnn::from_insertion_neighbors(pts, lists).unwrap();
    let queries = [[0.10, 0.10, 0.10], [0.30, 0.30, 0.25], [0.90, 0.90, 0.95], [1.10, 0.25, 0.50]];
    for q in queries {
        let dist = move |p: &[f64; 3]| ((p[0] - q[0]).powi(2) + (p[1] - q[1]).powi(2) + (p[2] - q[2]).powi(2)).to_bits();
        for k in [1, 2, 3, 10] {
            assert_eq!(index.knn(&dist, k).unwrap(), index.brute_force_knn(&dist, k).unwrap(), "query={q:?}, k={k}");
        }
    }
}


#[test]
fn delaunay_neighbors_are_symmetric_and_match_the_edges() {
    let pts = points();
    let (tri, _) = insertion_neighbors(&pts);
    let n = pts.len();
    let active = vec![true; n];
    let edges = tri.mesh.current_edges(n, &active);
    for a in 0..n {
        let na = tri.mesh.incident_neighbors(a, n);
        for b in 0..n {
            let nb = tri.mesh.incident_neighbors(b, n);
            assert_eq!(na.contains(&b), nb.contains(&a), "a={a}, b={b}");
            if a < b {
                assert_eq!(edges.contains(&(a, b)), na.contains(&b), "a={a}, b={b}");
            }
        }
    }
}
