# manifold_knn

Dynamic-programming k-nearest-neighbor queries over birth-ordered point sets,
verified with Verus.

Points are kept in insertion (birth) order. Each point owns a sorted list of
later points, its successors. A query walks these lists from the earliest
active point, always moving to a strictly closer successor (the transition
sites), then expands the successor lists of its best candidates. The answer
of every query is stated exactly (`query::knn_answer`); with a complete
successor table it equals a brute-force scan
(`ManifoldKnn::lemma_knn_matches_brute_force`), and a query below a prefix
gives the same answer as the index of that prefix alone
(`ManifoldKnn::lemma_prefix_query_ignores_later_points`).

## Layout

- `src/` — the verified library:
  - `table.rs`: the successor table (compressed rows) and its operations;
  - `bounded.rs`: neighbors, their rank order and the bounded best-k list;
  - `query.rs`: the mathematical model of a query (transition chain,
    discovered sets) and the exactness theorems;
  - `index.rs`: the index (`ManifoldKnn`), queries, insertion and deletion;
  - `mesh.rs`: tetrahedra, cavity search, point location, re-triangulation
    bookkeeping and the k-d tree of the 3D Delaunay backend; inserting a
    vertex keeps the incidence records exact and, when the cones close up
    around the new vertex, keeps the neighbor links paired;
  - `registry.rs`: birth-order bookkeeping of the Delaunay backend;
  - `sorted.rs`: sorted index sequences and searches.
- `tests/` — tests of the library.
- `app/` — the `f64` front end: coordinate validation, squared distances,
  error messages, and the geometric predicates (via the `robust` crate) that
  drive the verified mesh bookkeeping.

The library never sees a float: a query takes a function from a point to the
ordering key of its squared distance (for example the bit pattern of a
non-negative `f64`), and the Delaunay bookkeeping takes the outcomes of the
geometric tests as closures over indices.
