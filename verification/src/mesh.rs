//! Combinatorial side of the incremental 3D Delaunay backend: tetrahedra and
//! their adjacency, and the k-d tree used to find a starting cell.
//!
//! Geometric decisions (orientation and in-sphere tests on coordinates) are
//! made by the caller and handed in as closures over indices; everything here
//! works on indices only.
use vstd::prelude::*;

use crate::sorted::{
    edges_increasing, lemma_contains_push, lemma_distinct_below, sorted_edge_set, sorted_set,
    strictly_increasing,
};

verus! {

/// Tetrahedron of the triangulation.
#[derive(Clone, Copy, Debug)]
pub struct Tetrahedron {
    /// The indices of the 4 vertices forming the tetrahedron.
    pub vertices: [usize; 4],
    /// The indices of the 4 neighbor tetrahedra opposite to each vertex, if any.
    pub neighbors: [Option<usize>; 4],
}

impl Tetrahedron {
    /// A deleted tetrahedron has `usize::MAX` for all four vertices; a live
    /// tetrahedron never does, since its vertices are distinct.
    pub open spec fn deleted(&self) -> bool {
        &&& self.vertices[0] == usize::MAX
        &&& self.vertices[1] == usize::MAX
        &&& self.vertices[2] == usize::MAX
        &&& self.vertices[3] == usize::MAX
    }

    /// Returns `true` if this tetrahedron has been deleted.
    pub fn is_deleted(&self) -> (r: bool)
        ensures
            r == self.deleted(),
    {
        self.vertices[0] == usize::MAX && self.vertices[1] == usize::MAX && self.vertices[2] == usize::MAX
            && self.vertices[3] == usize::MAX
    }
}

/// k-d tree node for nearest-vertex point location.
#[derive(Clone, Copy, Debug)]
pub struct KdNode {
    /// The point index in the triangulation.
    pub point_idx: usize,
    /// Left child index.
    pub left: Option<usize>,
    /// Right child index.
    pub right: Option<usize>,
}

/// The child of `n` on the left (`true`) or right (`false`) side.
pub open spec fn kd_child(n: KdNode, left: bool) -> Option<usize> {
    if left {
        n.left
    } else {
        n.right
    }
}

/// `n` with its child slot on the given side set to `c`.
pub open spec fn kd_attach(n: KdNode, left: bool, c: usize) -> KdNode {
    if left {
        KdNode { left: Some(c), ..n }
    } else {
        KdNode { right: Some(c), ..n }
    }
}

/// A child link of node `i` names a node of `nodes` of lower rank.
pub open spec fn kd_link_ranked(c: Option<usize>, i: int, nodes: Seq<KdNode>, rank: Seq<nat>) -> bool {
    c matches Some(j) ==> j < nodes.len() && rank[j as int] < rank[i]
}

/// `rank` gives every node of `nodes` a rank above the ranks of its
/// children, so that no descent through child links returns to a node.
pub open spec fn kd_ranked(nodes: Seq<KdNode>, rank: Seq<nat>) -> bool {
    &&& rank.len() == nodes.len()
    &&& forall|i: int|
        0 <= i < nodes.len() ==> kd_link_ranked((#[trigger] nodes[i]).left, i, nodes, rank) && kd_link_ranked(
            nodes[i].right,
            i,
            nodes,
            rank,
        )
}

/// Incremental 3D k-d tree, stored as a vector of nodes.
#[derive(Clone, Debug)]
pub struct KdTree {
    /// The nodes in the k-d tree.
    pub nodes: Vec<KdNode>,
    /// The root node index, if any.
    pub root: Option<usize>,
}

/// `path` walks down `nodes` from `root`: at step `t` it turns left exactly
/// when `goes_left` answers so for the node's point and the axis `t % 3`, and
/// the walk ends at a node whose child slot on the chosen side is empty.
pub open spec fn kd_descent<F: Fn(usize, usize) -> bool>(
    nodes: Seq<KdNode>,
    root: usize,
    goes_left: &F,
    path: Seq<usize>,
    dirs: Seq<bool>,
) -> bool {
    &&& path.len() >= 1
    &&& dirs.len() == path.len()
    &&& path[0] == root
    &&& forall|t: int| 0 <= t < path.len() ==> #[trigger] path[t] < nodes.len()
    &&& forall|t: int|
        0 <= t < path.len() ==> call_ensures(
            *goes_left,
            (nodes[#[trigger] path[t] as int].point_idx, (t % 3) as usize),
            dirs[t],
        )
    &&& forall|t: int|
        0 <= t < path.len() - 1 ==> kd_child(nodes[path[t] as int], dirs[t]) == Some(
            #[trigger] path[t + 1],
        )
    &&& kd_child(nodes[path.last() as int], dirs.last()) is None
}

/// `after` is `before` with a leaf for `point_idx` appended and attached
/// where the descent `path`, `dirs` ends.
pub open spec fn kd_inserted<F: Fn(usize, usize) -> bool>(
    before: Seq<KdNode>,
    root: usize,
    goes_left: &F,
    path: Seq<usize>,
    dirs: Seq<bool>,
    after: Seq<KdNode>,
    point_idx: usize,
) -> bool {
    &&& kd_descent(before, root, goes_left, path, dirs)
    &&& after == before.update(
        path.last() as int,
        kd_attach(before[path.last() as int], dirs.last(), before.len() as usize),
    ).push(KdNode { point_idx, left: None, right: None })
}

/// `path` is a walk down `nodes` from `root`, turning left at step `t`
/// exactly when `dirs[t]` holds.
pub open spec fn kd_root_path(nodes: Seq<KdNode>, root: usize, path: Seq<usize>, dirs: Seq<bool>) -> bool {
    &&& path.len() >= 1
    &&& dirs.len() + 1 == path.len()
    &&& path[0] == root
    &&& forall|t: int| 0 <= t < path.len() ==> #[trigger] path[t] < nodes.len()
    &&& forall|t: int|
        #![trigger dirs[t]]
        0 <= t < dirs.len() ==> (if dirs[t] {
            nodes[path[t] as int].left
        } else {
            nodes[path[t] as int].right
        }) == Some(path[t + 1])
}

/// Every node is split on the axis of its depth: for every walk down from
/// the root, the point where the walk ends lies below the point of the node
/// at each depth `t` on axis `t % 3` exactly when the walk turned left there.
pub open spec fn kd_split(nodes: Seq<KdNode>, root: usize, below: spec_fn(usize, usize, int) -> bool) -> bool {
    forall|path: Seq<usize>, dirs: Seq<bool>, t: int|
        #![trigger kd_root_path(nodes, root, path, dirs), dirs[t]]
        kd_root_path(nodes, root, path, dirs) && 0 <= t < dirs.len() ==> below(
            nodes[path[path.len() - 1] as int].point_idx,
            nodes[path[t] as int].point_idx,
            t % 3,
        ) == dirs[t]
}

/// Each node is the child of at most one node, through one side, and the
/// root is nobody's child; every child is a node.
pub open spec fn kd_tree_shaped(nodes: Seq<KdNode>, root: usize) -> bool {
    &&& root < nodes.len()
    &&& forall|i: int, s: bool|
        0 <= i < nodes.len() ==> (#[trigger] kd_child(nodes[i], s) matches Some(c) ==> c < nodes.len() && c != root)
    &&& forall|i: int, s: bool, j: int, s2: bool|
        #![trigger kd_child(nodes[i], s), kd_child(nodes[j], s2)]
        0 <= i < nodes.len() && 0 <= j < nodes.len() && kd_child(nodes[i], s) is Some && kd_child(nodes[i], s)
            == kd_child(nodes[j], s2) ==> i == j && s == s2
}

/// In a tree-shaped node set, a walk down from the root to a node is the
/// only one.
proof fn lemma_kd_root_path_unique(
    nodes: Seq<KdNode>,
    root: usize,
    p: Seq<usize>,
    d: Seq<bool>,
    q: Seq<usize>,
    e: Seq<bool>,
)
    requires
        kd_tree_shaped(nodes, root),
        kd_root_path(nodes, root, p, d),
        kd_root_path(nodes, root, q, e),
        p[p.len() - 1] == q[q.len() - 1],
    ensures
        p == q,
        d == e,
    decreases p.len(),
{
    let k = p.len() - 1;
    let j = q.len() - 1;
    if k == 0 || j == 0 {
        if k > 0 {
            assert(kd_child(nodes[p[k - 1] as int], d[k - 1]) == Some(p[k]));
        }
        if j > 0 {
            assert(kd_child(nodes[q[j - 1] as int], e[j - 1]) == Some(q[j]));
        }
        assert(p =~= q);
        assert(d =~= e);
    } else {
        assert(kd_child(nodes[p[k - 1] as int], d[k - 1]) == Some(p[k]));
        assert(kd_child(nodes[q[j - 1] as int], e[j - 1]) == Some(q[j]));
        assert(p[k - 1] == q[j - 1] && d[k - 1] == e[j - 1]);
        let p2 = p.take(k);
        let d2 = d.take(k - 1);
        let q2 = q.take(j);
        let e2 = e.take(j - 1);
        assert(kd_root_path(nodes, root, p2, d2)) by {
            assert forall|t: int|
            #![trigger d2[t]]
            0 <= t < d2.len() implies (if d2[t] {
                nodes[p2[t] as int].left
            } else {
                nodes[p2[t] as int].right
            }) == Some(p2[t + 1]) by {
                assert(p2[t + 1] == p[t + 1]);
            }
        }
        assert(kd_root_path(nodes, root, q2, e2)) by {
            assert forall|t: int|
            #![trigger e2[t]]
            0 <= t < e2.len() implies (if e2[t] {
                nodes[q2[t] as int].left
            } else {
                nodes[q2[t] as int].right
            }) == Some(q2[t + 1]) by {
                assert(q2[t + 1] == q[t + 1]);
            }
        }
        lemma_kd_root_path_unique(nodes, root, p2, d2, q2, e2);
        assert(p =~= p2.push(p[k]));
        assert(q =~= q2.push(q[j]));
        assert(d =~= d2.push(d[k - 1]));
        assert(e =~= e2.push(e[j - 1]));
    }
}

/// A k-d insertion whose comparisons agree with `below` keeps every node
/// split on the axis of its depth: when the new point descends past a node
/// at depth `t`, it turns left exactly when it lies below that node's point
/// on axis `t % 3`.
pub proof fn lemma_kd_insert_keeps_split<F: Fn(usize, usize) -> bool>(
    before: Seq<KdNode>,
    root: usize,
    goes_left: &F,
    path: Seq<usize>,
    dirs: Seq<bool>,
    after: Seq<KdNode>,
    point_idx: usize,
    below: spec_fn(usize, usize, int) -> bool,
)
    requires
        kd_inserted(before, root, goes_left, path, dirs, after, point_idx),
        before.len() < usize::MAX,
        kd_tree_shaped(before, root),
        kd_split(before, root, below),
        forall|node_point: usize, axis: usize, ans: bool|
            #![trigger call_ensures(*goes_left, (node_point, axis), ans)]
            axis < 3 && call_ensures(*goes_left, (node_point, axis), ans) ==> ans == below(point_idx, node_point, axis as int),
    ensures
        kd_tree_shaped(after, root),
        kd_split(after, root, below),
{
    let n = before.len() as int;
    let l = path[path.len() - 1] as int;
    let dl = dirs[dirs.len() - 1];
    assert(after.len() == n + 1);
    assert(after[n] == KdNode { point_idx, left: None, right: None });
    assert forall|i: int| 0 <= i < n && i != l implies #[trigger] after[i] == before[i] by {}
    assert(kd_child(before[l], dl) is None);
    assert(after[l].point_idx == before[l].point_idx);
    assert(kd_child(after[l], dl) == Some(n as usize));
    assert(kd_child(after[l], !dl) == kd_child(before[l], !dl));
    // The new node is a leaf, and the only link to it is the new one.
    assert forall|i: int, s: bool| 0 <= i < after.len() implies (#[trigger] kd_child(after[i], s) matches Some(c) ==> c
        < after.len() && c != root) by {
        if i < n && !(i == l && s == dl) {
            assert(kd_child(after[i], s) == kd_child(before[i], s));
        }
    }
    assert forall|i: int, s: bool, j: int, s2: bool|
        #![trigger kd_child(after[i], s), kd_child(after[j], s2)]
        0 <= i < after.len() && 0 <= j < after.len() && kd_child(after[i], s) is Some && kd_child(after[i], s)
            == kd_child(after[j], s2) implies i == j && s == s2 by {
        if i < n && !(i == l && s == dl) {
            assert(kd_child(after[i], s) == kd_child(before[i], s));
        }
        if j < n && !(j == l && s2 == dl) {
            assert(kd_child(after[j], s2) == kd_child(before[j], s2));
        }
    }
    assert(kd_tree_shaped(after, root));
    // The descent is a walk down `before` from the root.
    let pd = dirs.take(dirs.len() - 1);
    assert(kd_root_path(before, root, path, pd)) by {
        assert forall|t: int|
            #![trigger pd[t]]
            0 <= t < pd.len() implies (if pd[t] {
            before[path[t] as int].left
        } else {
            before[path[t] as int].right
        }) == Some(path[t + 1]) by {
            assert(kd_child(before[path[t] as int], dirs[t]) == Some(path[t + 1]));
        }
    }
    assert forall|p: Seq<usize>, d: Seq<bool>, t: int|
        #![trigger kd_root_path(after, root, p, d), d[t]]
        kd_root_path(after, root, p, d) && 0 <= t < d.len() implies below(
            after[p[p.len() - 1] as int].point_idx,
            after[p[t] as int].point_idx,
            t % 3,
        ) == d[t] by {
        let k = p.len() - 1;
        // Every node of the walk but the last has a child, so only the last can be the new leaf.
        assert forall|x: int| 0 <= x < k implies #[trigger] p[x] < n by {
            assert(kd_child(after[p[x] as int], d[x]) == Some(p[x + 1]));
        }
        if p[k] < n {
            assert(kd_root_path(before, root, p, d)) by {
                assert forall|x: int|
            #![trigger d[x]]
            0 <= x < d.len() implies (if d[x] {
                    before[p[x] as int].left
                } else {
                    before[p[x] as int].right
                }) == Some(p[x + 1]) by {
                    assert(kd_child(after[p[x] as int], d[x]) == Some(p[x + 1]));
                    if p[x] == l && d[x] == dl {
                        assert(p[x + 1] == n);
                    }
                    assert(kd_child(after[p[x] as int], d[x]) == kd_child(before[p[x] as int], d[x]));
                }
            }
            assert(below(before[p[k] as int].point_idx, before[p[t] as int].point_idx, t % 3) == d[t]);
            assert(after[p[k] as int] == before[p[k] as int] || p[k] == l);
            assert(after[p[t] as int].point_idx == before[p[t] as int].point_idx) by {
                if p[t] != l {
                    assert(after[p[t] as int] == before[p[t] as int]);
                }
            }
            assert(after[p[k] as int].point_idx == before[p[k] as int].point_idx) by {
                if p[k] != l {
                    assert(after[p[k] as int] == before[p[k] as int]);
                }
            }
        } else {
            assert(p[k] == n);
            assert(k > 0);
            // The walk reaches the new leaf through its only link.
            assert(kd_child(after[p[k - 1] as int], d[k - 1]) == Some(p[k]));
            assert(p[k - 1] == l && d[k - 1] == dl) by {
                if !(p[k - 1] == l && d[k - 1] == dl) {
                    assert(kd_child(after[p[k - 1] as int], d[k - 1]) == kd_child(before[p[k - 1] as int], d[k - 1]));
                }
            }
            let p2 = p.take(k);
            let d2 = d.take(k - 1);
            assert(kd_root_path(before, root, p2, d2)) by {
                assert forall|x: int|
            #![trigger d2[x]]
            0 <= x < d2.len() implies (if d2[x] {
                    before[p2[x] as int].left
                } else {
                    before[p2[x] as int].right
                }) == Some(p2[x + 1]) by {
                    assert(p2[x + 1] == p[x + 1] && p2[x] == p[x] && d2[x] == d[x]);
                    assert(kd_child(after[p[x] as int], d[x]) == Some(p[x + 1]));
                    assert(p[x + 1] < n);
                    if p[x] == l && d[x] == dl {
                        assert(p[x + 1] == n);
                    }
                    assert(kd_child(after[p[x] as int], d[x]) == kd_child(before[p[x] as int], d[x]));
                }
            }
            lemma_kd_root_path_unique(before, root, p2, d2, path, pd);
            assert(p[t] == path[t]);
            assert(d[t] == dirs[t]) by {
                if t < k - 1 {
                    assert(d2[t] == pd[t]);
                }
            }
            assert(call_ensures(*goes_left, (before[path[t] as int].point_idx, (t % 3) as usize), dirs[t]));
            assert(after[p[t] as int].point_idx == before[p[t] as int].point_idx) by {
                if p[t] != l {
                    assert(after[p[t] as int] == before[p[t] as int]);
                }
            }
        }
    }
}

impl KdTree {
    /// The root is a node of the tree, every child link names a node, and
    /// the child links have no cycle.
    pub open spec fn wf(&self) -> bool {
        &&& (self.root matches Some(r) ==> r < self.nodes@.len())
        &&& exists|rank: Seq<nat>| #[trigger] kd_ranked(self.nodes@, rank)
    }

    /// Creates an empty tree.
    pub fn new() -> (t: Self)
        ensures
            t.wf(),
            t.nodes@.len() == 0,
            t.root is None,
    {
        let t = KdTree { nodes: Vec::new(), root: None };
        proof {
            assert(kd_ranked(t.nodes@, Seq::<nat>::empty()));
        }
        t
    }

    /// Inserts the point `point_idx` as a new leaf.
    ///
    /// From the root, the new point descends to the left of a node exactly when
    /// `goes_left(node_point, axis)` says that the new point lies below the
    /// node's point on `axis`, the axes cycling with depth; the new node takes
    /// the empty child slot where the descent ends. An empty tree gets the new
    /// node as its root.
    pub fn insert<F: Fn(usize, usize) -> bool>(&mut self, point_idx: usize, goes_left: &F)
        requires
            old(self).wf(),
            old(self).nodes@.len() < usize::MAX,
            forall|p: usize, axis: usize| axis < 3 ==> call_requires(*goes_left, (p, axis)),
        ensures
            final(self).wf(),
            final(self).nodes@.len() == old(self).nodes@.len() + 1,
            final(self).nodes@.last() == (KdNode { point_idx, left: None, right: None }),
            old(self).root is None ==> final(self).root == Some(old(self).nodes@.len() as usize)
                && final(self).nodes@ == old(self).nodes@.push(
                KdNode { point_idx, left: None, right: None },
            ),
            old(self).root is Some ==> final(self).root == old(self).root,
            old(self).root matches Some(r) ==> exists|path: Seq<usize>, dirs: Seq<bool>|
                #[trigger] kd_inserted(old(self).nodes@, r, goes_left, path, dirs, final(self).nodes@, point_idx),
            old(self).root matches Some(r) ==> exists|path: Seq<usize>, dirs: Seq<bool>|
                #![trigger path[0], dirs[0]]
                {
                    &&& path.len() >= 1
                    &&& dirs.len() == path.len()
                    &&& path[0] == r
                    &&& forall|t: int|
                        0 <= t < path.len() ==> #[trigger] path[t] < old(self).nodes@.len() && call_ensures(
                            *goes_left,
                            (old(self).nodes@[path[t] as int].point_idx, (t % 3) as usize),
                            dirs[t],
                        )
                    &&& forall|t: int|
                        0 <= t < path.len() - 1 ==> (if dirs[t] {
                            old(self).nodes@[path[t] as int].left
                        } else {
                            old(self).nodes@[path[t] as int].right
                        }) == Some(#[trigger] path[t + 1])
                    &&& (if dirs[dirs.len() - 1] {
                        final(self).nodes@[path[path.len() - 1] as int].left
                    } else {
                        final(self).nodes@[path[path.len() - 1] as int].right
                    }) == Some(old(self).nodes@.len() as usize)
                },
    {
        let ghost old_nodes = self.nodes@;
        let ghost rank = choose|rank: Seq<nat>| #[trigger] kd_ranked(old_nodes, rank);
        let new_node_idx = self.nodes.len();
        let leaf = KdNode { point_idx, left: None, right: None };
        self.nodes.push(leaf);
        let ghost rank2 = Seq::new((new_node_idx + 1) as nat, |i: int| if i < new_node_idx { rank[i] + 1 } else { 0nat });
        let root = match self.root {
            None => {
                self.root = Some(new_node_idx);
                proof {
                    assert(kd_ranked(self.nodes@, rank2)) by {
                        assert forall|i: int| 0 <= i < self.nodes@.len() implies kd_link_ranked(
                            (#[trigger] self.nodes@[i]).left,
                            i,
                            self.nodes@,
                            rank2,
                        ) && kd_link_ranked(self.nodes@[i].right, i, self.nodes@, rank2) by {
                            if i < new_node_idx {
                                assert(self.nodes@[i] == old_nodes[i]);
                            }
                        }
                    }
                }
                return;
            },
            Some(r) => r,
        };
        let mut curr = root;
        let mut depth: usize = 0;
        let mut go_left = false;
        let ghost mut path: Seq<usize> = seq![root];
        let ghost mut dirs: Seq<bool> = Seq::empty();
        loop
            invariant_except_break
                path.len() == depth + 1,
                dirs.len() == depth,
                path.last() == curr,
            invariant
                self.nodes@ == old_nodes.push(leaf),
                old_nodes == old(self).nodes@,
                self.root == Some(root),
                new_node_idx == old_nodes.len(),
                new_node_idx < usize::MAX,
                root < old_nodes.len(),
                kd_ranked(old_nodes, rank),
                forall|p: usize, axis: usize| axis < 3 ==> call_requires(*goes_left, (p, axis)),
                curr < old_nodes.len(),
                path[0] == root,
                forall|t: int| 0 <= t < path.len() ==> #[trigger] path[t] < old_nodes.len(),
                forall|t: int, t2: int| 0 <= t < t2 < path.len() ==> rank[#[trigger] path[t2] as int] < rank[#[trigger] path[t] as int],
                forall|t: int|
                    0 <= t < dirs.len() ==> call_ensures(
                        *goes_left,
                        (old_nodes[#[trigger] path[t] as int].point_idx, (t % 3) as usize),
                        dirs[t],
                    ),
                forall|t: int|
                    0 <= t < path.len() - 1 ==> kd_child(old_nodes[path[t] as int], dirs[t]) == Some(
                        #[trigger] path[t + 1],
                    ),
            ensures
                kd_descent(old_nodes, root, goes_left, path, dirs),
                path.last() == curr,
                dirs.last() == go_left,
            decreases rank[curr as int],
        {
            let node = self.nodes[curr];
            let axis = depth % 3;
            let left = goes_left(node.point_idx, axis);
            proof {
                assert(old_nodes[curr as int] == node);
                assert(path[depth as int] == curr);
            }
            let next = if left {
                node.left
            } else {
                node.right
            };
            match next {
                Some(c) => {
                    proof {
                        assert(kd_link_ranked(old_nodes[curr as int].left, curr as int, old_nodes, rank));
                        assert(kd_link_ranked(old_nodes[curr as int].right, curr as int, old_nodes, rank));
                        let p0 = path;
                        path = path.push(c);
                        dirs = dirs.push(left);
                        assert forall|t: int, t2: int| 0 <= t < t2 < path.len() implies rank[#[trigger] path[t2] as int]
                            < rank[#[trigger] path[t] as int] by {
                            if t2 == path.len() - 1 && t < t2 - 1 {
                                assert(rank[p0[t2 - 1] as int] < rank[p0[t] as int]);
                            }
                        }
                        assert(path.no_duplicates()) by {
                            assert forall|a: int, b2: int| 0 <= a < path.len() && 0 <= b2 < path.len() && a != b2 implies path[a] != path[b2] by {
                                if a < b2 {
                                    assert(rank[path[b2] as int] < rank[path[a] as int]);
                                } else {
                                    assert(rank[path[a] as int] < rank[path[b2] as int]);
                                }
                            }
                        }
                        crate::sorted::lemma_distinct_below(path, old_nodes.len());
                    }
                    curr = c;
                    depth += 1;
                },
                None => {
                    go_left = left;
                    proof {
                        dirs = dirs.push(left);
                    }
                    break;
                },
            }
        }
        let node = self.nodes[curr];
        let updated = if go_left {
            KdNode { left: Some(new_node_idx), ..node }
        } else {
            KdNode { right: Some(new_node_idx), ..node }
        };
        self.nodes.set(curr, updated);
        proof {
            assert(self.nodes@ =~= old_nodes.update(curr as int, updated).push(leaf));
            assert(kd_inserted(old_nodes, root, goes_left, path, dirs, self.nodes@, point_idx));
            assert(path[0] == root && dirs.len() >= 1);
            assert forall|t: int| 0 <= t < path.len() - 1 implies (if dirs[t] {
                old_nodes[path[t] as int].left
            } else {
                old_nodes[path[t] as int].right
            }) == Some(#[trigger] path[t + 1]) by {
                assert(kd_child(old_nodes[path[t] as int], dirs[t]) == Some(path[t + 1]));
            }
            assert((if dirs[dirs.len() - 1] {
                self.nodes@[path[path.len() - 1] as int].left
            } else {
                self.nodes@[path[path.len() - 1] as int].right
            }) == Some(old_nodes.len() as usize));
            assert(kd_ranked(self.nodes@, rank2)) by {
                assert forall|i: int| 0 <= i < self.nodes@.len() implies kd_link_ranked(
                    (#[trigger] self.nodes@[i]).left,
                    i,
                    self.nodes@,
                    rank2,
                ) && kd_link_ranked(self.nodes@[i].right, i, self.nodes@, rank2) by {
                    if i < new_node_idx {
                        assert(kd_link_ranked(old_nodes[i].left, i, old_nodes, rank));
                        assert(kd_link_ranked(old_nodes[i].right, i, old_nodes, rank));
                    }
                }
            }
        }
    }
}


/// `y` is one of the vertices of `t`.
pub open spec fn tet_has_vertex(t: Tetrahedron, y: usize) -> bool {
    t.vertices@.contains(y)
}

/// Tetrahedra with their adjacency, and for each vertex the tetrahedra that use it.
#[derive(Clone, Debug)]
pub struct TetMesh {
    /// All tetrahedra, deleted ones included.
    pub tetrahedra: Vec<Tetrahedron>,
    /// For each vertex, the tetrahedra that were created with it.
    pub vertex_to_tets: Vec<Vec<usize>>,
}

impl TetMesh {
    /// Every recorded incidence names an existing tetrahedron.
    pub open spec fn incidences_ok(&self) -> bool {
        forall|v: int, k: int|
            0 <= v < self.vertex_to_tets@.len() && 0 <= k < self.vertex_to_tets@[v]@.len()
                ==> #[trigger] self.vertex_to_tets@[v]@[k] < self.tetrahedra@.len()
    }

    /// The `k`-th tetrahedron recorded for vertex `v`.
    pub open spec fn recorded_tet(&self, v: int, k: int) -> Tetrahedron {
        self.tetrahedra@[self.vertex_to_tets@[v]@[k] as int]
    }

    /// The incidence records are exact: every live tetrahedron is recorded for
    /// each of its vertices that is not reserved, and every tetrahedron
    /// recorded for a vertex is deleted or has that vertex.
    pub open spec fn incidences_exact(&self) -> bool {
        &&& forall|t: int, i: int|
            0 <= t < self.tetrahedra@.len() && 0 <= i < 4 && !self.tetrahedra@[t].deleted() && !is_reserved(
                self.tetrahedra@[t].vertices[i],
            ) ==> (self.tetrahedra@[t].vertices[i] as int) < self.vertex_to_tets@.len()
                && #[trigger] self.vertex_to_tets@[self.tetrahedra@[t].vertices[i] as int]@.contains(t as usize)
        &&& forall|v: int, k: int|
            0 <= v < self.vertex_to_tets@.len() && 0 <= k < self.vertex_to_tets@[v]@.len() ==> self.tetrahedra@[
                #[trigger] self.vertex_to_tets@[v]@[k] as int].deleted() || tet_has_vertex(
                self.tetrahedra@[self.vertex_to_tets@[v]@[k] as int],
                v as usize,
            )
    }

    /// `y` is a vertex below `vertex_count`, other than `v`, of a live
    /// tetrahedron recorded for `v`.
    pub open spec fn incident(&self, v: usize, vertex_count: usize, y: usize) -> bool {
        &&& v < self.vertex_to_tets@.len()
        &&& y != v
        &&& y < vertex_count
        &&& exists|k: int|
            0 <= k < self.vertex_to_tets@[v as int]@.len() && !self.recorded_tet(v as int, k).deleted()
                && tet_has_vertex(#[trigger] self.recorded_tet(v as int, k), y)
    }

    /// Returns the Delaunay neighbors of vertex `v`: the vertices below
    /// `vertex_count` that share a live tetrahedron with it, sorted and
    /// without duplicates. A vertex with no record has none.
    pub fn incident_neighbors(&self, v: usize, vertex_count: usize) -> (r: Vec<usize>)
        requires
            self.incidences_ok(),
        ensures
            strictly_increasing(r@),
            forall|y: usize| #[trigger] r@.contains(y) <==> self.incident(v, vertex_count, y),
    {
        let mut found: Vec<usize> = Vec::new();
        if v >= self.vertex_to_tets.len() {
            proof {
                assert forall|y: usize| #[trigger] found@.contains(y) <==> self.incident(v, vertex_count, y) by {}
            }
            return found;
        }
        let tets = &self.vertex_to_tets[v];
        let mut k: usize = 0;
        while k < tets.len()
            invariant
                self.incidences_ok(),
                v < self.vertex_to_tets@.len(),
                *tets == self.vertex_to_tets@[v as int],
                k <= tets@.len(),
                forall|y: usize|
                    #[trigger] found@.contains(y) <==> (y != v && y < vertex_count && exists|k2: int|
                        0 <= k2 < k && !self.tetrahedra@[tets@[k2] as int].deleted()
                            && tet_has_vertex(#[trigger] self.tetrahedra@[tets@[k2] as int], y)),
            decreases tets@.len() - k,
        {
            let tet_idx = tets[k];
            proof {
                assert(self.vertex_to_tets@[v as int]@[k as int] == tet_idx);
            }
            let tet = self.tetrahedra[tet_idx];
            let ghost before = found@;
            if !tet.is_deleted() {
                let mut i: usize = 0;
                while i < 4
                    invariant
                        i <= 4,
                        forall|y: usize|
                            #[trigger] found@.contains(y) <==> (before.contains(y) || (y != v && y
                                < vertex_count && tet.vertices@.take(i as int).contains(y))),
                    decreases 4 - i,
                {
                    let u = tet.vertices[i];
                    let ghost f0 = found@;
                    if u != v && u < vertex_count {
                        found.push(u);
                        proof {
                            lemma_contains_push(f0, u);
                        }
                    }
                    proof {
                        let t0 = tet.vertices@.take(i as int);
                        let t1 = tet.vertices@.take(i + 1);
                        assert(t1 =~= t0.push(u));
                        lemma_contains_push(t0, u);
                    }
                    i += 1;
                }
                proof {
                    assert(tet.vertices@.take(4) =~= tet.vertices@);
                }
            }
            proof {
                assert forall|y: usize| #[trigger] found@.contains(y) <==> (y != v && y < vertex_count
                    && exists|k2: int|
                    0 <= k2 < k + 1 && !self.tetrahedra@[tets@[k2] as int].deleted()
                        && tet_has_vertex(#[trigger] self.tetrahedra@[tets@[k2] as int], y)) by {
                    if y != v && y < vertex_count && !tet.deleted() && tet_has_vertex(tet, y) {
                        assert(self.tetrahedra@[tets@[k as int] as int] == tet);
                    }
                    if found@.contains(y) && !before.contains(y) {
                        assert(self.tetrahedra@[tets@[k as int] as int] == tet);
                    }
                }
            }
            k += 1;
        }
        let r = sorted_set(&found);
        proof {
            assert forall|y: usize| #[trigger] r@.contains(y) <==> self.incident(v, vertex_count, y) by {
                if self.incident(v, vertex_count, y) {
                    let k2 = choose|k2: int|
                        0 <= k2 < self.vertex_to_tets@[v as int]@.len() && !self.recorded_tet(v as int, k2).deleted()
                            && tet_has_vertex(#[trigger] self.recorded_tet(v as int, k2), y);
                    assert(self.tetrahedra@[tets@[k2] as int] == self.recorded_tet(v as int, k2));
                    assert(found@.contains(y));
                }
                if found@.contains(y) {
                    let k2 = choose|k2: int|
                        0 <= k2 < k && !self.tetrahedra@[tets@[k2] as int].deleted()
                            && tet_has_vertex(#[trigger] self.tetrahedra@[tets@[k2] as int], y);
                    assert(self.tetrahedra@[tets@[k2] as int] == self.recorded_tet(v as int, k2));
                }
            }
        }
        r
    }

    /// `e` joins two distinct active vertices below `vertex_count` that are
    /// both vertices of one live tetrahedron, the smaller first.
    pub open spec fn live_edge(&self, vertex_count: usize, active: Seq<bool>, e: (usize, usize)) -> bool {
        &&& e.0 < e.1 < vertex_count
        &&& e.1 < active.len()
        &&& active[e.0 as int]
        &&& active[e.1 as int]
        &&& exists|t: int|
            0 <= t < self.tetrahedra@.len() && !self.tetrahedra@[t].deleted() && tet_has_vertex(
                #[trigger] self.tetrahedra@[t],
                e.0,
            ) && tet_has_vertex(self.tetrahedra@[t], e.1)
    }

    /// Returns every edge of a live tetrahedron between two active vertices
    /// below `vertex_count`, as pairs `(smaller, larger)`, sorted and without
    /// duplicates. A vertex past the end of `active` counts as inactive.
    pub fn current_edges(&self, vertex_count: usize, active: &Vec<bool>) -> (r: Vec<(usize, usize)>)
        ensures
            edges_increasing(r@),
            forall|e: (usize, usize)| #[trigger] r@.contains(e) <==> self.live_edge(vertex_count, active@, e),
    {
        let mut edges: Vec<(usize, usize)> = Vec::new();
        let mut t: usize = 0;
        while t < self.tetrahedra.len()
            invariant
                t <= self.tetrahedra@.len(),
                forall|e: (usize, usize)|
                    #[trigger] edges@.contains(e) <==> (e.0 < e.1 < vertex_count && e.1 < active@.len()
                        && active@[e.0 as int] && active@[e.1 as int] && exists|t2: int|
                        0 <= t2 < t && !self.tetrahedra@[t2].deleted() && tet_has_vertex(
                            #[trigger] self.tetrahedra@[t2],
                            e.0,
                        ) && tet_has_vertex(self.tetrahedra@[t2], e.1)),
            decreases self.tetrahedra@.len() - t,
        {
            let tet = self.tetrahedra[t];
            let ghost before = edges@;
            if !tet.is_deleted() {
                let v = tet.vertices;
                let mut i: usize = 0;
                while i < 4
                    invariant
                        i <= 4,
                        v == tet.vertices,
                        forall|e: (usize, usize)|
                            #[trigger] edges@.contains(e) <==> (before.contains(e) || (e.0 < e.1
                                < vertex_count && e.1 < active@.len() && active@[e.0 as int]
                                && active@[e.1 as int] && exists|p: int, q: int|
                                0 <= p < q < 4 && p < i && ((v@[p] == e.0 && v@[q] == e.1) || (v@[p]
                                    == e.1 && v@[q] == e.0)))),
                    decreases 4 - i,
                {
                    let mut j: usize = i + 1;
                    while j < 4
                        invariant
                            i < 4,
                            i + 1 <= j <= 4,
                            v == tet.vertices,
                            forall|e: (usize, usize)|
                                #[trigger] edges@.contains(e) <==> (before.contains(e) || (e.0 < e.1
                                    < vertex_count && e.1 < active@.len() && active@[e.0 as int]
                                    && active@[e.1 as int] && exists|p: int, q: int|
                                    0 <= p < q < 4 && (p < i || (p == i && q < j)) && ((v@[p] == e.0
                                        && v@[q] == e.1) || (v@[p] == e.1 && v@[q] == e.0)))),
                        decreases 4 - j,
                    {
                        let a = v[i];
                        let b = v[j];
                        let ghost e0 = edges@;
                        if a < vertex_count && b < vertex_count && a < active.len() && b < active.len()
                            && active[a] && active[b] && a != b {
                            let e = if a < b {
                                (a, b)
                            } else {
                                (b, a)
                            };
                            edges.push(e);
                            proof {
                                lemma_contains_push(e0, e);
                            }
                        }
                        proof {
                            assert forall|e: (usize, usize)|
                                #[trigger] edges@.contains(e) <==> (before.contains(e) || (e.0 < e.1
                                    < vertex_count && e.1 < active@.len() && active@[e.0 as int]
                                    && active@[e.1 as int] && exists|p: int, q: int|
                                    0 <= p < q < 4 && (p < i || (p == i && q < j + 1)) && ((v@[p]
                                        == e.0 && v@[q] == e.1) || (v@[p] == e.1 && v@[q] == e.0)))) by {
                                if e.0 < e.1 < vertex_count && e.1 < active@.len() && active@[e.0 as int]
                                    && active@[e.1 as int] && ((v@[i as int] == e.0 && v@[j as int] == e.1)
                                    || (v@[i as int] == e.1 && v@[j as int] == e.0)) {
                                    assert(edges@.contains(e));
                                }
                            }
                        }
                        j += 1;
                    }
                    i += 1;
                }
                proof {
                    assert forall|e: (usize, usize)|
                        #[trigger] edges@.contains(e) <==> (e.0 < e.1 < vertex_count && e.1 < active@.len()
                            && active@[e.0 as int] && active@[e.1 as int] && exists|t2: int|
                            0 <= t2 < t + 1 && !self.tetrahedra@[t2].deleted() && tet_has_vertex(
                                #[trigger] self.tetrahedra@[t2],
                                e.0,
                            ) && tet_has_vertex(self.tetrahedra@[t2], e.1)) by {
                        assert(self.tetrahedra@[t as int] == tet);
                        if edges@.contains(e) && !before.contains(e) {
                            let (p, q) = choose|p: int, q: int|
                                0 <= p < q < 4 && ((v@[p] == e.0 && v@[q] == e.1) || (v@[p] == e.1
                                    && v@[q] == e.0));
                            assert(v@[p] == tet.vertices@[p]);
                            assert(tet_has_vertex(tet, v@[p]));
                            assert(tet_has_vertex(tet, v@[q]));
                        }
                        if e.0 < e.1 && tet_has_vertex(tet, e.0) && tet_has_vertex(tet, e.1) && !tet.deleted() {
                            let p = choose|p: int| 0 <= p < 4 && tet.vertices@[p] == e.0;
                            let q = choose|q: int| 0 <= q < 4 && tet.vertices@[q] == e.1;
                            if p < q {
                                assert(0 <= p < q < 4 && v@[p] == e.0 && v@[q] == e.1);
                            } else {
                                assert(0 <= q < p < 4 && v@[q] == e.1 && v@[p] == e.0);
                            }
                        }
                    }
                }
            } else {
                proof {
                    assert forall|e: (usize, usize)|
                        #[trigger] edges@.contains(e) <==> (e.0 < e.1 < vertex_count && e.1 < active@.len()
                            && active@[e.0 as int] && active@[e.1 as int] && exists|t2: int|
                            0 <= t2 < t + 1 && !self.tetrahedra@[t2].deleted() && tet_has_vertex(
                                #[trigger] self.tetrahedra@[t2],
                                e.0,
                            ) && tet_has_vertex(self.tetrahedra@[t2], e.1)) by {
                        assert(self.tetrahedra@[t as int] == tet);
                    }
                }
            }
            t += 1;
        }
        sorted_edge_set(&edges)
    }
}


/// A neighbor link names one of the `n` tetrahedra.
pub open spec fn link_ok(l: Option<usize>, n: int) -> bool {
    l matches Some(j) ==> j < n
}

/// The four largest indices name the vertices of the enclosing tetrahedron;
/// a deleted tetrahedron uses the largest of them for all its vertices.
pub open spec fn is_reserved(v: usize) -> bool {
    v >= usize::MAX - 3
}

/// Entry `k` of `c` is a neighbor of an earlier entry.
pub open spec fn linked_earlier(tets: Seq<Tetrahedron>, c: Seq<usize>, k: int) -> bool {
    exists|j: int, i: int| 0 <= j < k && 0 <= i < 4 && #[trigger] tets[c[j] as int].neighbors[i] == Some(c[k])
}

/// The caller's in-sphere test accepted tetrahedron `t`.
pub open spec fn accepted<S: Fn(usize) -> bool>(in_sphere: &S, t: usize) -> bool {
    call_ensures(*in_sphere, (t,), true)
}

/// The test answers every tetrahedron of a mesh of `n`, and the same way each time.
pub open spec fn test_ok<S: Fn(usize) -> bool>(in_sphere: &S, n: int) -> bool {
    &&& forall|t: usize| t < n ==> call_requires(*in_sphere, (t,))
    &&& forall|t: usize, a: bool, b: bool|
        #![trigger call_ensures(*in_sphere, (t,), a), call_ensures(*in_sphere, (t,), b)]
        call_ensures(*in_sphere, (t,), a) && call_ensures(*in_sphere, (t,), b) ==> a == b
}

/// `q` with the neighbors named in the first `i` slots of `t` appended in
/// slot order, each unless `q` holds it already.
pub open spec fn enqueue_neighbors(q: Seq<usize>, t: Tetrahedron, i: nat) -> Seq<usize>
    decreases i,
{
    if i == 0 {
        q
    } else {
        let q2 = enqueue_neighbors(q, t, (i - 1) as nat);
        match t.neighbors[i - 1] {
            Some(m) => if q2.contains(m) {
                q2
            } else {
                q2.push(m)
            },
            None => q2,
        }
    }
}

/// The breadth-first queue from `start` once its first `h` entries are
/// taken: each taken entry that the test accepts appends its new neighbors.
pub open spec fn bfs_queue<S: Fn(usize) -> bool>(
    tets: Seq<Tetrahedron>,
    in_sphere: &S,
    start: usize,
    h: nat,
) -> Seq<usize>
    decreases h,
{
    if h == 0 {
        seq![start]
    } else {
        let q = bfs_queue(tets, in_sphere, start, (h - 1) as nat);
        if h - 1 < q.len() && accepted(in_sphere, q[h - 1]) {
            enqueue_neighbors(q, tets[q[h - 1] as int], 4)
        } else {
            q
        }
    }
}

/// The entries among the first `h` of `q` that the test accepts, in order.
pub open spec fn accepted_prefix<S: Fn(usize) -> bool>(in_sphere: &S, q: Seq<usize>, h: nat) -> Seq<usize>
    decreases h,
{
    if h == 0 {
        Seq::empty()
    } else {
        let prev = accepted_prefix(in_sphere, q, (h - 1) as nat);
        if accepted(in_sphere, q[h - 1]) {
            prev.push(q[h - 1])
        } else {
            prev
        }
    }
}

/// The cavity from `start`: the accepted entries of the breadth-first queue,
/// in queue order, once every entry of the queue is taken.
pub open spec fn bfs_cavity<S: Fn(usize) -> bool>(tets: Seq<Tetrahedron>, in_sphere: &S, start: usize) -> Seq<usize> {
    let q = bfs_queue(tets, in_sphere, start, tets.len());
    accepted_prefix(in_sphere, q, q.len())
}

/// `accepted_prefix` reads only the first `h` entries.
proof fn lemma_accepted_prefix_ext<S: Fn(usize) -> bool>(in_sphere: &S, q: Seq<usize>, q2: Seq<usize>, h: nat)
    requires
        h <= q.len(),
        h <= q2.len(),
        forall|p: int| 0 <= p < h ==> q[p] == q2[p],
    ensures
        accepted_prefix(in_sphere, q, h) == accepted_prefix(in_sphere, q2, h),
    decreases h,
{
    if h > 0 {
        lemma_accepted_prefix_ext(in_sphere, q, q2, (h - 1) as nat);
        assert(q[h - 1] == q2[h - 1]);
    }
}

/// Once every entry of the queue is taken, taking more changes nothing.
proof fn lemma_bfs_stable<S: Fn(usize) -> bool>(tets: Seq<Tetrahedron>, in_sphere: &S, start: usize, h: nat, n: nat)
    requires
        bfs_queue(tets, in_sphere, start, h).len() <= h <= n,
    ensures
        bfs_queue(tets, in_sphere, start, n) == bfs_queue(tets, in_sphere, start, h),
    decreases n - h,
{
    if h < n {
        assert(bfs_queue(tets, in_sphere, start, h + 1) == bfs_queue(tets, in_sphere, start, h));
        lemma_bfs_stable(tets, in_sphere, start, h + 1, n);
    }
}

impl TetMesh {
    /// Every neighbor link names a tetrahedron, every recorded incidence
    /// names a tetrahedron, and every vertex has an incidence list unless it
    /// is reserved.
    pub open spec fn wf(&self) -> bool {
        &&& self.incidences_ok()
        &&& forall|t: int, i: int|
            0 <= t < self.tetrahedra@.len() && 0 <= i < 4 ==> link_ok(
                #[trigger] self.tetrahedra@[t].neighbors[i],
                self.tetrahedra@.len() as int,
            )
        &&& forall|t: int, i: int|
            0 <= t < self.tetrahedra@.len() && 0 <= i < 4 ==> (#[trigger] self.tetrahedra@[t].vertices[i])
                < self.vertex_to_tets@.len() || is_reserved(self.tetrahedra@[t].vertices[i])
    }

    /// Collects the cavity of a new point: the tetrahedra accepted by
    /// `in_sphere` that are connected to `start` through accepted tetrahedra,
    /// in breadth-first order from `start`. Empty when `start` itself is not
    /// accepted.
    #[verifier::spinoff_prover]
    pub fn cavity<S: Fn(usize) -> bool>(&self, start: usize, in_sphere: &S) -> (c: Vec<usize>)
        requires
            self.wf(),
            start < self.tetrahedra@.len(),
            test_ok(in_sphere, self.tetrahedra@.len() as int),
        ensures
            c@.no_duplicates(),
            forall|k: int|
                0 <= k < c@.len() ==> #[trigger] c@[k] < self.tetrahedra@.len() && accepted(
                    in_sphere,
                    c@[k],
                ),
            c@ == bfs_cavity(self.tetrahedra@, in_sphere, start),
            c@.len() > 0 <==> accepted(in_sphere, start),
            c@.len() > 0 ==> c@[0] == start,
            forall|k: int| 0 < k < c@.len() ==> #[trigger] linked_earlier(self.tetrahedra@, c@, k),
            forall|t: usize, i: int|
                #![trigger c@.contains(t), self.tetrahedra@[t as int].neighbors[i]]
                c@.contains(t) && 0 <= i < 4 ==> (self.tetrahedra@[t as int].neighbors[i] matches Some(m)
                    ==> (accepted(in_sphere, m) ==> c@.contains(m))),
    {
        let n = self.tetrahedra.len();
        let mut visited: Vec<bool> = Vec::new();
        let mut z: usize = 0;
        while z < n
            invariant
                z <= n,
                visited@.len() == z,
                forall|x: int| 0 <= x < z ==> !visited@[x],
            decreases n - z,
        {
            visited.push(false);
            z += 1;
        }
        let mut cavity: Vec<usize> = Vec::new();
        let mut queue: Vec<usize> = Vec::new();
        queue.push(start);
        visited.set(start, true);
        let mut q_head: usize = 0;
        let ghost mut pos: Seq<int> = Seq::empty();
        let ghost mut disc: Seq<int> = seq![0int];
        proof {
            assert forall|x: usize| x < n implies (visited@[x as int] <==> queue@.contains(x)) by {
                if x == start {
                    assert(queue@[0] == x);
                }
            }
        }
        while q_head < queue.len()
            invariant
                self.wf(),
                n == self.tetrahedra@.len(),
                test_ok(in_sphere, n as int),
                visited@.len() == n,
                queue@.len() >= 1,
                queue@[0] == start,
                forall|p: int| 0 <= p < queue@.len() ==> #[trigger] queue@[p] < n,
                queue@.no_duplicates(),
                queue@.len() <= n,
                forall|x: usize| x < n ==> (#[trigger] visited@[x as int] <==> queue@.contains(x)),
                q_head <= queue@.len(),
                queue@ == bfs_queue(self.tetrahedra@, in_sphere, start, q_head as nat),
                cavity@ == accepted_prefix(in_sphere, queue@, q_head as nat),
                pos.len() == cavity@.len(),
                forall|k: int|
                    0 <= k < pos.len() ==> 0 <= #[trigger] pos[k] < q_head && cavity@[k] == queue@[pos[k]],
                forall|a: int, b: int| 0 <= a < b < pos.len() ==> pos[a] < pos[b],
                forall|p: int|
                    0 <= p < q_head ==> (accepted(in_sphere, #[trigger] queue@[p]) <==> exists|k: int|
                        0 <= k < pos.len() && pos[k] == p),
                disc.len() == queue@.len(),
                forall|p: int|
                    0 < p < queue@.len() ==> {
                        &&& 0 <= #[trigger] disc[p] < p
                        &&& disc[p] < q_head
                        &&& accepted(in_sphere, queue@[disc[p]])
                        &&& exists|i: int|
                            0 <= i < 4 && self.tetrahedra@[queue@[disc[p]] as int].neighbors[i] == Some(
                                queue@[p],
                            )
                    },
                forall|p: int, i: int|
                    0 <= p < q_head && accepted(in_sphere, queue@[p]) && 0 <= i < 4 ==> (
                    #[trigger] self.tetrahedra@[queue@[p] as int].neighbors[i] matches Some(m)
                        ==> queue@.contains(m)),
            decreases n - q_head,
        {
            let t = queue[q_head];
            let ghost pos0 = pos;
            let ghost queue0 = queue@;
            let yes = in_sphere(t);
            proof {
                if yes {
                    assert(accepted(in_sphere, t));
                } else {
                    assert(!accepted(in_sphere, t));
                }
            }
            if yes {
                cavity.push(t);
                proof {
                    pos = pos.push(q_head as int);
                }
                let tet = self.tetrahedra[t];
                let ghost queue_at = queue@;
                let mut i: usize = 0;
                while i < 4
                    invariant
                        queue@.len() >= queue_at.len(),
                        forall|p: int| 0 <= p < queue_at.len() ==> #[trigger] queue@[p] == queue_at[p],
                        self.wf(),
                        n == self.tetrahedra@.len(),
                        test_ok(in_sphere, n as int),
                        tet == self.tetrahedra@[t as int],
                        t == queue@[q_head as int],
                        accepted(in_sphere, t),
                        i <= 4,
                        queue@ == enqueue_neighbors(queue_at, tet, i as nat),
                        queue_at == bfs_queue(self.tetrahedra@, in_sphere, start, q_head as nat),
                        cavity@ == accepted_prefix(in_sphere, queue_at, q_head as nat).push(t),
                        visited@.len() == n,
                        queue@.len() >= 1,
                        queue@[0] == start,
                        forall|p: int| 0 <= p < queue@.len() ==> #[trigger] queue@[p] < n,
                        queue@.no_duplicates(),
                        queue@.len() <= n,
                        forall|x: usize| x < n ==> (#[trigger] visited@[x as int] <==> queue@.contains(x)),
                        q_head < queue@.len(),
                        disc.len() == queue@.len(),
                        forall|p: int|
                            0 < p < queue@.len() ==> {
                                &&& 0 <= #[trigger] disc[p] < p
                                &&& disc[p] <= q_head
                                &&& accepted(in_sphere, queue@[disc[p]])
                                &&& exists|i2: int|
                                    0 <= i2 < 4 && self.tetrahedra@[queue@[disc[p]] as int].neighbors[i2]
                                        == Some(queue@[p])
                            },
                        forall|p: int, i2: int|
                            0 <= p < q_head && accepted(in_sphere, queue@[p]) && 0 <= i2 < 4 ==> (
                            #[trigger] self.tetrahedra@[queue@[p] as int].neighbors[i2] matches Some(m)
                                ==> queue@.contains(m)),
                        forall|i2: int|
                            0 <= i2 < i ==> (#[trigger] self.tetrahedra@[t as int].neighbors[i2] matches Some(
                                m,
                            ) ==> queue@.contains(m)),
                    decreases 4 - i,
                {
                    if let Some(m) = tet.neighbors[i] {
                        proof {
                            assert(link_ok(self.tetrahedra@[t as int].neighbors[i as int], n as int));
                        }
                        if !visited[m] {
                            let ghost q0 = queue@;
                            visited.set(m, true);
                            queue.push(m);
                            proof {
                                disc = disc.push(q_head as int);
                                lemma_contains_push(q0, m);
                                assert(!q0.contains(m));
                                assert forall|a: int, b: int|
                                    0 <= a < queue@.len() && 0 <= b < queue@.len() && a != b implies queue@[a]
                                    != queue@[b] by {
                                    if a == q0.len() {
                                        assert(q0[b] == queue@[b]);
                                    } else if b == q0.len() {
                                        assert(q0[a] == queue@[a]);
                                    } else {
                                        assert(q0[a] == queue@[a] && q0[b] == queue@[b]);
                                    }
                                }
                                lemma_distinct_below(queue@, n as nat);
                                assert forall|x: usize| x < n implies (#[trigger] visited@[x as int]
                                    <==> queue@.contains(x)) by {}
                                assert(self.tetrahedra@[queue@[disc[q0.len() as int]] as int].neighbors[i as int]
                                    == Some(queue@[q0.len() as int]));
                            }
                        }
                    }
                    i += 1;
                }
            }
            proof {
                lemma_accepted_prefix_ext(in_sphere, queue0, queue@, q_head as nat);
                assert(queue@[q_head as int] == t);
                assert(bfs_queue(self.tetrahedra@, in_sphere, start, (q_head + 1) as nat) == queue@);
                assert(cavity@ == accepted_prefix(in_sphere, queue@, (q_head + 1) as nat));
            }
            proof {
                assert forall|p: int| 0 <= p < q_head + 1 implies (accepted(in_sphere, #[trigger] queue@[p])
                    <==> exists|k: int| 0 <= k < pos.len() && pos[k] == p) by {
                    assert(queue@[p] == queue0[p]);
                    if p == q_head {
                        if yes {
                            assert(pos[pos.len() - 1] == p);
                        } else {
                            if exists|k: int| 0 <= k < pos.len() && pos[k] == p {
                                let k = choose|k: int| 0 <= k < pos.len() && pos[k] == p;
                                assert(pos0[k] < q_head);
                            }
                        }
                    } else {
                        assert(accepted(in_sphere, queue0[p]) <==> exists|k: int|
                            0 <= k < pos0.len() && pos0[k] == p);
                        if exists|k: int| 0 <= k < pos.len() && pos[k] == p {
                            let k = choose|k: int| 0 <= k < pos.len() && pos[k] == p;
                            if k < pos0.len() {
                                assert(pos0[k] == p);
                            }
                        }
                        if exists|k: int| 0 <= k < pos0.len() && pos0[k] == p {
                            let k = choose|k: int| 0 <= k < pos0.len() && pos0[k] == p;
                            assert(pos[k] == p);
                        }
                    }
                }
            }
            q_head += 1;
        }
        proof {
            lemma_bfs_stable(self.tetrahedra@, in_sphere, start, q_head as nat, n as nat);
        }
        proof {
            let c = cavity@;
            assert forall|a: int, b: int| 0 <= a < c.len() && 0 <= b < c.len() && a != b implies c[a]
                != c[b] by {
                if a < b {
                    assert(pos[a] < pos[b]);
                } else {
                    assert(pos[b] < pos[a]);
                }
            }
            assert forall|k: int| 0 <= k < c.len() implies #[trigger] c[k] < n && accepted(in_sphere, c[k]) by {
                assert(c[k] == queue@[pos[k]]);
                assert(exists|k2: int| 0 <= k2 < pos.len() && pos[k2] == pos[k]);
            }
            // The first cavity entry is the start.
            if c.len() > 0 {
                if pos[0] > 0 {
                    let p = pos[0];
                    let d = disc[p];
                    assert(accepted(in_sphere, queue@[d]));
                    let k2 = choose|k2: int| 0 <= k2 < pos.len() && pos[k2] == d;
                    if k2 > 0 {
                        assert(pos[0] < pos[k2]);
                    }
                }
                assert(c[0] == start);
            }
            if accepted(in_sphere, start) {
                assert(accepted(in_sphere, queue@[0]));
                let k2 = choose|k2: int| 0 <= k2 < pos.len() && pos[k2] == 0;
                assert(c.len() > 0);
            }
            assert forall|k: int| 0 < k < c.len() implies #[trigger] linked_earlier(self.tetrahedra@, c, k) by {
                let p = pos[k];
                assert(pos[0] < pos[k]);
                let d = disc[p];
                assert(accepted(in_sphere, queue@[d]));
                let j = choose|j: int| 0 <= j < pos.len() && pos[j] == d;
                if j >= k {
                    if j > k {
                        assert(pos[k] < pos[j]);
                    }
                }
                let i = choose|i: int|
                    0 <= i < 4 && self.tetrahedra@[queue@[d] as int].neighbors[i] == Some(queue@[p]);
                assert(c[j] == queue@[d]);
                assert(c[k] == queue@[p]);
                assert(self.tetrahedra@[c[j] as int].neighbors[i] == Some(c[k]));
            }
            assert forall|t: usize, i: int|
                #![trigger c.contains(t), self.tetrahedra@[t as int].neighbors[i]]
                c.contains(t) && 0 <= i < 4 implies (self.tetrahedra@[t as int].neighbors[i] matches Some(m)
                    ==> (accepted(in_sphere, m) ==> c.contains(m))) by {
                let k = choose|k: int| 0 <= k < c.len() && c[k] == t;
                if let Some(m) = self.tetrahedra@[t as int].neighbors[i] {
                if accepted(in_sphere, m) {
                let p = pos[k];
                assert(queue@[p] == t);
                assert(accepted(in_sphere, queue@[p])) by {
                    assert(exists|k2: int| 0 <= k2 < pos.len() && pos[k2] == p);
                }
                assert(queue@.contains(m));
                let p2 = choose|p2: int| 0 <= p2 < queue@.len() && queue@[p2] == m;
                assert(accepted(in_sphere, queue@[p2]));
                let k2 = choose|k2: int| 0 <= k2 < pos.len() && pos[k2] == p2;
                assert(c[k2] == m);
                }
                }
            }
        }
        cavity
    }
}


/// The face of a tetrahedron with vertices `v` that lies opposite vertex `f`,
/// listed in the orientation used by the triangulation.
pub open spec fn face_of(v: Seq<usize>, f: int) -> (usize, usize, usize) {
    if f == 0 {
        (v[1], v[2], v[3])
    } else if f == 1 {
        (v[0], v[3], v[2])
    } else if f == 2 {
        (v[0], v[1], v[3])
    } else {
        (v[0], v[2], v[1])
    }
}

/// Returns the face of the tetrahedron with vertices `v` opposite vertex `f`.
pub fn face_vertices(v: &[usize; 4], f: usize) -> (r: (usize, usize, usize))
    requires
        f < 4,
    ensures
        r == face_of(v@, f as int),
{
    if f == 0 {
        (v[1], v[2], v[3])
    } else if f == 1 {
        (v[0], v[3], v[2])
    } else if f == 2 {
        (v[0], v[1], v[3])
    } else {
        (v[0], v[2], v[1])
    }
}

/// The caller's side test answered `answer` for face `f` of tetrahedron `t`:
/// whether the point lies strictly beyond that face, seen from the opposite vertex.
pub open spec fn side_answer<C: Fn((usize, usize, usize), usize) -> bool>(
    tets: Seq<Tetrahedron>,
    crosses: &C,
    t: usize,
    f: int,
    answer: bool,
) -> bool {
    call_ensures(*crosses, (face_of(tets[t as int].vertices@, f), tets[t as int].vertices[f]), answer)
}

/// Face `f` of `t` does not lead the walk on: the point is not beyond it,
/// nothing lies behind it, or what lies behind it was already visited.
pub open spec fn face_closed<C: Fn((usize, usize, usize), usize) -> bool>(
    tets: Seq<Tetrahedron>,
    crosses: &C,
    seen: Seq<usize>,
    t: usize,
    f: int,
) -> bool {
    ||| side_answer(tets, crosses, t, f, false)
    ||| tets[t as int].neighbors[f] is None
    ||| (tets[t as int].neighbors[f] matches Some(m) && seen.contains(m))
}

/// From `path[s]` the walk moves through its first face that is not closed.
pub open spec fn walk_step<C: Fn((usize, usize, usize), usize) -> bool>(
    tets: Seq<Tetrahedron>,
    crosses: &C,
    path: Seq<usize>,
    s: int,
) -> bool {
    exists|f: int|
        0 <= f < 4 && (forall|f2: int|
            0 <= f2 < f ==> #[trigger] face_closed(tets, crosses, path.take(s + 1), path[s], f2))
            && side_answer(tets, crosses, path[s], f, true) && #[trigger] tets[path[s] as int].neighbors[f]
            == Some(path[s + 1]) && !path.take(s + 1).contains(path[s + 1])
}

/// `path` is the walk from `start` through first open faces.
pub open spec fn cell_walk<C: Fn((usize, usize, usize), usize) -> bool>(
    tets: Seq<Tetrahedron>,
    crosses: &C,
    start: usize,
    path: Seq<usize>,
) -> bool {
    &&& path.len() >= 1
    &&& path[0] == start
    &&& forall|s: int| 0 <= s < path.len() - 1 ==> #[trigger] walk_step(tets, crosses, path, s)
}

/// The walk along `path` ends at `r`: for every one of the four faces of `r`,
/// the side test answered that the point is not strictly beyond it, or no
/// tetrahedron lies behind it, or the one behind it is on `path`.
pub open spec fn walk_ends_at<C: Fn((usize, usize, usize), usize) -> bool>(
    tets: Seq<Tetrahedron>,
    crosses: &C,
    path: Seq<usize>,
    r: usize,
) -> bool {
    forall|f: int|
        0 <= f < 4 ==> call_ensures(
            *crosses,
            (
                (
                    tets[r as int].vertices[if f == 0 { 1int } else { 0int }],
                    tets[r as int].vertices[if f == 0 { 2int } else if f == 1 { 3int } else if f == 2 { 1int } else { 2int }],
                    tets[r as int].vertices[if f == 0 { 3int } else if f == 1 { 2int } else if f == 2 { 3int } else { 1int }],
                ),
                tets[r as int].vertices[f],
            ),
            false,
        ) || #[trigger] tets[r as int].neighbors[f] is None || path.contains(tets[r as int].neighbors[f]->Some_0)
}

/// With a side test that gives one answer per face, the cell where the walk
/// stops has no way on: through each of its four faces beyond which the
/// point lies strictly, either no tetrahedron lies, or one already visited.
pub proof fn lemma_walk_end_has_no_exit<C: Fn((usize, usize, usize), usize) -> bool>(
    tets: Seq<Tetrahedron>,
    crosses: &C,
    path: Seq<usize>,
    r: usize,
    f: int,
)
    requires
        forall|face: (usize, usize, usize), opp: usize, a: bool, b: bool|
            #![trigger call_ensures(*crosses, (face, opp), a), call_ensures(*crosses, (face, opp), b)]
            call_ensures(*crosses, (face, opp), a) && call_ensures(*crosses, (face, opp), b) ==> a == b,
        walk_ends_at(tets, crosses, path, r),
        0 <= f < 4,
        call_ensures(*crosses, (face_of(tets[r as int].vertices@, f), tets[r as int].vertices[f]), true),
    ensures
        match tets[r as int].neighbors[f] {
            Some(m) => path.contains(m),
            None => true,
        },
{
    let v = tets[r as int].vertices;
    assert(tets[r as int].neighbors[f] is None || path.contains(tets[r as int].neighbors[f]->Some_0) || call_ensures(
        *crosses,
        (face_of(v@, f), v[f]),
        false,
    ));
}

impl TetMesh {
    /// Walks from `start` toward the point located by `crosses`: from each
    /// tetrahedron it moves through the first face beyond which the point lies
    /// and behind which an unvisited tetrahedron lies, and it stops where no
    /// face leads on. Returns the tetrahedron where the walk stops.
    pub fn locate_cell<C: Fn((usize, usize, usize), usize) -> bool>(&self, start: usize, crosses: &C) -> (r:
        usize)
        requires
            self.wf(),
            start < self.tetrahedra@.len(),
            forall|face: (usize, usize, usize), opp: usize| call_requires(*crosses, (face, opp)),
        ensures
            r < self.tetrahedra@.len(),
            exists|path: Seq<usize>|
                #[trigger] cell_walk(self.tetrahedra@, crosses, start, path) && path.last() == r && (forall|f: int|
                    0 <= f < 4 ==> face_closed(self.tetrahedra@, crosses, path, r, f)) && walk_ends_at(
                    self.tetrahedra@,
                    crosses,
                    path,
                    r,
                ),
    {
        let n = self.tetrahedra.len();
        let ghost tets = self.tetrahedra@;
        let mut visited: Vec<bool> = Vec::new();
        let mut z: usize = 0;
        while z < n
            invariant
                z <= n,
                visited@.len() == z,
                forall|x: int| 0 <= x < z ==> !visited@[x],
            decreases n - z,
        {
            visited.push(false);
            z += 1;
        }
        visited.set(start, true);
        let mut curr = start;
        let ghost mut path: Seq<usize> = seq![start];
        proof {
            assert forall|x: usize| x < n implies (visited@[x as int] <==> path.contains(x)) by {
                if x == start {
                    assert(path[0] == x);
                }
            }
        }
        loop
            invariant
                self.wf(),
                tets == self.tetrahedra@,
                n == tets.len(),
                forall|face: (usize, usize, usize), opp: usize| call_requires(*crosses, (face, opp)),
                visited@.len() == n,
                curr < n,
                path.len() >= 1,
                path.last() == curr,
                path.no_duplicates(),
                forall|k: int| 0 <= k < path.len() ==> #[trigger] path[k] < n,
                forall|x: usize| x < n ==> (#[trigger] visited@[x as int] <==> path.contains(x)),
                cell_walk(tets, crosses, start, path),
            ensures
                curr < n,
                cell_walk(tets, crosses, start, path),
                path.last() == curr,
                forall|f: int| 0 <= f < 4 ==> face_closed(tets, crosses, path, curr, f),
            decreases n - path.len(),
        {
            proof {
                lemma_distinct_below(path, n as nat);
            }
            let tet = self.tetrahedra[curr];
            let v = tet.vertices;
            let mut f: usize = 0;
            let mut next: Option<usize> = None;
            while f < 4
                invariant_except_break
                    next is None,
                invariant
                    f <= 4,
                    tet == tets[curr as int],
                    v == tet.vertices,
                    curr < n,
                    n == tets.len(),
                    self.wf(),
                    tets == self.tetrahedra@,
                    visited@.len() == n,
                    forall|face: (usize, usize, usize), opp: usize| call_requires(*crosses, (face, opp)),
                    forall|x: usize| x < n ==> (#[trigger] visited@[x as int] <==> path.contains(x)),
                    forall|f2: int| 0 <= f2 < f ==> #[trigger] face_closed(tets, crosses, path, curr, f2),
                ensures
                    next matches Some(m) ==> exists|f3: int|
                        0 <= f3 < 4 && (forall|f2: int|
                            0 <= f2 < f3 ==> #[trigger] face_closed(tets, crosses, path, curr, f2))
                            && side_answer(tets, crosses, curr, f3, true) && #[trigger] tets[curr as int].neighbors[f3]
                            == Some(m) && !path.contains(m),
                    next is None ==> forall|f2: int| 0 <= f2 < 4 ==> #[trigger] face_closed(tets, crosses, path, curr, f2),
                decreases 4 - f,
            {
                let face = face_vertices(&v, f);
                let beyond = crosses(face, v[f]);
                proof {
                    assert(side_answer(tets, crosses, curr, f as int, beyond));
                }
                if beyond {
                    if let Some(m) = tet.neighbors[f] {
                        proof {
                            assert(link_ok(tets[curr as int].neighbors[f as int], n as int));
                        }
                        if !visited[m] {
                            next = Some(m);
                            proof {
                                assert(tets[curr as int].neighbors[f as int] == Some(m));
                            }
                            break;
                        }
                    }
                }
                f += 1;
            }
            match next {
                None => break,
                Some(m) => {
                    proof {
                        let p0 = path;
                        let p1 = p0.push(m);
                        assert(p1.take(p0.len() as int) =~= p0);
                        assert forall|s: int| 0 <= s < p1.len() - 1 implies #[trigger] walk_step(tets, crosses, p1, s) by {
                            if s < p0.len() - 1 {
                                assert(walk_step(tets, crosses, p0, s));
                                assert(p1.take(s + 1) =~= p0.take(s + 1));
                                assert(p1[s + 1] == p0[s + 1]);
                                let f3 = choose|f3: int|
                                    0 <= f3 < 4 && (forall|f2: int|
                                        0 <= f2 < f3 ==> #[trigger] face_closed(tets, crosses, p0.take(s + 1), p0[s], f2))
                                        && side_answer(tets, crosses, p0[s], f3, true) && #[trigger] tets[p0[s] as int].neighbors[f3]
                                        == Some(p0[s + 1]) && !p0.take(s + 1).contains(p0[s + 1]);
                                assert(tets[p1[s] as int].neighbors[f3] == Some(p1[s + 1]));
                            } else {
                                let f3 = choose|f3: int|
                                    0 <= f3 < 4 && (forall|f2: int|
                                        0 <= f2 < f3 ==> #[trigger] face_closed(tets, crosses, p0, curr, f2))
                                        && side_answer(tets, crosses, curr, f3, true) && #[trigger] tets[curr as int].neighbors[f3]
                                        == Some(m) && !p0.contains(m);
                                assert(p1[s] == curr);
                                assert(tets[p1[s] as int].neighbors[f3] == Some(p1[s + 1]));
                            }
                        }
                        lemma_contains_push(p0, m);
                        assert forall|a: int, b: int| 0 <= a < p1.len() && 0 <= b < p1.len() && a != b implies p1[a] != p1[b] by {
                            if a < p0.len() && b < p0.len() {
                                assert(p0[a] != p0[b]);
                            } else if a < p0.len() {
                                assert(p0.contains(p0[a]));
                            } else {
                                assert(p0.contains(p0[b]));
                            }
                        }
                        assert(m < n) by {
                            let f3 = choose|f3: int|
                                0 <= f3 < 4 && (forall|f2: int|
                                    0 <= f2 < f3 ==> #[trigger] face_closed(tets, crosses, p0, curr, f2))
                                    && side_answer(tets, crosses, curr, f3, true) && #[trigger] tets[curr as int].neighbors[f3]
                                    == Some(m) && !p0.contains(m);
                            assert(link_ok(tets[curr as int].neighbors[f3], n as int));
                        }
                        lemma_distinct_below(p1, n as nat);
                        path = p1;
                    }
                    visited.set(m, true);
                    curr = m;
                },
            }
        }
        proof {
            assert forall|f: int| 0 <= f < 4 implies call_ensures(
                *crosses,
                (
                    (
                        tets[curr as int].vertices[if f == 0 { 1int } else { 0int }],
                        tets[curr as int].vertices[if f == 0 { 2int } else if f == 1 { 3int } else if f == 2 { 1int } else { 2int }],
                        tets[curr as int].vertices[if f == 0 { 3int } else if f == 1 { 2int } else if f == 2 { 3int } else { 1int }],
                    ),
                    tets[curr as int].vertices[f],
                ),
                false,
            ) || #[trigger] tets[curr as int].neighbors[f] is None || path.contains(tets[curr as int].neighbors[f]->Some_0) by {
                assert(face_closed(tets, crosses, path, curr, f));
            }
            assert(walk_ends_at(tets, crosses, path, curr));
        }
        curr
    }
}


/// Face `f` of tetrahedron `t` bounds the cavity `cav`: nothing lies behind
/// it, or what lies behind it is outside the cavity.
pub open spec fn bounds_cavity(tets: Seq<Tetrahedron>, cav: Seq<usize>, t: usize, f: int) -> bool {
    match tets[t as int].neighbors[f] {
        None => true,
        Some(m) => !cav.contains(m),
    }
}

/// The faces among the first `f` faces of `t` that bound the cavity, in order.
pub open spec fn faces_bounding(tets: Seq<Tetrahedron>, cav: Seq<usize>, t: usize, f: nat) -> Seq<
    (usize, usize),
>
    decreases f,
{
    if f == 0 {
        Seq::empty()
    } else {
        let prev = faces_bounding(tets, cav, t, (f - 1) as nat);
        if bounds_cavity(tets, cav, t, f - 1) {
            prev.push((t, (f - 1) as usize))
        } else {
            prev
        }
    }
}

/// The boundary faces of the first `k` cavity tetrahedra, in cavity order and
/// then face order.
pub open spec fn cavity_boundary(tets: Seq<Tetrahedron>, cav: Seq<usize>, k: nat) -> Seq<
    (usize, usize),
>
    decreases k,
{
    if k == 0 {
        Seq::empty()
    } else {
        cavity_boundary(tets, cav, (k - 1) as nat) + faces_bounding(tets, cav, cav[k - 1], 4)
    }
}

impl TetMesh {
    /// Returns the faces of the cavity tetrahedra that bound the cavity, in
    /// cavity order and then face order.
    pub fn boundary_faces(&self, cavity: &Vec<usize>) -> (r: Vec<(usize, usize)>)
        requires
            self.wf(),
            forall|k: int| 0 <= k < cavity@.len() ==> #[trigger] cavity@[k] < self.tetrahedra@.len(),
        ensures
            r@ == cavity_boundary(self.tetrahedra@, cavity@, cavity@.len()),
            r@.len() <= 4 * cavity@.len(),
    {
        let n = self.tetrahedra.len();
        let ghost tets = self.tetrahedra@;
        let ghost cav = cavity@;
        let mut in_cavity: Vec<bool> = Vec::new();
        let mut z: usize = 0;
        while z < n
            invariant
                z <= n,
                in_cavity@.len() == z,
                forall|x: int| 0 <= x < z ==> !in_cavity@[x],
            decreases n - z,
        {
            in_cavity.push(false);
            z += 1;
        }
        let mut c: usize = 0;
        while c < cavity.len()
            invariant
                n == tets.len(),
                cav == cavity@,
                forall|k: int| 0 <= k < cav.len() ==> #[trigger] cav[k] < n,
                c <= cav.len(),
                in_cavity@.len() == n,
                forall|x: usize| x < n ==> (#[trigger] in_cavity@[x as int] <==> cav.take(c as int).contains(x)),
            decreases cav.len() - c,
        {
            let t = cavity[c];
            in_cavity.set(t, true);
            proof {
                let t0 = cav.take(c as int);
                let t1 = cav.take(c + 1);
                assert(t1 =~= t0.push(t));
                lemma_contains_push(t0, t);
            }
            c += 1;
        }
        proof {
            assert(cav.take(cav.len() as int) =~= cav);
        }
        let mut boundary: Vec<(usize, usize)> = Vec::new();
        let mut c: usize = 0;
        while c < cavity.len()
            invariant
                self.wf(),
                tets == self.tetrahedra@,
                n == tets.len(),
                cav == cavity@,
                forall|k: int| 0 <= k < cav.len() ==> #[trigger] cav[k] < n,
                c <= cav.len(),
                in_cavity@.len() == n,
                forall|x: usize| x < n ==> (#[trigger] in_cavity@[x as int] <==> cav.contains(x)),
                boundary@ == cavity_boundary(tets, cav, c as nat),
                boundary@.len() <= 4 * c,
            decreases cav.len() - c,
        {
            let t = cavity[c];
            let tet = self.tetrahedra[t];
            let ghost b0 = boundary@;
            let mut f: usize = 0;
            while f < 4
                invariant
                    self.wf(),
                    tets == self.tetrahedra@,
                    n == tets.len(),
                    t < n,
                    tet == tets[t as int],
                    f <= 4,
                    in_cavity@.len() == n,
                    forall|x: usize| x < n ==> (#[trigger] in_cavity@[x as int] <==> cav.contains(x)),
                    boundary@ == b0 + faces_bounding(tets, cav, t, f as nat),
                    boundary@.len() <= b0.len() + f,
                decreases 4 - f,
            {
                let open = match tet.neighbors[f] {
                    None => true,
                    Some(m) => {
                        proof {
                            assert(link_ok(tets[t as int].neighbors[f as int], n as int));
                        }
                        !in_cavity[m]
                    },
                };
                proof {
                    assert(open == bounds_cavity(tets, cav, t, f as int));
                }
                if open {
                    boundary.push((t, f));
                }
                proof {
                    assert(faces_bounding(tets, cav, t, (f + 1) as nat) == if bounds_cavity(
                        tets,
                        cav,
                        t,
                        f as int,
                    ) {
                        faces_bounding(tets, cav, t, f as nat).push((t, f))
                    } else {
                        faces_bounding(tets, cav, t, f as nat)
                    });
                    assert(boundary@ =~= b0 + faces_bounding(tets, cav, t, (f + 1) as nat));
                }
                f += 1;
            }
            proof {
                assert(cavity_boundary(tets, cav, (c + 1) as nat) == cavity_boundary(tets, cav, c as nat)
                    + faces_bounding(tets, cav, cav[c as int], 4));
            }
            c += 1;
        }
        boundary
    }
}


/// The vertices of the tetrahedron that joins face `fv` to the point `p`:
/// the face's vertices and then `p`, the first two swapped when the caller's
/// orientation test found the face negatively oriented toward `p`.
pub open spec fn cone_vertices(fv: (usize, usize, usize), p: usize, negative: bool) -> Seq<usize> {
    if negative {
        seq![fv.1, fv.0, fv.2, p]
    } else {
        seq![fv.0, fv.1, fv.2, p]
    }
}

/// `vs` are the vertices of the cone over face `fv` to `p`, for an answer
/// that the orientation test gave for that face.
pub open spec fn cone_of<O: Fn((usize, usize, usize)) -> bool>(
    orient_negative: &O,
    fv: (usize, usize, usize),
    p: usize,
    vs: Seq<usize>,
) -> bool {
    exists|negative: bool|
        call_ensures(*orient_negative, (fv,), negative) && vs == cone_vertices(fv, p, negative)
}

/// A link of a cone built while `lo .. hi` are the cone indices in use.
pub open spec fn cone_link(l: Option<usize>, lo: int, hi: int) -> bool {
    l matches Some(x) ==> lo <= x < hi
}

/// Tetrahedron `nt` is the cone over the boundary face `(t, f)` of the mesh
/// `tets`: its vertices are the face and `p`, its fourth neighbor is what lay
/// behind the face, and its other neighbors are cones.
pub open spec fn cone_ok<O: Fn((usize, usize, usize)) -> bool>(
    tets: Seq<Tetrahedron>,
    orient_negative: &O,
    face: (usize, usize),
    p: usize,
    nt: Tetrahedron,
    lo: int,
    hi: int,
) -> bool {
    &&& cone_of(orient_negative, face_of(tets[face.0 as int].vertices@, face.1 as int), p, nt.vertices@)
    &&& nt.neighbors[3] == tets[face.0 as int].neighbors[face.1 as int]
    &&& cone_link(nt.neighbors[0], lo, hi)
    &&& cone_link(nt.neighbors[1], lo, hi)
    &&& cone_link(nt.neighbors[2], lo, hi)
}

/// The positions, among the first `n` entries of the boundary `bnd`, of the
/// faces of `c` behind which lies `m`, in order.
pub open spec fn facing(tets: Seq<Tetrahedron>, bnd: Seq<(usize, usize)>, c: usize, m: usize, n: nat) -> Seq<int>
    decreases n,
{
    if n == 0 {
        Seq::empty()
    } else {
        let prev = facing(tets, bnd, c, m, (n - 1) as nat);
        if bnd[n - 1].0 == c && tets[c as int].neighbors[bnd[n - 1].1 as int] == Some(m) {
            prev.push(n - 1)
        } else {
            prev
        }
    }
}

/// The positions listed by `facing` are below `n`, in increasing order.
pub proof fn lemma_facing_bounds(tets: Seq<Tetrahedron>, bnd: Seq<(usize, usize)>, c: usize, m: usize, n: nat)
    ensures
        forall|k: int| 0 <= k < facing(tets, bnd, c, m, n).len() ==> 0 <= #[trigger] facing(tets, bnd, c, m, n)[k] < n,
        facing(tets, bnd, c, m, n).len() <= n,
    decreases n,
{
    if n > 0 {
        lemma_facing_bounds(tets, bnd, c, m, (n - 1) as nat);
    }
}

/// Redirecting the first slot of `m` that still links to the cavity
/// tetrahedron `t` to the cone of boundary entry `b` (a face of `t` with `m`
/// behind it) takes the links of `m` from their state after `b` boundary
/// entries to their state after `b + 1`.
proof fn lemma_relink_step(
    tets: Seq<Tetrahedron>,
    bnd: Seq<(usize, usize)>,
    cav: Seq<usize>,
    lo: int,
    b: nat,
    t: usize,
    m: usize,
    nt0: Tetrahedron,
    nt: Tetrahedron,
    hit_slot: int,
)
    requires
        (t as int) < lo,
        0 <= lo,
        lo + b + 1 <= usize::MAX,
        cav.contains(t),
        !cav.contains(m),
        b < bnd.len(),
        bnd[b as int].0 == t,
        tets[t as int].neighbors[bnd[b as int].1 as int] == Some(m),
        forall|i: int| 0 <= i < 4 ==> #[trigger] nt0.neighbors[i] == relink_target(tets, bnd, cav, lo, m as int, i, b),
        forall|i: int| 0 <= i < 4 ==> link_ok(#[trigger] nt0.neighbors[i], lo + b),
        0 <= hit_slot <= 4,
        forall|i: int| 0 <= i < hit_slot ==> nt0.neighbors[i] != Some(t),
        hit_slot < 4 ==> nt0.neighbors[hit_slot] == Some(t) && nt.neighbors[hit_slot] == Some((lo + b) as usize),
        forall|i: int| 0 <= i < 4 && i != hit_slot ==> #[trigger] nt.neighbors[i] == nt0.neighbors[i],
    ensures
        forall|i: int| 0 <= i < 4 ==> #[trigger] nt.neighbors[i] == relink_target(tets, bnd, cav, lo, m as int, i, b + 1)
            && link_ok(nt.neighbors[i], lo + b + 1),
{
    let r = facing(tets, bnd, t, m, b).len();
    let om = tets[m as int];
    lemma_facing_bounds(tets, bnd, t, m, b);
    assert(facing(tets, bnd, t, m, b + 1) == facing(tets, bnd, t, m, b).push(b as int));
    assert forall|c: usize| c != t implies #[trigger] facing(tets, bnd, c, m, b + 1) == facing(tets, bnd, c, m, b) by {}
    // The slots of `m` that still link to `t` are those of rank `r` and up.
    assert forall|i2: int| 0 <= i2 < 4 && om.neighbors[i2] == Some(t) implies (#[trigger] nt0.neighbors[i2]
        == Some(t) <==> slot_rank(om, t, i2) >= r) by {
    }
    assert forall|i2: int| 0 <= i2 < 4 && nt0.neighbors[i2] == Some(t) implies #[trigger] om.neighbors[i2] == Some(t) by {
        if om.neighbors[i2] != Some(t) {
            match om.neighbors[i2] {
                Some(c) => {
                    if cav.contains(c) {
                        lemma_facing_bounds(tets, bnd, c, m, b);
                    }
                },
                None => {},
            }
        }
    }
    if hit_slot < 4 {
        assert(slot_rank(om, t, hit_slot) == r) by {
            assert forall|i2: int| 0 <= i2 < hit_slot && om.neighbors[i2] == Some(t) implies slot_rank(om, t, i2) < r by {
                assert(nt0.neighbors[i2] != Some(t));
            }
        }
    } else {
        assert forall|i2: int| 0 <= i2 < 4 && om.neighbors[i2] == Some(t) implies slot_rank(om, t, i2) < r by {
            assert(nt0.neighbors[i2] != Some(t));
        }
    }
    assert forall|i: int| 0 <= i < 4 implies #[trigger] nt.neighbors[i] == relink_target(tets, bnd, cav, lo, m as int, i, b + 1)
        && link_ok(nt.neighbors[i], lo + b + 1) by {
        match om.neighbors[i] {
            Some(c) => {
                if cav.contains(c) {
                    lemma_facing_bounds(tets, bnd, c, m, b);
                    lemma_facing_bounds(tets, bnd, c, m, b + 1);
                }
            },
            None => {},
        }
    }
}

/// Indicator of slot `i` of `t` linking to `c`.
pub open spec fn links_at(t: Tetrahedron, c: usize, i: int) -> nat {
    if t.neighbors[i] == Some(c) {
        1
    } else {
        0
    }
}

/// The number of slots before slot `i` of `t` that link to `c`.
pub open spec fn slot_rank(t: Tetrahedron, c: usize, i: int) -> nat {
    (if 0 < i { links_at(t, c, 0) } else { 0 }) + (if 1 < i { links_at(t, c, 1) } else { 0 }) + (if 2 < i {
        links_at(t, c, 2)
    } else {
        0
    })
}

/// The link of slot `i` of tetrahedron `t`, outside the cavity, once the
/// first `n` boundary faces have their cones (the cone for `bnd[b]` has index
/// `lo + b`): a link to a cavity tetrahedron `c` is redirected when it is the
/// `j`-th of the slots of `t` that link to `c` and `c` has at least `j + 1`
/// faces among them with `t` behind; it then names the cone over the `j`-th
/// such face. Every other link is unchanged.
pub open spec fn relink_target(
    tets: Seq<Tetrahedron>,
    bnd: Seq<(usize, usize)>,
    cav: Seq<usize>,
    lo: int,
    t: int,
    i: int,
    n: nat,
) -> Option<usize> {
    match tets[t].neighbors[i] {
        Some(c) => if cav.contains(c) {
            let fs = facing(tets, bnd, c, t as usize, n);
            let j = slot_rank(tets[t], c, i);
            if j < fs.len() {
                Some((lo + fs[j as int]) as usize)
            } else {
                Some(c)
            }
        } else {
            Some(c)
        },
        None => None,
    }
}

/// Neighbor slot `i` of tetrahedron `t`, outside the cavity, holds `after`
/// once all boundary faces have their cones.
pub open spec fn relinked(
    tets: Seq<Tetrahedron>,
    bnd: Seq<(usize, usize)>,
    cav: Seq<usize>,
    lo: int,
    t: int,
    i: int,
    after: Option<usize>,
) -> bool {
    after == relink_target(tets, bnd, cav, lo, t, i, bnd.len())
}

/// Every entry of the cavity boundary is a face of a cavity tetrahedron.
pub proof fn lemma_boundary_in_cavity(tets: Seq<Tetrahedron>, cav: Seq<usize>, k: nat)
    requires
        k <= cav.len(),
    ensures
        forall|b: int|
            0 <= b < cavity_boundary(tets, cav, k).len() ==> cav.contains(
                (#[trigger] cavity_boundary(tets, cav, k)[b]).0,
            ) && cavity_boundary(tets, cav, k)[b].1 < 4 && bounds_cavity(
                tets,
                cav,
                cavity_boundary(tets, cav, k)[b].0,
                cavity_boundary(tets, cav, k)[b].1 as int,
            ),
    decreases k,
{
    if k > 0 {
        lemma_boundary_in_cavity(tets, cav, (k - 1) as nat);
        let t = cav[k - 1];
        lemma_faces_bounding(tets, cav, t, 4);
        let prev = cavity_boundary(tets, cav, (k - 1) as nat);
        let fb = faces_bounding(tets, cav, t, 4);
        assert forall|b: int| 0 <= b < (prev + fb).len() implies cav.contains((#[trigger] (prev + fb)[b]).0)
            && (prev + fb)[b].1 < 4 && bounds_cavity(tets, cav, (prev + fb)[b].0, (prev + fb)[b].1 as int) by {
            if b < prev.len() {
                assert((prev + fb)[b] == prev[b]);
            } else {
                assert((prev + fb)[b] == fb[b - prev.len()]);
                assert(cav[k - 1] == t);
            }
        }
    }
}

/// The faces that `faces_bounding` lists belong to `t`, are in range, and bound the cavity.
pub proof fn lemma_faces_bounding(tets: Seq<Tetrahedron>, cav: Seq<usize>, t: usize, f: nat)
    requires
        f <= 4,
    ensures
        faces_bounding(tets, cav, t, f).len() <= f,
        forall|b: int|
            0 <= b < faces_bounding(tets, cav, t, f).len() ==> (#[trigger] faces_bounding(tets, cav, t, f)[b]).0
                == t && faces_bounding(tets, cav, t, f)[b].1 < f && bounds_cavity(
                tets,
                cav,
                t,
                faces_bounding(tets, cav, t, f)[b].1 as int,
            ),
    decreases f,
{
    if f > 0 {
        lemma_faces_bounding(tets, cav, t, (f - 1) as nat);
    }
}

/// Finds the entry for `key` in an association list.
fn find_edge(map: &Vec<((usize, usize), (usize, usize))>, key: (usize, usize)) -> (r: Option<(usize, usize)>)
    ensures
        r matches Some(v) ==> map@.contains((key, v)),
        r is None ==> forall|k: int| 0 <= k < map@.len() ==> (#[trigger] map@[k]).0 != key,
{
    let mut k: usize = 0;
    while k < map.len()
        invariant
            k <= map@.len(),
            forall|k2: int| 0 <= k2 < k ==> (#[trigger] map@[k2]).0 != key,
        decreases map@.len() - k,
    {
        let entry = map[k];
        if entry.0.0 == key.0 && entry.0.1 == key.1 {
            proof {
                assert(map@[k as int] == (key, entry.1));
            }
            return Some(entry.1);
        }
        k += 1;
    }
    None
}

/// The edge of a cone with vertices `vs` opposite its slot `s`: the two face
/// vertices other than `vs[s]`, smaller first.
pub open spec fn cone_edge(vs: Seq<usize>, s: int) -> (usize, usize) {
    let e = if s == 0 {
        (vs[1], vs[2])
    } else if s == 1 {
        (vs[0], vs[2])
    } else {
        (vs[0], vs[1])
    };
    if e.0 < e.1 {
        e
    } else {
        (e.1, e.0)
    }
}

/// Slot `s` of cone `b` is linked as the shared edges require: a link names a
/// cone that has the same edge, and an empty slot means that no other slot of
/// any cone has that edge. Cone `b` will have index `n0 + b`.
pub open spec fn cone_linked(cones: Seq<Tetrahedron>, n0: int, b: int, s: int) -> bool {
    match cones[b].neighbors[s] {
        Some(c) => n0 <= c < n0 + cones.len() && exists|s2: int|
            0 <= s2 < 3 && (c - n0 != b || s2 != s) && #[trigger] cone_edge(cones[c - n0].vertices@, s2)
                == cone_edge(cones[b].vertices@, s),
        None => forall|b2: int, s2: int|
            0 <= b2 < cones.len() && 0 <= s2 < 3 && (b2 != b || s2 != s) ==> #[trigger] cone_edge(
                cones[b2].vertices@,
                s2,
            ) != cone_edge(cones[b].vertices@, s),
    }
}

/// Slot `(b2, s2)` shows the edge of slot `(b, s)`.
pub open spec fn same_edge(cones: Seq<Tetrahedron>, b: int, s: int, b2: int, s2: int) -> bool {
    cone_edge(cones[b2].vertices@, s2) == cone_edge(cones[b].vertices@, s)
}

/// No slot before `(b, s)` shows its edge.
pub open spec fn first_of_edge(cones: Seq<Tetrahedron>, b: int, s: int) -> bool {
    forall|b2: int, s2: int|
        0 <= b2 < cones.len() && 0 <= s2 < 3 && slot_before(b2, s2, b, s) ==> !#[trigger] same_edge(cones, b, s, b2, s2)
}

/// Slot `(c, s2)` is the last slot after `(b, s)` and before `(lb, ls)` that
/// shows the edge of `(b, s)`.
pub open spec fn last_partner(cones: Seq<Tetrahedron>, b: int, s: int, c: int, s2: int, lb: int, ls: int) -> bool {
    &&& 0 <= c < cones.len()
    &&& 0 <= s2 < 3
    &&& slot_before(b, s, c, s2)
    &&& slot_before(c, s2, lb, ls)
    &&& same_edge(cones, b, s, c, s2)
    &&& forall|b3: int, s3: int|
        0 <= b3 < cones.len() && 0 <= s3 < 3 && slot_before(c, s2, b3, s3) && slot_before(b3, s3, lb, ls)
            ==> !#[trigger] same_edge(cones, b, s, b3, s3)
}

/// No slot after `(b, s)` and before `(lb, ls)` shows the edge of `(b, s)`.
pub open spec fn no_partner(cones: Seq<Tetrahedron>, b: int, s: int, lb: int, ls: int) -> bool {
    forall|b3: int, s3: int|
        0 <= b3 < cones.len() && 0 <= s3 < 3 && slot_before(b, s, b3, s3) && slot_before(b3, s3, lb, ls)
            ==> !#[trigger] same_edge(cones, b, s, b3, s3)
}

/// The link of slot `(b, s)` once the slots before `(lb, ls)` are linked: a
/// slot whose edge showed first earlier links to the cone of that first
/// slot; the first slot of an edge links to the cone of the last later slot
/// with that edge, and stays empty while there is none.
pub open spec fn link_exact(cones: Seq<Tetrahedron>, n0: int, b: int, s: int, lb: int, ls: int) -> bool {
    if first_of_edge(cones, b, s) {
        match cones[b].neighbors[s] {
            Some(c) => n0 <= c && exists|s2: int| #[trigger] last_partner(cones, b, s, c - n0, s2, lb, ls),
            None => no_partner(cones, b, s, lb, ls),
        }
    } else {
        exists|bf: int, sf: int|
            #![trigger first_of_edge(cones, bf, sf), same_edge(cones, b, s, bf, sf)]
            0 <= bf < cones.len() && 0 <= sf < 3 && slot_before(bf, sf, b, s) && first_of_edge(cones, bf, sf)
                && same_edge(cones, b, s, bf, sf) && cones[b].neighbors[s] == Some((n0 + bf) as usize)
    }
}

/// Two first slots with one edge are one slot.
proof fn lemma_first_unique(cones: Seq<Tetrahedron>, b: int, s: int, b2: int, s2: int)
    requires
        0 <= b < cones.len(),
        0 <= s < 3,
        0 <= b2 < cones.len(),
        0 <= s2 < 3,
        first_of_edge(cones, b, s),
        first_of_edge(cones, b2, s2),
        same_edge(cones, b, s, b2, s2),
    ensures
        b == b2 && s == s2,
{
    if slot_before(b2, s2, b, s) {
        assert(!same_edge(cones, b, s, b2, s2));
    } else if slot_before(b, s, b2, s2) {
        assert(!same_edge(cones, b2, s2, b, s));
    }
}

/// Linking slot `(b, s)` to the earlier first slot `(ob, of)` of its edge,
/// and that first slot back to `(b, s)`, keeps every passed slot exact.
proof fn lemma_link_found(
    cs: Seq<Tetrahedron>,
    cones: Seq<Tetrahedron>,
    n0: int,
    b: int,
    s: int,
    ob: int,
    of: int,
)
    requires
        0 <= n0,
        n0 + cs.len() <= usize::MAX,
        cones.len() == cs.len(),
        0 <= b < cs.len(),
        0 <= s < 3,
        0 <= ob < cs.len(),
        0 <= of < 3,
        slot_before(ob, of, b, s),
        first_of_edge(cs, ob, of),
        same_edge(cs, b, s, ob, of),
        forall|c: int| 0 <= c < cs.len() ==> (#[trigger] cones[c]).vertices == cs[c].vertices,
        cones[b].neighbors[s] == Some((n0 + ob) as usize),
        cones[ob].neighbors[of] == Some((n0 + b) as usize),
        forall|x: int, y: int|
            0 <= x < cs.len() && 0 <= y < 3 && (x != b || y != s) && (x != ob || y != of) ==> #[trigger] cones[x].neighbors[y]
                == cs[x].neighbors[y],
        forall|x: int, y: int|
            0 <= x < cs.len() && 0 <= y < 3 && slot_before(x, y, b, s) ==> #[trigger] link_exact(cs, n0, x, y, b, s),
    ensures
        forall|x: int, y: int|
            0 <= x < cs.len() && 0 <= y < 3 && slot_before(x, y, b, s + 1) ==> #[trigger] link_exact(cones, n0, x, y, b, s + 1),
        forall|x: int, y: int| 0 <= x < cs.len() && 0 <= y < 3 ==> #[trigger] first_of_edge(cones, x, y) == first_of_edge(cs, x, y),
{
    assert forall|x: int, y: int, x2: int, y2: int|
        #![trigger same_edge(cones, x, y, x2, y2)]
        #![trigger same_edge(cs, x, y, x2, y2)]
        0 <= x < cs.len() && 0 <= x2 < cs.len() implies same_edge(cones, x, y, x2, y2) == same_edge(cs, x, y, x2, y2) by {
        assert(cones[x].vertices == cs[x].vertices);
        assert(cones[x2].vertices == cs[x2].vertices);
    }
    assert forall|x: int, y: int| 0 <= x < cs.len() && 0 <= y < 3 implies #[trigger] first_of_edge(cones, x, y) == first_of_edge(cs, x, y) by {
        assert forall|b2: int, s2: int|
            #![trigger same_edge(cones, x, y, b2, s2)]
            #![trigger same_edge(cs, x, y, b2, s2)]
            0 <= b2 < cs.len() && 0 <= s2 < 3 implies same_edge(cones, x, y, b2, s2) == same_edge(cs, x, y, b2, s2) by {
            assert(cones[x].vertices == cs[x].vertices);
            assert(cones[b2].vertices == cs[b2].vertices);
        }
    }
    assert forall|x: int, y: int|
        0 <= x < cs.len() && 0 <= y < 3 && slot_before(x, y, b, s + 1) implies #[trigger] link_exact(cones, n0, x, y, b, s + 1) by {
        if x == b && y == s {
            assert(same_edge(cs, b, s, ob, of));
            assert(!first_of_edge(cs, b, s));
            assert(!first_of_edge(cones, b, s));
            assert(first_of_edge(cones, ob, of) && same_edge(cones, b, s, ob, of));
            assert(link_exact(cones, n0, x, y, b, s + 1));
        } else if x == ob && y == of {
            assert(first_of_edge(cones, ob, of));
            assert(same_edge(cones, ob, of, b, s));
            assert(cones[ob].neighbors[of]->Some_0 - n0 == b);
            assert(last_partner(cones, ob, of, b, s, b, s + 1));
            assert(link_exact(cones, n0, x, y, b, s + 1));
        } else {
            assert(link_exact(cs, n0, x, y, b, s));
            assert(cones[x].neighbors[y] == cs[x].neighbors[y]);
            if first_of_edge(cs, x, y) {
                if same_edge(cs, x, y, b, s) {
                    assert(same_edge(cs, ob, of, x, y));
                    lemma_first_unique(cs, x, y, ob, of);
                }
                match cs[x].neighbors[y] {
                    Some(c) => {
                        let s2 = choose|s2: int| #[trigger] last_partner(cs, x, y, c - n0, s2, b, s);
                        assert(last_partner(cones, x, y, c - n0, s2, b, s + 1));
                    },
                    None => {
                        assert(no_partner(cones, x, y, b, s + 1));
                    },
                }
            } else {
                let (bf, sf) = choose|bf: int, sf: int|
                    #![trigger first_of_edge(cs, bf, sf), same_edge(cs, x, y, bf, sf)]
                    0 <= bf < cs.len() && 0 <= sf < 3 && slot_before(bf, sf, x, y) && first_of_edge(cs, bf, sf)
                        && same_edge(cs, x, y, bf, sf) && cs[x].neighbors[y] == Some((n0 + bf) as usize);
                assert(first_of_edge(cones, bf, sf) && same_edge(cones, x, y, bf, sf));
            }
        }
    }
}

/// Recording slot `(b, s)`, whose edge no earlier slot shows, keeps every
/// passed slot exact.
proof fn lemma_link_new(cs: Seq<Tetrahedron>, n0: int, b: int, s: int)
    requires
        0 <= b < cs.len(),
        0 <= s < 3,
        cs[b].neighbors[s] is None,
        forall|x: int, y: int| 0 <= x < cs.len() && 0 <= y < 3 && slot_before(x, y, b, s) ==> !#[trigger] same_edge(cs, b, s, x, y),
        forall|x: int, y: int|
            0 <= x < cs.len() && 0 <= y < 3 && slot_before(x, y, b, s) ==> #[trigger] link_exact(cs, n0, x, y, b, s),
    ensures
        first_of_edge(cs, b, s),
        forall|x: int, y: int|
            0 <= x < cs.len() && 0 <= y < 3 && slot_before(x, y, b, s + 1) ==> #[trigger] link_exact(cs, n0, x, y, b, s + 1),
{
    assert forall|x: int, y: int|
        0 <= x < cs.len() && 0 <= y < 3 && slot_before(x, y, b, s + 1) implies #[trigger] link_exact(cs, n0, x, y, b, s + 1) by {
        if x == b && y == s {
            assert(no_partner(cs, b, s, b, s + 1));
        } else {
            assert(link_exact(cs, n0, x, y, b, s));
            if first_of_edge(cs, x, y) {
                assert(!same_edge(cs, x, y, b, s)) by {
                    assert(!same_edge(cs, b, s, x, y));
                }
                match cs[x].neighbors[y] {
                    Some(c) => {
                        let s2 = choose|s2: int| #[trigger] last_partner(cs, x, y, c - n0, s2, b, s);
                        assert(last_partner(cs, x, y, c - n0, s2, b, s + 1));
                    },
                    None => {
                        assert(no_partner(cs, x, y, b, s + 1));
                    },
                }
            }
        }
    }
}

/// The limit `(b, 3)` and the limit `(b + 1, 0)` pass the same slots.
proof fn lemma_link_next_cone(cs: Seq<Tetrahedron>, n0: int, b: int)
    requires
        forall|x: int, y: int|
            0 <= x < cs.len() && 0 <= y < 3 && slot_before(x, y, b, 3) ==> #[trigger] link_exact(cs, n0, x, y, b, 3),
    ensures
        forall|x: int, y: int|
            0 <= x < cs.len() && 0 <= y < 3 && slot_before(x, y, b + 1, 0) ==> #[trigger] link_exact(cs, n0, x, y, b + 1, 0),
{
    assert forall|x: int, y: int|
        0 <= x < cs.len() && 0 <= y < 3 && slot_before(x, y, b + 1, 0) implies #[trigger] link_exact(cs, n0, x, y, b + 1, 0) by {
        assert(link_exact(cs, n0, x, y, b, 3));
        if first_of_edge(cs, x, y) {
            match cs[x].neighbors[y] {
                Some(c) => {
                    let s2 = choose|s2: int| #[trigger] last_partner(cs, x, y, c - n0, s2, b, 3);
                    assert(last_partner(cs, x, y, c - n0, s2, b + 1, 0));
                },
                None => {
                    assert(no_partner(cs, x, y, b + 1, 0));
                },
            }
        }
    }
}

/// When exactly two cone slots show an edge, the two cones are linked to each
/// other through those slots.
pub proof fn lemma_cone_links_mutual(cones: Seq<Tetrahedron>, n0: int, b: int, s: int, b2: int, s2: int)
    requires
        0 <= n0,
        n0 + cones.len() <= usize::MAX,
        forall|x: int, y: int| 0 <= x < cones.len() && 0 <= y < 3 ==> #[trigger] cone_linked(cones, n0, x, y),
        0 <= b < cones.len(),
        0 <= s < 3,
        0 <= b2 < cones.len(),
        0 <= s2 < 3,
        b != b2 || s != s2,
        cone_edge(cones[b].vertices@, s) == cone_edge(cones[b2].vertices@, s2),
        forall|x: int, y: int|
            0 <= x < cones.len() && 0 <= y < 3 && (x != b || y != s) && (x != b2 || y != s2)
                ==> #[trigger] cone_edge(cones[x].vertices@, y) != cone_edge(cones[b].vertices@, s),
    ensures
        cones[b].neighbors[s] == Some((n0 + b2) as usize),
        cones[b2].neighbors[s2] == Some((n0 + b) as usize),
{
    assert(cone_linked(cones, n0, b, s));
    assert(cone_linked(cones, n0, b2, s2));
    match cones[b].neighbors[s] {
        Some(c) => {
            let y = choose|y: int|
                0 <= y < 3 && (c - n0 != b || y != s) && #[trigger] cone_edge(cones[c - n0].vertices@, y)
                    == cone_edge(cones[b].vertices@, s);
            assert(c - n0 == b2 && y == s2);
        },
        None => {
            assert(cone_edge(cones[b2].vertices@, s2) != cone_edge(cones[b].vertices@, s));
        },
    }
    match cones[b2].neighbors[s2] {
        Some(c) => {
            let y = choose|y: int|
                0 <= y < 3 && (c - n0 != b2 || y != s2) && #[trigger] cone_edge(cones[c - n0].vertices@, y)
                    == cone_edge(cones[b2].vertices@, s2);
            assert(c - n0 == b && y == s);
        },
        None => {
            assert(cone_edge(cones[b].vertices@, s) != cone_edge(cones[b2].vertices@, s2));
        },
    }
}

/// Slot `(b2, s2)` comes before slot `(b, s)` in cone order, then slot order.
pub open spec fn slot_before(b2: int, s2: int, b: int, s: int) -> bool {
    b2 < b || (b2 == b && s2 < s)
}

/// Some entry of the association list has key `key`.
pub open spec fn has_key(map: Seq<((usize, usize), (usize, usize))>, key: (usize, usize)) -> bool {
    exists|k: int| 0 <= k < map.len() && #[trigger] map[k].0 == key
}

/// The state of slot `(b2, s2)` once the linking has passed it, with the
/// linking now at slot `(b, s)`: a link names a cone with the same edge; an
/// empty slot is registered under its edge, and no other passed slot has it.
pub open spec fn passed_slot_ok(
    cones: Seq<Tetrahedron>,
    map: Seq<((usize, usize), (usize, usize))>,
    n0: int,
    b2: int,
    s2: int,
    b: int,
    s: int,
) -> bool {
    match cones[b2].neighbors[s2] {
        Some(c) => n0 <= c < n0 + cones.len() && exists|s3: int|
            0 <= s3 < 3 && (c - n0 != b2 || s3 != s2) && #[trigger] cone_edge(cones[c - n0].vertices@, s3)
                == cone_edge(cones[b2].vertices@, s2),
        None => {
            &&& map.contains((cone_edge(cones[b2].vertices@, s2), ((n0 + b2) as usize, s2 as usize)))
            &&& forall|b3: int, s3: int|
                0 <= b3 && 0 <= s3 < 3 && slot_before(b3, s3, b, s) && (b3 != b2 || s3 != s2)
                    ==> #[trigger] cone_edge(cones[b3].vertices@, s3) != cone_edge(cones[b2].vertices@, s2)
        },
    }
}

/// Links the cones that share an edge: visiting the slots opposite the first
/// three vertices of each cone in order, a slot whose edge was seen before is
/// linked both ways with the slot that first showed that edge; otherwise the
/// edge is remembered for later cones. Cone `b` will have index `n0 + b`.
#[verifier::rlimit(40)]
#[verifier::spinoff_prover]
fn link_cones(cones: &mut Vec<Tetrahedron>, n0: usize)
    requires
        n0 + old(cones)@.len() <= usize::MAX,
        forall|b: int, s: int|
            0 <= b < old(cones)@.len() && 0 <= s < 3 ==> #[trigger] old(cones)@[b].neighbors[s] is None,
    ensures
        final(cones)@.len() == old(cones)@.len(),
        forall|b: int|
            0 <= b < old(cones)@.len() ==> (#[trigger] final(cones)@[b]).vertices == old(cones)@[b].vertices
                && final(cones)@[b].neighbors[3] == old(cones)@[b].neighbors[3],
        forall|b: int, s: int|
            0 <= b < old(cones)@.len() && 0 <= s < 3 ==> #[trigger] cone_linked(final(cones)@, n0 as int, b, s),
        forall|b: int, s: int|
            0 <= b < old(cones)@.len() && 0 <= s < 3 ==> #[trigger] link_exact(
                final(cones)@,
                n0 as int,
                b,
                s,
                old(cones)@.len() as int,
                0,
            ),
{
    let len = cones.len();
    let ghost c0 = cones@;
    let mut map: Vec<((usize, usize), (usize, usize))> = Vec::new();
    let mut b: usize = 0;
    while b < len
        invariant
            len == c0.len(),
            c0 == old(cones)@,
            n0 + len <= usize::MAX,
            b <= len,
            cones@.len() == len,
            forall|c: int|
                0 <= c < len ==> (#[trigger] cones@[c]).vertices == c0[c].vertices && cones@[c].neighbors[3]
                    == c0[c].neighbors[3],
            forall|k1: int, k2: int| 0 <= k1 < k2 < map@.len() ==> map@[k1].0 != map@[k2].0,
            forall|k: int|
                0 <= k < map@.len() ==> {
                    &&& n0 <= (#[trigger] map@[k]).1.0 < n0 + len
                    &&& map@[k].1.1 < 3
                    &&& slot_before(map@[k].1.0 - n0, map@[k].1.1 as int, b as int, 0)
                    &&& map@[k].0 == cone_edge(cones@[map@[k].1.0 - n0].vertices@, map@[k].1.1 as int)
                },
            forall|b2: int, s2: int|
                0 <= b2 < len && 0 <= s2 < 3 && slot_before(b2, s2, b as int, 0) ==> has_key(
                    map@,
                    #[trigger] cone_edge(cones@[b2].vertices@, s2),
                ),
            forall|b2: int, s2: int|
                0 <= b2 < len && 0 <= s2 < 3 && !slot_before(b2, s2, b as int, 0) ==> #[trigger] cones@[b2].neighbors[s2]
                    is None,
            forall|b2: int, s2: int|
                0 <= b2 < len && 0 <= s2 < 3 && slot_before(b2, s2, b as int, 0) ==> #[trigger] passed_slot_ok(
                    cones@,
                    map@,
                    n0 as int,
                    b2,
                    s2,
                    b as int,
                    0,
                ),
            forall|x: int, y: int|
                0 <= x < len && 0 <= y < 3 && slot_before(x, y, b as int, 0) ==> #[trigger] link_exact(
                    cones@,
                    n0 as int,
                    x,
                    y,
                    b as int,
                    0,
                ),
            forall|k: int|
                0 <= k < map@.len() ==> first_of_edge(cones@, (#[trigger] map@[k]).1.0 - n0, map@[k].1.1 as int),
        decreases len - b,
    {
        let mut s: usize = 0;
        while s < 3
            invariant
                len == c0.len(),
                n0 + len <= usize::MAX,
                b < len,
                s <= 3,
                cones@.len() == len,
                forall|c: int|
                    0 <= c < len ==> (#[trigger] cones@[c]).vertices == c0[c].vertices && cones@[c].neighbors[3]
                        == c0[c].neighbors[3],
                forall|k1: int, k2: int| 0 <= k1 < k2 < map@.len() ==> map@[k1].0 != map@[k2].0,
                forall|k: int|
                    0 <= k < map@.len() ==> {
                        &&& n0 <= (#[trigger] map@[k]).1.0 < n0 + len
                        &&& map@[k].1.1 < 3
                        &&& slot_before(map@[k].1.0 - n0, map@[k].1.1 as int, b as int, s as int)
                        &&& map@[k].0 == cone_edge(cones@[map@[k].1.0 - n0].vertices@, map@[k].1.1 as int)
                    },
                forall|b2: int, s2: int|
                    0 <= b2 < len && 0 <= s2 < 3 && slot_before(b2, s2, b as int, s as int) ==> has_key(
                        map@,
                        #[trigger] cone_edge(cones@[b2].vertices@, s2),
                    ),
                forall|b2: int, s2: int|
                    0 <= b2 < len && 0 <= s2 < 3 && !slot_before(b2, s2, b as int, s as int)
                        ==> #[trigger] cones@[b2].neighbors[s2] is None,
                forall|b2: int, s2: int|
                    0 <= b2 < len && 0 <= s2 < 3 && slot_before(b2, s2, b as int, s as int)
                        ==> #[trigger] passed_slot_ok(cones@, map@, n0 as int, b2, s2, b as int, s as int),
                forall|x: int, y: int|
                    0 <= x < len && 0 <= y < 3 && slot_before(x, y, b as int, s as int) ==> #[trigger] link_exact(
                        cones@,
                        n0 as int,
                        x,
                        y,
                        b as int,
                        s as int,
                    ),
                forall|k: int|
                    0 <= k < map@.len() ==> first_of_edge(cones@, (#[trigger] map@[k]).1.0 - n0, map@[k].1.1 as int),
            decreases 3 - s,
        {
            let v = cones[b].vertices;
            let e = if s == 0 {
                (v[1], v[2])
            } else if s == 1 {
                (v[0], v[2])
            } else {
                (v[0], v[1])
            };
            let key = if e.0 < e.1 {
                e
            } else {
                (e.1, e.0)
            };
            let ghost cs = cones@;
            let ghost ms = map@;
            proof {
                assert(key == cone_edge(cs[b as int].vertices@, s as int));
            }
            match find_edge(&map, key) {
                Some((other, other_face)) => {
                    let ghost kk = choose|kk: int| 0 <= kk < ms.len() && ms[kk] == (key, (other, other_face));
                    proof {
                        assert(n0 <= ms[kk].1.0 < n0 + len);
                    }
                    let ob = other - n0;
                    let mut cur = cones[b];
                    cur.neighbors[s] = Some(other);
                    cones.set(b, cur);
                    let mut ot = cones[ob];
                    ot.neighbors[other_face] = Some(n0 + b);
                    cones.set(ob, ot);
                    proof {
                        assert(first_of_edge(cs, ob as int, other_face as int)) by {
                            assert(ms[kk].1.0 - n0 == ob);
                        }
                        assert forall|x: int, y: int|
                            0 <= x < len && 0 <= y < 3 && (x != b || y != s) && (x != ob || y != other_face) implies #[trigger] cones@[x].neighbors[y]
                                == cs[x].neighbors[y] by {}
                        lemma_link_found(cs, cones@, n0 as int, b as int, s as int, ob as int, other_face as int);
                        assert forall|k: int| 0 <= k < map@.len() implies first_of_edge(cones@, (#[trigger] map@[k]).1.0 - n0, map@[k].1.1 as int) by {
                            assert(first_of_edge(cs, map@[k].1.0 - n0, map@[k].1.1 as int));
                        }
                    }
                    proof {
                        assert(slot_before(ob as int, other_face as int, b as int, s as int));
                        assert(key == cone_edge(cs[ob as int].vertices@, other_face as int));
                        assert forall|c: int| 0 <= c < len implies (#[trigger] cones@[c]).vertices == c0[c].vertices
                            && cones@[c].neighbors[3] == c0[c].neighbors[3] by {
                            assert(cs[c].vertices == c0[c].vertices);
                        }
                        assert forall|c: int| 0 <= c < len implies (#[trigger] cones@[c]).vertices == cs[c].vertices by {}
                        assert forall|b2: int, s2: int|
                            0 <= b2 < len && 0 <= s2 < 3 && !slot_before(b2, s2, b as int, s + 1)
                                implies #[trigger] cones@[b2].neighbors[s2] is None by {
                            assert(cones@[b2].neighbors[s2] == cs[b2].neighbors[s2]);
                        }
                        assert forall|b2: int, s2: int|
                            0 <= b2 < len && 0 <= s2 < 3 && slot_before(b2, s2, b as int, s + 1)
                                implies #[trigger] passed_slot_ok(cones@, map@, n0 as int, b2, s2, b as int, s + 1) by {
                            assert(cones@[b2].vertices == cs[b2].vertices);
                            if b2 == b && s2 == s {
                                assert(cones@[b2].neighbors[s2] == Some(other));
                                assert(cone_edge(cones@[other - n0].vertices@, other_face as int) == cone_edge(cones@[b2].vertices@, s2));
                                assert(passed_slot_ok(cones@, map@, n0 as int, b2, s2, b as int, s + 1));
                            } else if b2 == ob && s2 == other_face {
                                let c = (n0 + b) as usize;
                                assert(cones@[b2].neighbors[s2] == Some(c));
                                assert(cone_edge(cones@[c - n0].vertices@, s as int) == cone_edge(cones@[b2].vertices@, s2));
                                assert(passed_slot_ok(cones@, map@, n0 as int, b2, s2, b as int, s + 1));
                            } else {
                                assert(cones@[b2].neighbors[s2] == cs[b2].neighbors[s2]);
                                assert(passed_slot_ok(cs, ms, n0 as int, b2, s2, b as int, s as int));
                                assert(cones@[b2].vertices == cs[b2].vertices);
                                if let Some(c) = cs[b2].neighbors[s2] {
                                    let s3 = choose|s3: int|
                                        0 <= s3 < 3 && (c - n0 != b2 || s3 != s2) && #[trigger] cone_edge(cs[c - n0].vertices@, s3)
                                            == cone_edge(cs[b2].vertices@, s2);
                                    assert(cones@[c - n0].vertices == cs[c - n0].vertices);
                                    assert(cone_edge(cones@[c - n0].vertices@, s3) == cone_edge(cones@[b2].vertices@, s2));
                                }
                                if cs[b2].neighbors[s2] is None {
                                    let k2 = choose|k2: int| 0 <= k2 < ms.len() && ms[k2] == (cone_edge(cs[b2].vertices@, s2), ((n0 + b2) as usize, s2 as usize));
                                    assert forall|b3: int, s3: int|
                                        0 <= b3 && 0 <= s3 < 3 && slot_before(b3, s3, b as int, s + 1) && (b3 != b2 || s3 != s2)
                                            implies #[trigger] cone_edge(cones@[b3].vertices@, s3) != cone_edge(cones@[b2].vertices@, s2) by {
                                        if b3 == b && s3 == s {
                                            if cone_edge(cs[b2].vertices@, s2) == key {
                                                if k2 != kk {
                                                    if k2 < kk {
                                                        assert(ms[k2].0 != ms[kk].0);
                                                    } else {
                                                        assert(ms[kk].0 != ms[k2].0);
                                                    }
                                                }
                                            }
                                        } else {
                                            assert(cones@[b3].vertices == cs[b3].vertices);
                                            assert(cone_edge(cs[b3].vertices@, s3) != cone_edge(cs[b2].vertices@, s2));
                                        }
                                    }
                                }
                                assert(passed_slot_ok(cones@, map@, n0 as int, b2, s2, b as int, s + 1));
                            }
                        }
                        assert forall|b2: int, s2: int|
                            0 <= b2 < len && 0 <= s2 < 3 && slot_before(b2, s2, b as int, s + 1) implies has_key(
                                map@,
                                #[trigger] cone_edge(cones@[b2].vertices@, s2),
                            ) by {
                            assert(cones@[b2].vertices == cs[b2].vertices);
                            if b2 == b && s2 == s {
                                assert(map@[kk].0 == key);
                            }
                        }
                        assert forall|k: int| 0 <= k < map@.len() implies {
                            &&& n0 <= (#[trigger] map@[k]).1.0 < n0 + len
                            &&& map@[k].1.1 < 3
                            &&& slot_before(map@[k].1.0 - n0, map@[k].1.1 as int, b as int, s + 1)
                            &&& map@[k].0 == cone_edge(cones@[map@[k].1.0 - n0].vertices@, map@[k].1.1 as int)
                        } by {
                            assert(cones@[map@[k].1.0 - n0].vertices == cs[map@[k].1.0 - n0].vertices);
                        }
                    }
                },
                None => {
                    proof {
                        assert forall|x: int, y: int| 0 <= x < len && 0 <= y < 3 && slot_before(x, y, b as int, s as int) implies !#[trigger] same_edge(
                            cs,
                            b as int,
                            s as int,
                            x,
                            y,
                        ) by {
                            assert(has_key(ms, cone_edge(cs[x].vertices@, y)));
                            let k = choose|k: int| 0 <= k < ms.len() && #[trigger] ms[k].0 == cone_edge(cs[x].vertices@, y);
                            assert(ms[k].0 != key);
                        }
                        lemma_link_new(cs, n0 as int, b as int, s as int);
                    }
                    map.push((key, (n0 + b, s)));
                    proof {
                        assert forall|k: int| 0 <= k < map@.len() implies first_of_edge(cones@, (#[trigger] map@[k]).1.0 - n0, map@[k].1.1 as int) by {
                            if k < ms.len() {
                                assert(map@[k] == ms[k]);
                            }
                        }
                        assert forall|k1: int, k2: int| 0 <= k1 < k2 < map@.len() implies map@[k1].0 != map@[k2].0 by {
                            if k2 == ms.len() {
                                assert(map@[k1] == ms[k1]);
                            } else {
                                assert(map@[k1] == ms[k1] && map@[k2] == ms[k2]);
                            }
                        }
                        assert forall|k: int| 0 <= k < map@.len() implies {
                            &&& n0 <= (#[trigger] map@[k]).1.0 < n0 + len
                            &&& map@[k].1.1 < 3
                            &&& slot_before(map@[k].1.0 - n0, map@[k].1.1 as int, b as int, s + 1)
                            &&& map@[k].0 == cone_edge(cones@[map@[k].1.0 - n0].vertices@, map@[k].1.1 as int)
                        } by {
                            if k < ms.len() {
                                assert(map@[k] == ms[k]);
                            }
                        }
                        assert forall|b2: int, s2: int|
                            0 <= b2 < len && 0 <= s2 < 3 && slot_before(b2, s2, b as int, s + 1) implies has_key(
                                map@,
                                #[trigger] cone_edge(cones@[b2].vertices@, s2),
                            ) by {
                            if b2 == b && s2 == s {
                                assert(map@[ms.len() as int].0 == key);
                            } else {
                                assert(has_key(ms, cone_edge(cones@[b2].vertices@, s2)));
                                let k = choose|k: int| 0 <= k < ms.len() && #[trigger] ms[k].0 == cone_edge(cones@[b2].vertices@, s2);
                                assert(map@[k] == ms[k]);
                            }
                        }
                        assert forall|b2: int, s2: int|
                            0 <= b2 < len && 0 <= s2 < 3 && slot_before(b2, s2, b as int, s + 1)
                                implies #[trigger] passed_slot_ok(cones@, map@, n0 as int, b2, s2, b as int, s + 1) by {
                            if b2 == b && s2 == s {
                                assert(map@[ms.len() as int] == (key, ((n0 + b) as usize, s)));
                                assert forall|b3: int, s3: int|
                                    0 <= b3 && 0 <= s3 < 3 && slot_before(b3, s3, b as int, s + 1) && (b3 != b2 || s3 != s2)
                                        implies #[trigger] cone_edge(cones@[b3].vertices@, s3) != cone_edge(cones@[b2].vertices@, s2) by {
                                    if b3 < len {
                                        assert(has_key(ms, cone_edge(cones@[b3].vertices@, s3)));
                                    }
                                }
                            } else {
                                assert(passed_slot_ok(cs, ms, n0 as int, b2, s2, b as int, s as int));
                                if cones@[b2].neighbors[s2] is None {
                                    let k2 = choose|k2: int| 0 <= k2 < ms.len() && ms[k2] == (cone_edge(cs[b2].vertices@, s2), ((n0 + b2) as usize, s2 as usize));
                                    assert(map@[k2] == ms[k2]);
                                    assert forall|b3: int, s3: int|
                                        0 <= b3 && 0 <= s3 < 3 && slot_before(b3, s3, b as int, s + 1) && (b3 != b2 || s3 != s2)
                                            implies #[trigger] cone_edge(cones@[b3].vertices@, s3) != cone_edge(cones@[b2].vertices@, s2) by {
                                        if b3 == b && s3 == s {
                                            assert(has_key(ms, cone_edge(cs[b2].vertices@, s2))) by {
                                                assert(ms[k2].0 == cone_edge(cs[b2].vertices@, s2));
                                            }
                                        }
                                    }
                                }
                            }
                        }
                    }
                },
            }
            s += 1;
        }
        proof {
            lemma_link_next_cone(cones@, n0 as int, b as int);
            assert forall|b2: int, s2: int|
                0 <= b2 < len && 0 <= s2 < 3 && slot_before(b2, s2, b + 1, 0)
                    implies #[trigger] passed_slot_ok(cones@, map@, n0 as int, b2, s2, b + 1, 0) by {
                assert(slot_before(b2, s2, b as int, 3));
                assert(passed_slot_ok(cones@, map@, n0 as int, b2, s2, b as int, 3));
            }
        }
        b += 1;
    }
    proof {
        assert forall|b2: int, s2: int| 0 <= b2 < len && 0 <= s2 < 3 implies #[trigger] cone_linked(cones@, n0 as int, b2, s2) by {
            assert(passed_slot_ok(cones@, map@, n0 as int, b2, s2, len as int, 0));
            if cones@[b2].neighbors[s2] is None {
                assert forall|b3: int, s3: int|
                    0 <= b3 < cones@.len() && 0 <= s3 < 3 && (b3 != b2 || s3 != s2) implies #[trigger] cone_edge(
                        cones@[b3].vertices@,
                        s3,
                    ) != cone_edge(cones@[b2].vertices@, s2) by {
                    assert(slot_before(b3, s3, len as int, 0));
                }
            }
        }
    }
}

impl TetMesh {
    /// Builds one cone per boundary face, rewiring each tetrahedron behind a
    /// boundary face to its cone and linking cones that share an edge.
    /// Returns the cones; the cone for `boundary[b]` will take index
    /// `tetrahedra.len() + b`.
    #[verifier::spinoff_prover]
    fn build_cones<O: Fn((usize, usize, usize)) -> bool>(
        &mut self,
        p_idx: usize,
        cavity: &Vec<usize>,
        boundary: &Vec<(usize, usize)>,
        orient_negative: &O,
    ) -> (cones: Vec<Tetrahedron>)
        requires
            old(self).wf(),
            forall|k: int| 0 <= k < cavity@.len() ==> #[trigger] cavity@[k] < old(self).tetrahedra@.len(),
            boundary@ == cavity_boundary(old(self).tetrahedra@, cavity@, cavity@.len()),
            old(self).tetrahedra@.len() + boundary@.len() <= usize::MAX,
            forall|face: (usize, usize, usize)| call_requires(*orient_negative, (face,)),
        ensures
            ({
                let n0 = old(self).tetrahedra@.len() as int;
                let hi = n0 + boundary@.len();
                &&& final(self).tetrahedra@.len() == n0
                &&& final(self).vertex_to_tets == old(self).vertex_to_tets
                &&& cones@.len() == boundary@.len()
                &&& forall|t: int|
                    0 <= t < n0 && cavity@.contains(t as usize) ==> #[trigger] final(self).tetrahedra@[t]
                        == old(self).tetrahedra@[t]
                &&& forall|t: int|
                    0 <= t < n0 && !cavity@.contains(t as usize) ==> (#[trigger] final(self).tetrahedra@[t]).vertices
                        == old(self).tetrahedra@[t].vertices
                &&& forall|t: int, i: int|
                    0 <= t < n0 && !cavity@.contains(t as usize) && 0 <= i < 4 ==> relinked(
                        old(self).tetrahedra@,
                        boundary@,
                        cavity@,
                        n0,
                        t,
                        i,
                        #[trigger] final(self).tetrahedra@[t].neighbors[i],
                    ) && link_ok(final(self).tetrahedra@[t].neighbors[i], hi)
                &&& forall|b: int|
                    0 <= b < cones@.len() ==> cone_ok(
                        old(self).tetrahedra@,
                        orient_negative,
                        boundary@[b],
                        p_idx,
                        #[trigger] cones@[b],
                        n0,
                        hi,
                    )
                &&& forall|b: int, s: int|
                    0 <= b < cones@.len() && 0 <= s < 3 ==> #[trigger] cone_linked(cones@, n0, b, s)
                &&& forall|b: int, s: int|
                    0 <= b < cones@.len() && 0 <= s < 3 ==> #[trigger] link_exact(cones@, n0, b, s, cones@.len() as int, 0)
            }),
    {
        let n0 = self.tetrahedra.len();
        let ghost old_tets = self.tetrahedra@;
        let ghost cav = cavity@;
        let ghost bnd = boundary@;
        proof {
            lemma_boundary_in_cavity(old_tets, cav, cav.len());
        }
        let mut cones: Vec<Tetrahedron> = Vec::new();
        let mut b: usize = 0;
        while b < boundary.len()
            invariant
                old(self).wf(),
                n0 == old_tets.len(),
                old_tets == old(self).tetrahedra@,
                self.tetrahedra@.len() == n0,
                self.vertex_to_tets == old(self).vertex_to_tets,
                cav == cavity@,
                bnd == boundary@,
                n0 + bnd.len() <= usize::MAX,
                forall|face: (usize, usize, usize)| call_requires(*orient_negative, (face,)),
                forall|k: int| 0 <= k < cav.len() ==> #[trigger] cav[k] < n0,
                forall|c: int|
                    0 <= c < bnd.len() ==> cav.contains((#[trigger] bnd[c]).0) && bnd[c].1 < 4
                        && bounds_cavity(old_tets, cav, bnd[c].0, bnd[c].1 as int),
                b <= bnd.len(),
                cones@.len() == b,
                forall|t: int|
                    0 <= t < n0 && cav.contains(t as usize) ==> #[trigger] self.tetrahedra@[t] == old_tets[t],
                forall|t: int|
                    0 <= t < n0 && !cav.contains(t as usize) ==> (#[trigger] self.tetrahedra@[t]).vertices
                        == old_tets[t].vertices,
                forall|t: int, i: int|
                    0 <= t < n0 && !cav.contains(t as usize) && 0 <= i < 4 ==> #[trigger] self.tetrahedra@[t].neighbors[i]
                        == relink_target(old_tets, bnd, cav, n0 as int, t, i, b as nat),
                forall|t: int, i: int|
                    0 <= t < n0 && !cav.contains(t as usize) && 0 <= i < 4 ==> link_ok(
                        #[trigger] self.tetrahedra@[t].neighbors[i],
                        n0 + b,
                    ),
                forall|c: int|
                    0 <= c < b ==> cone_ok(
                        old_tets,
                        orient_negative,
                        bnd[c],
                        p_idx,
                        #[trigger] cones@[c],
                        n0 as int,
                        n0 + b,
                    ),
                forall|c: int, i: int| 0 <= c < b && 0 <= i < 3 ==> #[trigger] cones@[c].neighbors[i] is None,
            decreases bnd.len() - b,
        {
            let (t, f) = boundary[b];
            let tet = self.tetrahedra[t];
            proof {
                assert(bnd[b as int] == (t, f));
                assert(tet == old_tets[t as int]);
            }
            let fv = face_vertices(&tet.vertices, f);
            let new_idx = n0 + b;
            let negative = orient_negative(fv);
            let outer = tet.neighbors[f];
            let vertices = if negative {
                [fv.1, fv.0, fv.2, p_idx]
            } else {
                [fv.0, fv.1, fv.2, p_idx]
            };
            let ghost c0 = cones@;
            cones.push(Tetrahedron { vertices, neighbors: [None, None, None, outer] });
            proof {
                assert(cones@[b as int].vertices@ =~= cone_vertices(fv, p_idx, negative));
                assert(cone_ok(old_tets, orient_negative, bnd[b as int], p_idx, cones@[b as int], n0 as int, n0 + b + 1));
                assert forall|c: int| 0 <= c < b implies cone_ok(old_tets, orient_negative, bnd[c], p_idx,
                    #[trigger] cones@[c], n0 as int, n0 + b + 1) by {
                    assert(cones@[c] == c0[c]);
                }
                assert forall|c: int, i: int| 0 <= c < b + 1 && 0 <= i < 3 implies #[trigger] cones@[c].neighbors[i] is None by {
                    if c < b {
                        assert(cones@[c] == c0[c]);
                    }
                }
            }
            let ghost before_tets = self.tetrahedra@;
            proof {
                assert forall|c: usize, m2: usize| #[trigger] facing(old_tets, bnd, c, m2, (b + 1) as nat) == if c == t
                    && outer == Some(m2) {
                    facing(old_tets, bnd, c, m2, b as nat).push(b as int)
                } else {
                    facing(old_tets, bnd, c, m2, b as nat)
                } by {}
            }
            if let Some(m) = outer {
                proof {
                    assert(link_ok(old_tets[t as int].neighbors[f as int], n0 as int));
                    assert(!cav.contains(m));
                }
                let mut nt = self.tetrahedra[m];
                let ghost nt0 = nt;
                let ghost mut hit_slot: int = 4;
                let mut s: usize = 0;
                while s < 4
                    invariant_except_break
                        s <= 4,
                        nt == nt0,
                        hit_slot == 4,
                        forall|i: int| 0 <= i < s ==> nt0.neighbors[i] != Some(t),
                    ensures
                        nt.vertices == nt0.vertices,
                        0 <= hit_slot <= 4,
                        forall|i: int| 0 <= i < hit_slot ==> nt0.neighbors[i] != Some(t),
                        hit_slot < 4 ==> nt0.neighbors[hit_slot] == Some(t) && nt.neighbors[hit_slot] == Some(new_idx),
                        forall|i: int| 0 <= i < 4 && i != hit_slot ==> #[trigger] nt.neighbors[i] == nt0.neighbors[i],
                    decreases 4 - s,
                {
                    let hit = match nt.neighbors[s] {
                        Some(x) => x == t,
                        None => false,
                    };
                    if hit {
                        nt.neighbors[s] = Some(new_idx);
                        proof {
                            hit_slot = s as int;
                        }
                        break;
                    }
                    s += 1;
                }
                self.tetrahedra.set(m, nt);
                proof {
                    assert(nt0 == before_tets[m as int]);
                    lemma_relink_step(old_tets, bnd, cav, n0 as int, b as nat, t, m, nt0, nt, hit_slot);
                    assert forall|t2: int, i: int|
                        0 <= t2 < n0 && !cav.contains(t2 as usize) && 0 <= i < 4 implies #[trigger] self.tetrahedra@[t2].neighbors[i]
                            == relink_target(old_tets, bnd, cav, n0 as int, t2, i, (b + 1) as nat) && link_ok(
                            self.tetrahedra@[t2].neighbors[i], n0 + b + 1) by {
                        if t2 != m {
                            assert(self.tetrahedra@[t2] == before_tets[t2]);
                        }
                    }
                }
            } else {
                proof {
                    assert forall|t2: int, i: int|
                        0 <= t2 < n0 && !cav.contains(t2 as usize) && 0 <= i < 4 implies #[trigger] self.tetrahedra@[t2].neighbors[i]
                            == relink_target(old_tets, bnd, cav, n0 as int, t2, i, (b + 1) as nat) && link_ok(
                            self.tetrahedra@[t2].neighbors[i], n0 + b + 1) by {
                    }
                }
            }
            b += 1;
        }
        let ghost unlinked = cones@;
        link_cones(&mut cones, n0);
        proof {
            let hi = n0 + bnd.len();
            assert forall|c: int| 0 <= c < cones@.len() implies cone_ok(old_tets, orient_negative, bnd[c], p_idx,
                #[trigger] cones@[c], n0 as int, hi) by {
                assert(cone_ok(old_tets, orient_negative, bnd[c], p_idx, unlinked[c], n0 as int, hi));
                assert(cones@[c].vertices == unlinked[c].vertices);
                assert forall|i: int| 0 <= i < 3 implies cone_link(#[trigger] cones@[c].neighbors[i], n0 as int, hi) by {
                    assert(cone_linked(cones@, n0 as int, c, i));
                }
            }
        }
        cones
    }
}


/// Number of the first `i` slots of `vs` that hold `v`.
pub open spec fn occurrences(vs: Seq<usize>, v: usize, i: nat) -> nat
    decreases i,
{
    if i == 0 {
        0
    } else {
        occurrences(vs, v, (i - 1) as nat) + if vs[i - 1] == v {
            1nat
        } else {
            0nat
        }
    }
}

/// The incidences that the first `k` of `cones`, placed from index `lo` on,
/// add to the list of vertex `v`: each cone's index once per slot holding `v`.
pub open spec fn added_incidences(cones: Seq<Tetrahedron>, lo: nat, k: nat, v: usize) -> Seq<usize>
    decreases k,
{
    if k == 0 {
        Seq::empty()
    } else {
        added_incidences(cones, lo, (k - 1) as nat, v) + Seq::new(
            occurrences(cones[k - 1].vertices@, v, 4),
            |j: int| (lo + k - 1) as usize,
        )
    }
}

/// `v` occurs among the first `i` entries of `vs` exactly when it is counted.
pub proof fn lemma_occurrences(vs: Seq<usize>, v: usize, i: nat)
    requires
        i <= vs.len(),
    ensures
        occurrences(vs, v, i) > 0 <==> vs.take(i as int).contains(v),
    decreases i,
{
    if i > 0 {
        lemma_occurrences(vs, v, (i - 1) as nat);
        assert(vs.take(i as int) =~= vs.take(i - 1).push(vs[i - 1]));
        lemma_contains_push(vs.take(i - 1), vs[i - 1]);
    } else {
        assert(vs.take(0) =~= Seq::<usize>::empty());
    }
}

/// The incidences added for `v` name exactly the cones among the first `k`
/// that have `v` as a vertex.
#[verifier::spinoff_prover]
pub proof fn lemma_added_incidences(cones: Seq<Tetrahedron>, lo: nat, k: nat, v: usize)
    requires
        k <= cones.len(),
        lo + k <= usize::MAX,
    ensures
        forall|x: usize| #[trigger] added_incidences(cones, lo, k, v).contains(x) <==> (lo <= x < lo + k
            && cones[x - lo].vertices@.contains(v)),
    decreases k,
{
    if k > 0 {
        lemma_added_incidences(cones, lo, (k - 1) as nat, v);
        let prev = added_incidences(cones, lo, (k - 1) as nat, v);
        let vs = cones[k - 1].vertices@;
        let extra = Seq::new(occurrences(vs, v, 4), |j: int| (lo + k - 1) as usize);
        lemma_occurrences(vs, v, 4);
        assert(vs.take(4) =~= vs);
        assert(added_incidences(cones, lo, k, v) == prev + extra);
        assert forall|j: int| 0 <= j < extra.len() implies #[trigger] extra[j] == (lo + k - 1) as usize by {}
        assert(cones[k - 1].vertices@.contains(v) <==> extra.len() > 0);
        assert forall|x: usize| #[trigger] added_incidences(cones, lo, k, v).contains(x) <==> (lo <= x < lo + k
            && cones[x - lo].vertices@.contains(v)) by {
            let all = prev + extra;
            if all.contains(x) {
                let j = choose|j: int| 0 <= j < all.len() && all[j] == x;
                if j < prev.len() {
                    assert(prev[j] == x);
                    assert(prev.contains(x));
                } else {
                    assert(extra[j - prev.len()] == x);
                    assert(x == (lo + k - 1) as usize);
                    assert(x - lo == k - 1);
                }
                assert(lo <= x < lo + k && cones[x - lo].vertices@.contains(v));
            }
            if lo <= x < lo + k && cones[x - lo].vertices@.contains(v) {
                if x < lo + k - 1 {
                    assert(prev.contains(x));
                    let j = choose|j: int| 0 <= j < prev.len() && prev[j] == x;
                    assert(all[j] == x);
                } else {
                    assert(x - lo == k - 1);
                    assert(extra.len() > 0);
                    assert(all[prev.len() as int] == x);
                }
                assert(all.contains(x));
            }
        }
    }
}

/// A tetrahedron whose vertices are all `usize::MAX` and which has no neighbor.
pub open spec fn is_cleared(t: Tetrahedron) -> bool {
    &&& forall|i: int| 0 <= i < 4 ==> #[trigger] t.vertices[i] == usize::MAX
    &&& forall|i: int| 0 <= i < 4 ==> #[trigger] t.neighbors[i] is None
}

impl TetMesh {
    /// Marks every cavity tetrahedron as deleted.
    #[verifier::spinoff_prover]
    fn clear_cavity(&mut self, cavity: &Vec<usize>)
        requires
            forall|k: int| 0 <= k < cavity@.len() ==> #[trigger] cavity@[k] < old(self).tetrahedra@.len(),
        ensures
            final(self).tetrahedra@.len() == old(self).tetrahedra@.len(),
            final(self).vertex_to_tets == old(self).vertex_to_tets,
            forall|t: int|
                0 <= t < old(self).tetrahedra@.len() ==> if cavity@.contains(t as usize) {
                    is_cleared(#[trigger] final(self).tetrahedra@[t])
                } else {
                    final(self).tetrahedra@[t] == old(self).tetrahedra@[t]
                },
    {
        let ghost before = self.tetrahedra@;
        let n = self.tetrahedra.len();
        let mut c: usize = 0;
        while c < cavity.len()
            invariant
                c <= cavity@.len(),
                n == before.len(),
                self.tetrahedra@.len() == before.len(),
                self.vertex_to_tets == old(self).vertex_to_tets,
                before == old(self).tetrahedra@,
                forall|k: int| 0 <= k < cavity@.len() ==> #[trigger] cavity@[k] < before.len(),
                forall|t: int|
                    0 <= t < before.len() ==> if cavity@.take(c as int).contains(t as usize) {
                        is_cleared(#[trigger] self.tetrahedra@[t])
                    } else {
                        self.tetrahedra@[t] == before[t]
                    },
            decreases cavity@.len() - c,
        {
            let t = cavity[c];
            let ghost prev = self.tetrahedra@;
            let cleared = Tetrahedron {
                vertices: [usize::MAX, usize::MAX, usize::MAX, usize::MAX],
                neighbors: [None, None, None, None],
            };
            self.tetrahedra.set(t, cleared);
            proof {
                let t0 = cavity@.take(c as int);
                let t1 = cavity@.take(c + 1);
                assert(t1 =~= t0.push(t));
                lemma_contains_push(t0, t);
                assert(is_cleared(cleared));
                assert forall|t2: int|
                    0 <= t2 < before.len() implies if t1.contains(t2 as usize) {
                        is_cleared(#[trigger] self.tetrahedra@[t2])
                    } else {
                        self.tetrahedra@[t2] == before[t2]
                    } by {
                    assert(t2 as usize as int == t2);
                    if t2 != t {
                        assert(self.tetrahedra@[t2] == prev[t2]);
                        assert(t1.contains(t2 as usize) == t0.contains(t2 as usize));
                    } else {
                        assert(t1.contains(t2 as usize));
                    }
                }
            }
            c += 1;
        }
        proof {
            assert(cavity@.take(cavity@.len() as int) =~= cavity@);
        }
    }

    /// Appends the cones as new tetrahedra and records each of them for its
    /// vertices, once per vertex slot, skipping reserved vertices.
    #[verifier::spinoff_prover]
    fn append_cones(&mut self, cones: &Vec<Tetrahedron>)
        requires
            old(self).incidences_ok(),
            old(self).tetrahedra@.len() + cones@.len() <= usize::MAX,
            forall|t: int, i: int|
                0 <= t < old(self).tetrahedra@.len() && 0 <= i < 4 ==> link_ok(
                    #[trigger] old(self).tetrahedra@[t].neighbors[i],
                    (old(self).tetrahedra@.len() + cones@.len()) as int,
                ),
            forall|t: int, i: int|
                0 <= t < old(self).tetrahedra@.len() && 0 <= i < 4 ==> (#[trigger] old(self).tetrahedra@[t].vertices[i])
                    < old(self).vertex_to_tets@.len() || is_reserved(old(self).tetrahedra@[t].vertices[i]),
            forall|k: int, i: int|
                0 <= k < cones@.len() && 0 <= i < 4 ==> link_ok(
                    #[trigger] cones@[k].neighbors[i],
                    (old(self).tetrahedra@.len() + cones@.len()) as int,
                ),
            forall|k: int, i: int|
                0 <= k < cones@.len() && 0 <= i < 4 ==> (#[trigger] cones@[k].vertices[i])
                    < old(self).vertex_to_tets@.len() || is_reserved(cones@[k].vertices[i]),
        ensures
            final(self).wf(),
            final(self).tetrahedra@ == old(self).tetrahedra@ + cones@,
            final(self).vertex_to_tets@.len() == old(self).vertex_to_tets@.len(),
            forall|v: int|
                0 <= v < old(self).vertex_to_tets@.len() ==> (#[trigger] final(self).vertex_to_tets@[v])@ == if is_reserved(
                    v as usize,
                ) {
                    old(self).vertex_to_tets@[v]@
                } else {
                    old(self).vertex_to_tets@[v]@ + added_incidences(
                        cones@,
                        old(self).tetrahedra@.len(),
                        cones@.len(),
                        v as usize,
                    )
                },
    {
        let n0 = self.tetrahedra.len();
        let ghost old_tets = self.tetrahedra@;
        let ghost old_vtt = self.vertex_to_tets@;
        let nv = self.vertex_to_tets.len();
        let mut k: usize = 0;
        while k < cones.len()
            invariant
                n0 == old_tets.len(),
                old_tets == old(self).tetrahedra@,
                old_vtt == old(self).vertex_to_tets@,
                nv == old_vtt.len(),
                n0 + cones@.len() <= usize::MAX,
                k <= cones@.len(),
                self.tetrahedra@ == old_tets + cones@.take(k as int),
                self.vertex_to_tets@.len() == nv,
                forall|v: int|
                    0 <= v < nv ==> (#[trigger] self.vertex_to_tets@[v])@ == if is_reserved(v as usize) {
                        old_vtt[v]@
                    } else {
                        old_vtt[v]@ + added_incidences(cones@, n0 as nat, k as nat, v as usize)
                    },
                forall|v: int, j: int|
                    0 <= v < nv && 0 <= j < self.vertex_to_tets@[v]@.len() ==> #[trigger] self.vertex_to_tets@[v]@[j]
                        < n0 + k,
                forall|t: int, i: int|
                    0 <= t < n0 && 0 <= i < 4 ==> (#[trigger] old_tets[t].vertices[i]) < nv || is_reserved(
                        old_tets[t].vertices[i],
                    ),
                forall|c: int, i: int|
                    0 <= c < cones@.len() && 0 <= i < 4 ==> (#[trigger] cones@[c].vertices[i]) < nv
                        || is_reserved(cones@[c].vertices[i]),
            decreases cones@.len() - k,
        {
            let cone = cones[k];
            let idx = n0 + k;
            let ghost vtt_k = self.vertex_to_tets@;
            let mut i: usize = 0;
            while i < 4
                invariant
                    i <= 4,
                    self.tetrahedra@ == old_tets + cones@.take(k as int),
                    cone == cones@[k as int],
                    idx == n0 + k,
                    idx < usize::MAX,
                    nv == old_vtt.len(),
                    self.vertex_to_tets@.len() == nv,
                    forall|c: int, i2: int|
                        0 <= c < cones@.len() && 0 <= i2 < 4 ==> (#[trigger] cones@[c].vertices[i2]) < nv
                            || is_reserved(cones@[c].vertices[i2]),
                    k < cones@.len(),
                    forall|v: int|
                        0 <= v < nv ==> (#[trigger] self.vertex_to_tets@[v])@ == if is_reserved(v as usize) {
                            vtt_k[v]@
                        } else {
                            vtt_k[v]@ + Seq::new(occurrences(cone.vertices@, v as usize, i as nat), |j: int| idx)
                        },
                    forall|v: int, j: int|
                        0 <= v < nv && 0 <= j < vtt_k[v]@.len() ==> #[trigger] vtt_k[v]@[j] < n0 + k,
                    forall|v: int, j: int|
                        0 <= v < nv && 0 <= j < self.vertex_to_tets@[v]@.len() ==> #[trigger] self.vertex_to_tets@[v]@[j]
                            <= n0 + k,
                decreases 4 - i,
            {
                let w = cone.vertices[i];
                let ghost vtt0 = self.vertex_to_tets@;
                if w < usize::MAX - 3 {
                    proof {
                        assert(cones@[k as int].vertices[i as int] == w);
                    }
                    let mut inner: Vec<usize> = Vec::new();
                    self.vertex_to_tets.set_and_swap(w, &mut inner);
                    inner.push(idx);
                    self.vertex_to_tets.set_and_swap(w, &mut inner);
                    proof {
                        assert forall|v: int| 0 <= v < nv implies (#[trigger] self.vertex_to_tets@[v])@ == if is_reserved(
                            v as usize,
                        ) {
                            vtt_k[v]@
                        } else {
                            vtt_k[v]@ + Seq::new(occurrences(cone.vertices@, v as usize, (i + 1) as nat), |j: int| idx)
                        } by {
                            if v == w {
                                assert(Seq::new(occurrences(cone.vertices@, v as usize, (i + 1) as nat), |j: int| idx)
                                    =~= Seq::new(occurrences(cone.vertices@, v as usize, i as nat), |j: int| idx).push(idx));
                            } else {
                                assert(self.vertex_to_tets@[v] == vtt0[v]);
                            }
                        }
                        assert forall|v: int, j: int|
                            0 <= v < nv && 0 <= j < self.vertex_to_tets@[v]@.len() implies #[trigger] self.vertex_to_tets@[v]@[j]
                                <= n0 + k by {
                            if v != w {
                                assert(self.vertex_to_tets@[v] == vtt0[v]);
                            } else if j < vtt0[v]@.len() {
                                assert(self.vertex_to_tets@[v]@[j] == vtt0[v]@[j]);
                            }
                        }
                    }
                } else {
                    proof {
                        assert forall|v: int| 0 <= v < nv implies (#[trigger] self.vertex_to_tets@[v])@ == if is_reserved(
                            v as usize,
                        ) {
                            vtt_k[v]@
                        } else {
                            vtt_k[v]@ + Seq::new(occurrences(cone.vertices@, v as usize, (i + 1) as nat), |j: int| idx)
                        } by {
                            if !is_reserved(v as usize) {
                                assert(cone.vertices@[i as int] != v);
                            }
                        }
                    }
                }
                i += 1;
            }
            let ghost t0 = self.tetrahedra@;
            self.tetrahedra.push(cone);
            proof {
                assert(cones@.take(k + 1) =~= cones@.take(k as int).push(cone));
                assert(self.tetrahedra@ =~= old_tets + cones@.take(k + 1));
                assert forall|v: int| 0 <= v < nv implies (#[trigger] self.vertex_to_tets@[v])@ == if is_reserved(v as usize) {
                    old_vtt[v]@
                } else {
                    old_vtt[v]@ + added_incidences(cones@, n0 as nat, (k + 1) as nat, v as usize)
                } by {
                    if !is_reserved(v as usize) {
                        assert(added_incidences(cones@, n0 as nat, (k + 1) as nat, v as usize)
                            == added_incidences(cones@, n0 as nat, k as nat, v as usize) + Seq::new(
                            occurrences(cones@[k as int].vertices@, v as usize, 4),
                            |j: int| (n0 + k) as usize,
                        ));
                        assert(Seq::new(occurrences(cones@[k as int].vertices@, v as usize, 4), |j: int| (n0 + k) as usize)
                            =~= Seq::new(occurrences(cone.vertices@, v as usize, 4), |j: int| idx));
                    }
                }
            }
            k += 1;
        }
        proof {
            assert(cones@.take(cones@.len() as int) =~= cones@);
            let tets = self.tetrahedra@;
            assert forall|t: int, i: int| 0 <= t < tets.len() && 0 <= i < 4 implies link_ok(
                #[trigger] tets[t].neighbors[i],
                tets.len() as int,
            ) by {
                if t < n0 {
                    assert(tets[t] == old_tets[t]);
                } else {
                    assert(tets[t] == cones@[t - n0]);
                }
            }
            assert forall|t: int, i: int| 0 <= t < tets.len() && 0 <= i < 4 implies (#[trigger] tets[t].vertices[i])
                < self.vertex_to_tets@.len() || is_reserved(tets[t].vertices[i]) by {
                if t < n0 {
                    assert(tets[t] == old_tets[t]);
                } else {
                    assert(tets[t] == cones@[t - n0]);
                }
            }
        }
    }
}


/// The link in slot `i` of tetrahedron `t`.
pub open spec fn link_at(tets: Seq<Tetrahedron>, t: int, i: int) -> Option<usize> {
    tets[t].neighbors[i]
}

/// Every link is returned: a tetrahedron that `t` names through one of its
/// slots names `t` back through one of its own.
pub open spec fn links_symmetric(tets: Seq<Tetrahedron>) -> bool {
    forall|t: int, i: int|
        0 <= t < tets.len() && 0 <= i < 4 && (#[trigger] link_at(tets, t, i)) is Some ==> {
            let u = tets[t].neighbors[i]->Some_0;
            &&& (u as int) < tets.len()
            &&& exists|i2: int| 0 <= i2 < 4 && tets[u as int].neighbors[i2] == Some(t as usize)
        }
}

/// No tetrahedron names another through two of its slots.
pub open spec fn links_distinct(tets: Seq<Tetrahedron>) -> bool {
    forall|t: int, i: int, i2: int|
        0 <= t < tets.len() && 0 <= i < i2 < 4 && (#[trigger] link_at(tets, t, i)) is Some ==> tets[t].neighbors[i]
            != #[trigger] link_at(tets, t, i2)
}

/// Deleted tetrahedra have no links.
pub open spec fn deleted_unlinked(tets: Seq<Tetrahedron>) -> bool {
    forall|t: int, i: int| 0 <= t < tets.len() && 0 <= i < 4 && tets[t].deleted() ==> (#[trigger] link_at(tets, t, i)) is None
}

/// The links of the mesh pair up: symmetric, never doubled, and absent on
/// deleted tetrahedra.
pub open spec fn links_paired(tets: Seq<Tetrahedron>) -> bool {
    &&& links_symmetric(tets)
    &&& links_distinct(tets)
    &&& deleted_unlinked(tets)
}

/// Slot `(b2, s2)` is the one other cone slot showing the edge of slot
/// `(b, s)`, and it belongs to another cone.
pub open spec fn edge_partner(cones: Seq<Tetrahedron>, b: int, s: int, b2: int, s2: int) -> bool {
    &&& 0 <= b2 < cones.len()
    &&& 0 <= s2 < 3
    &&& b2 != b
    &&& cone_edge(cones[b2].vertices@, s2) == cone_edge(cones[b].vertices@, s)
    &&& forall|x: int, y: int|
        0 <= x < cones.len() && 0 <= y < 3 && (x != b || y != s) && (x != b2 || y != s2) ==> #[trigger] cone_edge(
            cones[x].vertices@,
            y,
        ) != cone_edge(cones[b].vertices@, s)
}

/// Slot `(b, s)` has an edge partner.
pub open spec fn has_partner(cones: Seq<Tetrahedron>, b: int, s: int) -> bool {
    exists|b2: int, s2: int| #[trigger] edge_partner(cones, b, s, b2, s2)
}

/// Cones `b` and `b2` share two edges.
pub open spec fn share_two_edges(cones: Seq<Tetrahedron>, b: int, b2: int) -> bool {
    exists|s: int, s2: int, y: int, y2: int|
        0 <= s < 3 && 0 <= y < 3 && s != y && 0 <= s2 < 3 && 0 <= y2 < 3 && #[trigger] cone_edge(cones[b].vertices@, s)
            == #[trigger] cone_edge(cones[b2].vertices@, s2) && #[trigger] cone_edge(cones[b].vertices@, y)
            == #[trigger] cone_edge(cones[b2].vertices@, y2)
}

/// The cones close up around the new point, as they do over a cavity whose
/// boundary is a closed surface: every edge of a cone's base face is the
/// edge of exactly one other cone, and two cones share at most one edge.
pub open spec fn cones_closed(cones: Seq<Tetrahedron>) -> bool {
    &&& forall|b: int, s: int| 0 <= b < cones.len() && 0 <= s < 3 ==> #[trigger] has_partner(cones, b, s)
    &&& forall|b: int, b2: int|
        0 <= b < cones.len() && 0 <= b2 < cones.len() && b != b2 ==> !#[trigger] share_two_edges(cones, b, b2)
}

/// `facing` lists, in increasing order, exactly the positions below `n` of
/// the faces of `c` with `m` behind.
pub proof fn lemma_facing_exact(tets: Seq<Tetrahedron>, bnd: Seq<(usize, usize)>, c: usize, m: usize, n: nat)
    ensures
        forall|k: int|
            0 <= k < facing(tets, bnd, c, m, n).len() ==> {
                let b = #[trigger] facing(tets, bnd, c, m, n)[k];
                &&& 0 <= b < n
                &&& bnd[b].0 == c
                &&& tets[c as int].neighbors[bnd[b].1 as int] == Some(m)
            },
        forall|b: int|
            0 <= b < n && bnd[b].0 == c && tets[c as int].neighbors[bnd[b].1 as int] == Some(m) ==> #[trigger] facing(
                tets,
                bnd,
                c,
                m,
                n,
            ).contains(b),
        forall|k: int, k2: int|
            0 <= k < k2 < facing(tets, bnd, c, m, n).len() ==> #[trigger] facing(tets, bnd, c, m, n)[k] < #[trigger] facing(
                tets,
                bnd,
                c,
                m,
                n,
            )[k2],
    decreases n,
{
    if n > 0 {
        lemma_facing_exact(tets, bnd, c, m, (n - 1) as nat);
        let prev = facing(tets, bnd, c, m, (n - 1) as nat);
        assert forall|b: int|
            0 <= b < n && bnd[b].0 == c && tets[c as int].neighbors[bnd[b].1 as int] == Some(m) implies #[trigger] facing(
                tets,
                bnd,
                c,
                m,
                n,
            ).contains(b) by {
            if b < n - 1 {
                assert(prev.contains(b));
                let k = choose|k: int| 0 <= k < prev.len() && prev[k] == b;
                assert(facing(tets, bnd, c, m, n)[k] == b);
            } else {
                assert(facing(tets, bnd, c, m, n)[prev.len() as int] == b);
            }
        }
    }
}

/// The faces listed by `faces_bounding` are all the bounding faces of `t`
/// among the first `f`, each once.
pub proof fn lemma_faces_bounding_exact(tets: Seq<Tetrahedron>, cav: Seq<usize>, t: usize, f: nat)
    requires
        f <= 4,
    ensures
        forall|g: int| 0 <= g < f && bounds_cavity(tets, cav, t, g) ==> #[trigger] faces_bounding(tets, cav, t, f).contains(
            (t, g as usize),
        ),
        faces_bounding(tets, cav, t, f).no_duplicates(),
    decreases f,
{
    lemma_faces_bounding(tets, cav, t, f);
    if f > 0 {
        lemma_faces_bounding_exact(tets, cav, t, (f - 1) as nat);
        lemma_faces_bounding(tets, cav, t, (f - 1) as nat);
        let prev = faces_bounding(tets, cav, t, (f - 1) as nat);
        let cur = faces_bounding(tets, cav, t, f);
        assert forall|g: int| 0 <= g < f && bounds_cavity(tets, cav, t, g) implies #[trigger] cur.contains((t, g as usize)) by {
            if g < f - 1 {
                assert(prev.contains((t, g as usize)));
                let k = choose|k: int| 0 <= k < prev.len() && prev[k] == (t, g as usize);
                assert(cur[k] == prev[k]);
            } else {
                assert(cur[prev.len() as int] == (t, g as usize));
            }
        }
        assert forall|i: int, j: int| 0 <= i < j < cur.len() implies cur[i] != cur[j] by {
            if j == prev.len() {
                assert(cur[i] == prev[i]);
                assert(prev[i].1 < f - 1);
            } else {
                assert(cur[i] == prev[i]);
                assert(cur[j] == prev[j]);
            }
        }
    }
}

/// The cavity boundary holds every bounding face of every cavity
/// tetrahedron, and holds each once when the cavity lists each tetrahedron once.
pub proof fn lemma_boundary_exact(tets: Seq<Tetrahedron>, cav: Seq<usize>, k: nat)
    requires
        k <= cav.len(),
        cav.no_duplicates(),
    ensures
        forall|j: int, g: int| 0 <= j < k && 0 <= g < 4 && bounds_cavity(tets, cav, cav[j], g) ==> #[trigger] cavity_boundary(
            tets,
            cav,
            k,
        ).contains((#[trigger] cav[j], g as usize)),
        cavity_boundary(tets, cav, k).no_duplicates(),
        forall|b: int| 0 <= b < cavity_boundary(tets, cav, k).len() ==> exists|j: int|
            0 <= j < k && #[trigger] cav[j] == (#[trigger] cavity_boundary(tets, cav, k)[b]).0,
    decreases k,
{
    if k > 0 {
        lemma_boundary_exact(tets, cav, (k - 1) as nat);
        let t = cav[k - 1];
        lemma_faces_bounding(tets, cav, t, 4);
        lemma_faces_bounding_exact(tets, cav, t, 4);
        let prev = cavity_boundary(tets, cav, (k - 1) as nat);
        let fb = faces_bounding(tets, cav, t, 4);
        let cur = cavity_boundary(tets, cav, k);
        assert(cur == prev + fb);
        assert forall|j: int, g: int| 0 <= j < k && 0 <= g < 4 && bounds_cavity(tets, cav, cav[j], g) implies #[trigger] cur.contains(
            (#[trigger] cav[j], g as usize),
        ) by {
            if j < k - 1 {
                assert(prev.contains((cav[j], g as usize)));
                let x = choose|x: int| 0 <= x < prev.len() && prev[x] == (cav[j], g as usize);
                assert(cur[x] == prev[x]);
            } else {
                assert(fb.contains((t, g as usize)));
                let x = choose|x: int| 0 <= x < fb.len() && fb[x] == (t, g as usize);
                assert(cur[prev.len() + x] == fb[x]);
            }
        }
        assert forall|b: int| 0 <= b < cur.len() implies exists|j: int| 0 <= j < k && #[trigger] cav[j] == (
        #[trigger] cur[b]).0 by {
            if b < prev.len() {
                assert(cur[b] == prev[b]);
                let x = choose|x: int| 0 <= x < k - 1 && #[trigger] cav[x] == prev[b].0;
                assert(cav[x] == cur[b].0);
            } else {
                assert(cur[b] == fb[b - prev.len()]);
                assert(cav[k - 1] == cur[b].0);
            }
        }
        assert forall|i: int, j: int| 0 <= i < j < cur.len() implies cur[i] != cur[j] by {
            if j < prev.len() {
                assert(cur[i] == prev[i]);
                assert(cur[j] == prev[j]);
            } else if i >= prev.len() {
                assert(cur[i] == fb[i - prev.len()]);
                assert(cur[j] == fb[j - prev.len()]);
            } else {
                assert(cur[i] == prev[i]);
                assert(cur[j] == fb[j - prev.len()]);
                assert(prev[i] == prev[i]);
                let x = choose|x: int| 0 <= x < k - 1 && #[trigger] cav[x] == prev[i].0;
                assert(cav[x] != cav[k - 1]);
            }
        }
    }
}

/// With paired links, a cavity tetrahedron `c` whose face `f` has the outside
/// tetrahedron `m` behind it has exactly one boundary entry facing `m`: the
/// entry for that face.
proof fn lemma_facing_single(old: Seq<Tetrahedron>, cav: Seq<usize>, c: usize, f: int, m: usize)
    requires
        cav.no_duplicates(),
        cav.contains(c),
        !cav.contains(m),
        0 <= c < old.len(),
        0 <= f < 4,
        old[c as int].neighbors[f] == Some(m),
        links_distinct(old),
    ensures
        ({
            let bnd = cavity_boundary(old, cav, cav.len());
            let fs = facing(old, bnd, c, m, bnd.len());
            &&& fs.len() == 1
            &&& 0 <= fs[0] < bnd.len()
            &&& bnd[fs[0]] == (c, f as usize)
        }),
{
    let bnd = cavity_boundary(old, cav, cav.len());
    lemma_boundary_exact(old, cav, cav.len());
    lemma_boundary_in_cavity(old, cav, cav.len());
    lemma_facing_exact(old, bnd, c, m, bnd.len());
    let fs = facing(old, bnd, c, m, bnd.len());
    let j = choose|j: int| 0 <= j < cav.len() && cav[j] == c;
    assert(bounds_cavity(old, cav, cav[j], f));
    assert(bnd.contains((cav[j], f as usize)));
    let b = choose|b: int| 0 <= b < bnd.len() && bnd[b] == (c, f as usize);
    assert(fs.contains(b));
    assert forall|k: int| 0 <= k < fs.len() implies #[trigger] fs[k] == b by {
        let b2 = fs[k];
        let f2 = bnd[b2].1 as int;
        assert(bnd[b2].1 < 4);
        if f2 != f {
            if f2 < f {
                assert(link_at(old, c as int, f2) != link_at(old, c as int, f));
            } else {
                assert(link_at(old, c as int, f) != link_at(old, c as int, f2));
            }
        }
        assert(bnd[b2] == bnd[b]);
    }
    if fs.len() > 1 {
        assert(fs[0] < fs[1]);
    }
}

/// A slot of a tetrahedron with distinct links is the first of its slots
/// that names its neighbor.
proof fn lemma_rank_zero(old: Seq<Tetrahedron>, t: int, i: int, c: usize)
    requires
        links_distinct(old),
        0 <= t < old.len(),
        0 <= i < 4,
        old[t].neighbors[i] == Some(c),
    ensures
        slot_rank(old[t], c, i) == 0,
{
    assert forall|i2: int| 0 <= i2 < i implies old[t].neighbors[i2] != Some(c) by {
        if old[t].neighbors[i2] == Some(c) {
            assert(link_at(old, t, i2) != link_at(old, t, i));
        }
    }
}

/// The facts about a mesh `tets` that replaced the cavity `cav` of `old` by
/// cones over its boundary, as `insert_vertex` leaves it.
#[verifier::opaque]
pub open spec fn cone_replacement<O: Fn((usize, usize, usize)) -> bool>(
    old: Seq<Tetrahedron>,
    tets: Seq<Tetrahedron>,
    cav: Seq<usize>,
    orient_negative: &O,
    p: usize,
) -> bool {
    let n0 = old.len() as int;
    let bnd = cavity_boundary(old, cav, cav.len());
    let hi = n0 + bnd.len();
    &&& hi <= usize::MAX
    &&& tets.len() == hi
    &&& cav.no_duplicates()
    &&& forall|k: int| 0 <= k < cav.len() ==> #[trigger] cav[k] < old.len()
    &&& forall|t: int, i: int| 0 <= t < old.len() && 0 <= i < 4 ==> link_ok(#[trigger] old[t].neighbors[i], old.len() as int)
    &&& forall|t: int| 0 <= t < n0 && cav.contains(t as usize) ==> is_cleared(#[trigger] tets[t])
    &&& forall|t: int| 0 <= t < n0 && !cav.contains(t as usize) ==> (#[trigger] tets[t]).vertices == old[t].vertices
    &&& forall|t: int, i: int|
        0 <= t < n0 && !cav.contains(t as usize) && 0 <= i < 4 ==> relinked(old, bnd, cav, n0, t, i,
            #[trigger] tets[t].neighbors[i])
    &&& forall|b: int| 0 <= b < bnd.len() ==> cone_ok(old, orient_negative, bnd[b], p, #[trigger] tets[n0 + b], n0, hi)
}

/// A link of an outside tetrahedron is returned after the insertion.
#[verifier::spinoff_prover]
proof fn lemma_outside_link_returned<O: Fn((usize, usize, usize)) -> bool>(
    old: Seq<Tetrahedron>,
    tets: Seq<Tetrahedron>,
    cav: Seq<usize>,
    orient_negative: &O,
    p: usize,
    t: int,
    i: int,
)
    requires
        cone_replacement(old, tets, cav, orient_negative, p),
        links_paired(old),
        0 <= t < old.len(),
        !cav.contains(t as usize),
        0 <= i < 4,
        tets[t].neighbors[i] is Some,
    ensures
        ({
            let u = tets[t].neighbors[i]->Some_0;
            &&& (u as int) < tets.len()
            &&& exists|i2: int| 0 <= i2 < 4 && #[trigger] tets[u as int].neighbors[i2] == Some(t as usize)
        }),
        cav.contains(old[t].neighbors[i]->Some_0) ==> exists|b: int|
            0 <= b < cavity_boundary(old, cav, cav.len()).len() && (#[trigger] cavity_boundary(old, cav, cav.len())[b]).0
                == old[t].neighbors[i]->Some_0 && tets[t].neighbors[i] == Some((old.len() + b) as usize),
        !cav.contains(old[t].neighbors[i]->Some_0) ==> tets[t].neighbors[i] == old[t].neighbors[i]
            && (old[t].neighbors[i]->Some_0 as int) < old.len(),
{
    let n0 = old.len() as int;
    let bnd = cavity_boundary(old, cav, cav.len());
    let hi = n0 + bnd.len();
    assert(relinked(old, bnd, cav, n0, t, i, tets[t].neighbors[i]) && link_ok(old[t].neighbors[i], n0)
        && cav.no_duplicates() && tets.len() == hi && hi <= usize::MAX) by {
        reveal(cone_replacement);
    }
    let c = old[t].neighbors[i]->Some_0;
    assert(link_at(old, t, i) is Some);
    assert(exists|i2: int| 0 <= i2 < 4 && old[c as int].neighbors[i2] == Some(t as usize));
    let f = choose|i2: int| 0 <= i2 < 4 && old[c as int].neighbors[i2] == Some(t as usize);
    if cav.contains(c) {
        lemma_facing_single(old, cav, c, f, t as usize);
        lemma_rank_zero(old, t, i, c);
        let b = facing(old, bnd, c, t as usize, bnd.len())[0];
        assert(tets[t].neighbors[i] == Some((n0 + b) as usize));
        assert(cone_ok(old, orient_negative, bnd[b], p, tets[n0 + b], n0, hi)) by {
            reveal(cone_replacement);
        }
        assert(tets[n0 + b].neighbors[3] == Some(t as usize));
        let u = tets[t].neighbors[i]->Some_0;
        assert(u as int == n0 + b);
        assert(tets[u as int].neighbors[3] == Some(t as usize));
        assert((u as int) < tets.len());
        assert(bnd[b].0 == c);
    } else {
        assert(old[c as int].neighbors[f] == Some(t as usize));
        assert(relinked(old, bnd, cav, n0, c as int, f, tets[c as int].neighbors[f])) by {
            reveal(cone_replacement);
        }
        assert(tets[c as int].neighbors[f] == Some(t as usize));
        assert(link_ok(old[t].neighbors[i], n0));
        assert(tets[t].neighbors[i] == Some(c));
    }
}

/// A link of a cone is returned after the insertion.
proof fn lemma_cone_link_returned<O: Fn((usize, usize, usize)) -> bool>(
    old: Seq<Tetrahedron>,
    tets: Seq<Tetrahedron>,
    cav: Seq<usize>,
    orient_negative: &O,
    p: usize,
    b: int,
    i: int,
)
    requires
        cone_replacement(old, tets, cav, orient_negative, p),
        links_paired(old),
        forall|x: int, s: int|
            0 <= x < cavity_boundary(old, cav, cav.len()).len() && 0 <= s < 3 ==> #[trigger] cone_linked(
                tets.subrange(old.len() as int, tets.len() as int),
                old.len() as int,
                x,
                s,
            ),
        cones_closed(tets.subrange(old.len() as int, tets.len() as int)),
        0 <= b < cavity_boundary(old, cav, cav.len()).len(),
        0 <= i < 4,
        tets[old.len() + b].neighbors[i] is Some,
    ensures
        ({
            let u = tets[old.len() + b].neighbors[i]->Some_0;
            &&& (u as int) < tets.len()
            &&& exists|i2: int| 0 <= i2 < 4 && #[trigger] tets[u as int].neighbors[i2] == Some((old.len() + b) as usize)
        }),
        i == 3 ==> (tets[old.len() + b].neighbors[i]->Some_0 as int) < old.len(),
        i < 3 ==> old.len() <= (tets[old.len() + b].neighbors[i]->Some_0 as int),
{
    let n0 = old.len() as int;
    let bnd = cavity_boundary(old, cav, cav.len());
    let hi = n0 + bnd.len();
    let cones = tets.subrange(n0, hi);
    assert(cone_ok(old, orient_negative, bnd[b], p, tets[n0 + b], n0, hi) && tets.len() == hi && hi <= usize::MAX
        && cav.no_duplicates()) by {
        reveal(cone_replacement);
    }
    lemma_boundary_in_cavity(old, cav, cav.len());
    assert(cones[b] == tets[n0 + b]);
    if i == 3 {
        let (c, f) = bnd[b];
        let m = old[c as int].neighbors[f as int]->Some_0;
        assert(bounds_cavity(old, cav, c, f as int));
        assert(link_ok(old[c as int].neighbors[f as int], n0) && (c as int) < n0) by {
            reveal(cone_replacement);
            let j = choose|j: int| 0 <= j < cav.len() && cav[j] == c;
        }
        assert(link_at(old, c as int, f as int) is Some);
        assert(exists|i2: int| 0 <= i2 < 4 && old[m as int].neighbors[i2] == Some(c));
        let i2 = choose|i2: int| 0 <= i2 < 4 && old[m as int].neighbors[i2] == Some(c);
        lemma_facing_single(old, cav, c, f as int, m);
        lemma_rank_zero(old, m as int, i2, c);
        lemma_boundary_exact(old, cav, cav.len());
        let fs = facing(old, bnd, c, m, bnd.len());
        assert(bnd[fs[0]] == bnd[b]);
        assert(fs[0] == b);
        assert(relinked(old, bnd, cav, n0, m as int, i2, tets[m as int].neighbors[i2])) by {
            reveal(cone_replacement);
        }
        assert(tets[m as int].neighbors[i2] == Some((n0 + b) as usize));
    } else {
        assert(cone_linked(cones, n0, b, i));
        assert(has_partner(cones, b, i));
        let (b2, s2) = choose|b2: int, s2: int| #[trigger] edge_partner(cones, b, i, b2, s2);
        lemma_cone_links_mutual(cones, n0, b, i, b2, s2);
        assert(cones[b2] == tets[n0 + b2]);
        assert(tets[n0 + b2].neighbors[s2] == Some((n0 + b) as usize));
    }
}

/// Replacing a cavity by cones that close up keeps the links of the mesh
/// paired.
proof fn lemma_insert_links_paired<O: Fn((usize, usize, usize)) -> bool>(
    old: Seq<Tetrahedron>,
    tets: Seq<Tetrahedron>,
    cav: Seq<usize>,
    orient_negative: &O,
    p: usize,
)
    requires
        cone_replacement(old, tets, cav, orient_negative, p),
        links_paired(old),
        !is_reserved(p),
        forall|x: int, s: int|
            0 <= x < cavity_boundary(old, cav, cav.len()).len() && 0 <= s < 3 ==> #[trigger] cone_linked(
                tets.subrange(old.len() as int, tets.len() as int),
                old.len() as int,
                x,
                s,
            ),
        cones_closed(tets.subrange(old.len() as int, tets.len() as int)),
    ensures
        links_paired(tets),
{
    let n0 = old.len() as int;
    let bnd = cavity_boundary(old, cav, cav.len());
    let hi = n0 + bnd.len();
    assert(tets.len() == hi) by {
        reveal(cone_replacement);
    }
    assert forall|t: int, i: int| 0 <= t < tets.len() && 0 <= i < 4 && (#[trigger] link_at(tets, t, i)) is Some implies {
        let u = tets[t].neighbors[i]->Some_0;
        &&& (u as int) < tets.len()
        &&& exists|i2: int| 0 <= i2 < 4 && tets[u as int].neighbors[i2] == Some(t as usize)
    } by {
        if t >= n0 {
            lemma_cone_link_returned(old, tets, cav, orient_negative, p, t - n0, i);
        } else if cav.contains(t as usize) {
            assert(is_cleared(tets[t])) by {
                reveal(cone_replacement);
            }
        } else {
            lemma_outside_link_returned(old, tets, cav, orient_negative, p, t, i);
        }
    }
    assert forall|t: int, i: int| 0 <= t < tets.len() && 0 <= i < 4 && tets[t].deleted() implies (#[trigger] link_at(
        tets,
        t,
        i,
    )) is None by {
        if t >= n0 {
            let b = t - n0;
            assert(cone_ok(old, orient_negative, bnd[b], p, tets[n0 + b], n0, hi)) by {
                reveal(cone_replacement);
            }
            let fv = face_of(old[bnd[b].0 as int].vertices@, bnd[b].1 as int);
            let negative = choose|negative: bool|
                call_ensures(*orient_negative, (fv,), negative) && tets[t].vertices@ == cone_vertices(fv, p, negative);
            assert(tets[t].vertices@[3] == p);
        } else if cav.contains(t as usize) {
            assert(is_cleared(tets[t])) by {
                reveal(cone_replacement);
            }
        } else {
            assert(tets[t].vertices == old[t].vertices && relinked(old, bnd, cav, n0, t, i, tets[t].neighbors[i])) by {
                reveal(cone_replacement);
            }
            assert(link_at(old, t, i) is None);
        }
    }
    assert forall|t: int, i: int, i2: int|
        0 <= t < tets.len() && 0 <= i < i2 < 4 && (#[trigger] link_at(tets, t, i)) is Some implies tets[t].neighbors[i]
            != #[trigger] link_at(tets, t, i2) by {
        if tets[t].neighbors[i2] is Some {
            if t >= n0 {
                let b = t - n0;
                assert(tets.len() == hi) by {
                    reveal(cone_replacement);
                }
                assert(n0 + b == t);
                lemma_cone_link_returned(old, tets, cav, orient_negative, p, b, i);
                lemma_cone_link_returned(old, tets, cav, orient_negative, p, b, i2);
                if i2 < 3 {
                    lemma_cones_distinct(old, tets, cav, orient_negative, p, b, i, i2);
                }
            } else if cav.contains(t as usize) {
                assert(is_cleared(tets[t])) by {
                    reveal(cone_replacement);
                }
            } else {
                lemma_outside_link_returned(old, tets, cav, orient_negative, p, t, i);
                lemma_outside_link_returned(old, tets, cav, orient_negative, p, t, i2);
                assert(old[t].neighbors[i] is Some && old[t].neighbors[i2] is Some && hi <= usize::MAX) by {
                    reveal(cone_replacement);
                    assert(relinked(old, bnd, cav, n0, t, i, tets[t].neighbors[i]));
                    assert(relinked(old, bnd, cav, n0, t, i2, tets[t].neighbors[i2]));
                }
                assert(link_at(old, t, i) is Some);
                assert(link_at(old, t, i) != link_at(old, t, i2));
                let c1 = old[t].neighbors[i]->Some_0;
                let c2 = old[t].neighbors[i2]->Some_0;
                if cav.contains(c1) && cav.contains(c2) {
                    let b1 = choose|b: int| 0 <= b < bnd.len() && (#[trigger] bnd[b]).0 == c1 && tets[t].neighbors[i]
                        == Some((n0 + b) as usize);
                    let b2 = choose|b: int| 0 <= b < bnd.len() && (#[trigger] bnd[b]).0 == c2 && tets[t].neighbors[i2]
                        == Some((n0 + b) as usize);
                    assert(b1 != b2);
                }
            }
        }
    }
}

/// Two slots of one cone link to two different cones.
proof fn lemma_cones_distinct<O: Fn((usize, usize, usize)) -> bool>(
    old: Seq<Tetrahedron>,
    tets: Seq<Tetrahedron>,
    cav: Seq<usize>,
    orient_negative: &O,
    p: usize,
    b: int,
    i: int,
    i2: int,
)
    requires
        cone_replacement(old, tets, cav, orient_negative, p),
        forall|x: int, s: int|
            0 <= x < cavity_boundary(old, cav, cav.len()).len() && 0 <= s < 3 ==> #[trigger] cone_linked(
                tets.subrange(old.len() as int, tets.len() as int),
                old.len() as int,
                x,
                s,
            ),
        cones_closed(tets.subrange(old.len() as int, tets.len() as int)),
        0 <= b < cavity_boundary(old, cav, cav.len()).len(),
        0 <= i < i2 < 3,
        tets[old.len() + b].neighbors[i] is Some,
        tets[old.len() + b].neighbors[i2] is Some,
    ensures
        tets[old.len() + b].neighbors[i] != tets[old.len() + b].neighbors[i2],
{
    let n0 = old.len() as int;
    let bnd = cavity_boundary(old, cav, cav.len());
    let hi = n0 + bnd.len();
    let cones = tets.subrange(n0, hi);
    assert(tets.len() == hi && hi <= usize::MAX) by {
        reveal(cone_replacement);
    }
    assert(cones[b] == tets[n0 + b]);
    assert(has_partner(cones, b, i));
    assert(has_partner(cones, b, i2));
    let (b2, s2) = choose|b2: int, s2: int| #[trigger] edge_partner(cones, b, i, b2, s2);
    let (b3, s3) = choose|b3: int, s3: int| #[trigger] edge_partner(cones, b, i2, b3, s3);
    lemma_cone_links_mutual(cones, n0, b, i, b2, s2);
    lemma_cone_links_mutual(cones, n0, b, i2, b3, s3);
    if b2 == b3 {
        assert(cone_edge(cones[b].vertices@, i) == cone_edge(cones[b2].vertices@, s2));
        assert(cone_edge(cones[b].vertices@, i2) == cone_edge(cones[b2].vertices@, s3));
        assert(share_two_edges(cones, b, b2));
    }
}

impl TetMesh {
    /// Inserts the vertex `p_idx` into the mesh by replacing the cavity with
    /// the cones that join its boundary faces to `p_idx`.
    ///
    /// The cavity tetrahedra are cleared; each tetrahedron that lay behind a
    /// boundary face is linked to the cone over that face. Cones are linked
    /// through the slots opposite the edges of their base faces: a slot whose
    /// edge showed first in an earlier slot links to the cone of that first
    /// slot, and the first slot of an edge links to the cone of the last
    /// later slot with that edge. The cones are appended in the order of the cavity boundary, and
    /// each is recorded for its vertices.
    /// `orient_negative` tells whether a face is negatively oriented toward the
    /// new point, in which case the cone lists the face's first two vertices
    /// swapped.
    #[verifier::spinoff_prover]
    pub fn insert_vertex<O: Fn((usize, usize, usize)) -> bool>(
        &mut self,
        p_idx: usize,
        cavity: &Vec<usize>,
        orient_negative: &O,
    )
        requires
            old(self).wf(),
            forall|k: int| 0 <= k < cavity@.len() ==> #[trigger] cavity@[k] < old(self).tetrahedra@.len(),
            p_idx < old(self).vertex_to_tets@.len(),
            !is_reserved(p_idx),
            old(self).tetrahedra@.len() + 4 * cavity@.len() <= usize::MAX,
            forall|face: (usize, usize, usize)| call_requires(*orient_negative, (face,)),
        ensures
            final(self).wf(),
            old(self).incidences_exact() ==> final(self).incidences_exact(),
            ({
                let n0 = old(self).tetrahedra@.len() as int;
                let bnd = cavity_boundary(old(self).tetrahedra@, cavity@, cavity@.len());
                let hi = n0 + bnd.len();
                &&& final(self).tetrahedra@.len() == hi
                &&& final(self).vertex_to_tets@.len() == old(self).vertex_to_tets@.len()
                &&& forall|t: int|
                    0 <= t < n0 && cavity@.contains(t as usize) ==> is_cleared(
                        #[trigger] final(self).tetrahedra@[t],
                    )
                &&& forall|t: int|
                    0 <= t < n0 && !cavity@.contains(t as usize) ==> (#[trigger] final(self).tetrahedra@[t]).vertices
                        == old(self).tetrahedra@[t].vertices
                &&& forall|t: int, i: int|
                    0 <= t < n0 && !cavity@.contains(t as usize) && 0 <= i < 4 ==> relinked(
                        old(self).tetrahedra@,
                        bnd,
                        cavity@,
                        n0,
                        t,
                        i,
                        #[trigger] final(self).tetrahedra@[t].neighbors[i],
                    )
                &&& forall|b: int|
                    0 <= b < bnd.len() ==> cone_ok(
                        old(self).tetrahedra@,
                        orient_negative,
                        bnd[b],
                        p_idx,
                        #[trigger] final(self).tetrahedra@[n0 + b],
                        n0,
                        hi,
                    )
                &&& forall|b: int, s: int|
                    0 <= b < bnd.len() && 0 <= s < 3 ==> #[trigger] cone_linked(
                        final(self).tetrahedra@.subrange(n0, hi),
                        n0,
                        b,
                        s,
                    )
                &&& forall|b: int, s: int|
                    0 <= b < bnd.len() && 0 <= s < 3 ==> #[trigger] link_exact(
                        final(self).tetrahedra@.subrange(n0, hi),
                        n0,
                        b,
                        s,
                        bnd.len() as int,
                        0,
                    )
                &&& forall|v: int|
                    0 <= v < old(self).vertex_to_tets@.len() ==> (#[trigger] final(self).vertex_to_tets@[v])@
                        == if is_reserved(v as usize) {
                        old(self).vertex_to_tets@[v]@
                    } else {
                        old(self).vertex_to_tets@[v]@ + added_incidences(
                            final(self).tetrahedra@.subrange(n0, hi),
                            n0 as nat,
                            bnd.len(),
                            v as usize,
                        )
                    }
                &&& links_paired(old(self).tetrahedra@) && cavity@.no_duplicates() && cones_closed(
                    final(self).tetrahedra@.subrange(n0, hi),
                ) ==> links_paired(final(self).tetrahedra@)
            }),
    {
        let ghost old_tets = self.tetrahedra@;
        let ghost old_vtt = self.vertex_to_tets@;
        let ghost n0 = old_tets.len() as int;
        let boundary = self.boundary_faces(cavity);
        let cones = self.build_cones(p_idx, cavity, &boundary, orient_negative);
        self.clear_cavity(cavity);
        proof {
            let hi = n0 + cones@.len();
            let tets = self.tetrahedra@;
            lemma_boundary_in_cavity(old_tets, cavity@, cavity@.len());
            assert forall|t: int, i: int| 0 <= t < tets.len() && 0 <= i < 4 implies link_ok(
                #[trigger] tets[t].neighbors[i],
                hi,
            ) by {
                if !cavity@.contains(t as usize) {
                    assert(link_ok(old_tets[t].neighbors[i], n0));
                }
            }
            assert forall|t: int, i: int| 0 <= t < tets.len() && 0 <= i < 4 implies (#[trigger] tets[t].vertices[i])
                < self.vertex_to_tets@.len() || is_reserved(tets[t].vertices[i]) by {
                if !cavity@.contains(t as usize) {
                    assert(tets[t].vertices == old_tets[t].vertices);
                }
            }
            assert forall|k: int, i: int| 0 <= k < cones@.len() && 0 <= i < 4 implies link_ok(
                #[trigger] cones@[k].neighbors[i],
                hi,
            ) by {
                let (t, f) = boundary@[k];
                assert(cone_ok(old_tets, orient_negative, boundary@[k], p_idx, cones@[k], n0, hi));
                if i == 3 {
                    assert(link_ok(old_tets[t as int].neighbors[f as int], n0));
                }
            }
            assert forall|k: int, i: int| 0 <= k < cones@.len() && 0 <= i < 4 implies (#[trigger] cones@[k].vertices[i])
                < self.vertex_to_tets@.len() || is_reserved(cones@[k].vertices[i]) by {
                let (t, f) = boundary@[k];
                assert(cone_ok(old_tets, orient_negative, boundary@[k], p_idx, cones@[k], n0, hi));
                let fv = face_of(old_tets[t as int].vertices@, f as int);
                let negative = choose|negative: bool|
                    call_ensures(*orient_negative, (fv,), negative) && cones@[k].vertices@ == cone_vertices(
                        fv,
                        p_idx,
                        negative,
                    );
                assert(cones@[k].vertices[i] == cone_vertices(fv, p_idx, negative)[i]);
                assert(f < 4);
                assert forall|j: int| 0 <= j < 4 implies (#[trigger] old_tets[t as int].vertices[j]) < old_vtt.len()
                    || is_reserved(old_tets[t as int].vertices[j]) by {}
            }
        }
        self.append_cones(&cones);
        proof {
            let hi = n0 + cones@.len();
            assert(self.tetrahedra@.subrange(n0, hi) =~= cones@);
            assert forall|b: int, s: int| 0 <= b < cones@.len() && 0 <= s < 3 implies #[trigger] cone_linked(
                self.tetrahedra@.subrange(n0, hi),
                n0,
                b,
                s,
            ) by {
                assert(cone_linked(cones@, n0, b, s));
            }
            assert forall|b: int, s: int| 0 <= b < cones@.len() && 0 <= s < 3 implies #[trigger] link_exact(
                self.tetrahedra@.subrange(n0, hi),
                n0,
                b,
                s,
                cones@.len() as int,
                0,
            ) by {
                assert(link_exact(cones@, n0, b, s, cones@.len() as int, 0));
            }
            assert forall|b: int| 0 <= b < cones@.len() implies cone_ok(
                old_tets,
                orient_negative,
                boundary@[b],
                p_idx,
                #[trigger] self.tetrahedra@[n0 + b],
                n0,
                hi,
            ) by {
                assert(self.tetrahedra@[n0 + b] == cones@[b]);
            }
            let tets = self.tetrahedra@;
            if old(self).incidences_exact() {
                self.lemma_insert_incidences(old_tets, old_vtt, cavity@, orient_negative, p_idx, boundary@);
            }
            if links_paired(old_tets) && cavity@.no_duplicates() && cones_closed(tets.subrange(n0, hi)) {
                assert(cone_replacement(old_tets, tets, cavity@, orient_negative, p_idx)) by {
                    reveal(cone_replacement);
                    assert forall|t: int, i: int| 0 <= t < old_tets.len() && 0 <= i < 4 implies link_ok(
                        #[trigger] old_tets[t].neighbors[i],
                        old_tets.len() as int,
                    ) by {}
                }
                lemma_insert_links_paired(old_tets, tets, cavity@, orient_negative, p_idx);
            }
        }
    }
}


impl TetMesh {
    /// Replacing a cavity by cones, each recorded for its vertices, keeps the
    /// incidence records exact.
    proof fn lemma_insert_incidences<O: Fn((usize, usize, usize)) -> bool>(
        &self,
        old_tets: Seq<Tetrahedron>,
        old_vtt: Seq<Vec<usize>>,
        cav: Seq<usize>,
        orient_negative: &O,
        p: usize,
        bnd: Seq<(usize, usize)>,
    )
        requires
            ({
                let n0 = old_tets.len() as int;
                let hi = n0 + bnd.len();
                let tets = self.tetrahedra@;
                &&& hi <= usize::MAX
                &&& tets.len() == hi
                &&& self.vertex_to_tets@.len() == old_vtt.len()
                &&& !is_reserved(p)
                &&& forall|t: int, i: int|
                    0 <= t < old_tets.len() && 0 <= i < 4 && !old_tets[t].deleted() && !is_reserved(old_tets[t].vertices[i])
                        ==> (old_tets[t].vertices[i] as int) < old_vtt.len() && #[trigger] old_vtt[old_tets[t].vertices[i] as int]@.contains(
                        t as usize,
                    )
                &&& forall|v: int, k: int|
                    0 <= v < old_vtt.len() && 0 <= k < old_vtt[v]@.len() ==> old_tets[#[trigger] old_vtt[v]@[k] as int].deleted()
                        || tet_has_vertex(old_tets[old_vtt[v]@[k] as int], v as usize)
                &&& forall|v: int, k: int| 0 <= v < old_vtt.len() && 0 <= k < old_vtt[v]@.len() ==> #[trigger] old_vtt[v]@[k] < n0
                &&& forall|t: int| 0 <= t < n0 && cav.contains(t as usize) ==> is_cleared(#[trigger] tets[t])
                &&& forall|t: int| 0 <= t < n0 && !cav.contains(t as usize) ==> (#[trigger] tets[t]).vertices == old_tets[t].vertices
                &&& forall|b: int| 0 <= b < bnd.len() ==> cone_ok(old_tets, orient_negative, bnd[b], p, #[trigger] tets[n0 + b], n0, hi)
                &&& forall|v: int|
                    0 <= v < old_vtt.len() ==> (#[trigger] self.vertex_to_tets@[v])@ == if is_reserved(v as usize) {
                        old_vtt[v]@
                    } else {
                        old_vtt[v]@ + added_incidences(tets.subrange(n0, hi), n0 as nat, bnd.len(), v as usize)
                    }
                &&& forall|t: int, i: int| 0 <= t < tets.len() && 0 <= i < 4 ==> (#[trigger] tets[t].vertices[i])
                    < self.vertex_to_tets@.len() || is_reserved(tets[t].vertices[i])
            }),
        ensures
            self.incidences_exact(),
    {
        let n0 = old_tets.len() as int;
        let hi = n0 + bnd.len();
        let tets = self.tetrahedra@;
        let vtt = self.vertex_to_tets@;
        let cones = tets.subrange(n0, hi);
        assert forall|t: int, i: int|
            0 <= t < tets.len() && 0 <= i < 4 && !tets[t].deleted() && !is_reserved(tets[t].vertices[i]) implies (
            tets[t].vertices[i] as int) < vtt.len() && #[trigger] vtt[tets[t].vertices[i] as int]@.contains(t as usize) by {
            let v = tets[t].vertices[i];
            if t < n0 {
                if cav.contains(t as usize) {
                    assert(is_cleared(tets[t]));
                } else {
                    assert(tets[t].vertices == old_tets[t].vertices);
                    assert(old_vtt[v as int]@.contains(t as usize));
                    let k = choose|k: int| 0 <= k < old_vtt[v as int]@.len() && old_vtt[v as int]@[k] == t as usize;
                    assert(vtt[v as int]@[k] == t as usize);
                }
            } else {
                assert(cones[t - n0] == tets[t]);
                assert(cones[t - n0].vertices@[i] == v);
                lemma_added_incidences(cones, n0 as nat, bnd.len(), v);
                let added = added_incidences(cones, n0 as nat, bnd.len(), v);
                assert(added.contains(t as usize));
                let k = choose|k: int| 0 <= k < added.len() && added[k] == t as usize;
                assert(vtt[v as int]@[old_vtt[v as int]@.len() + k] == t as usize);
            }
        }
        assert forall|v: int, k: int| 0 <= v < vtt.len() && 0 <= k < vtt[v]@.len() implies tets[#[trigger] vtt[v]@[k] as int].deleted()
            || tet_has_vertex(tets[vtt[v]@[k] as int], v as usize) by {
            let x = vtt[v]@[k];
            if k < old_vtt[v]@.len() {
                assert(x == old_vtt[v]@[k]);
                assert(old_vtt[v]@[k] < n0);
                if cav.contains(x) {
                    assert(is_cleared(tets[x as int]));
                } else {
                    assert(tets[x as int].vertices == old_tets[x as int].vertices);
                    assert(tets[x as int].vertices@ == old_tets[x as int].vertices@);
                }
            } else {
                assert(!is_reserved(v as usize));
                let added = added_incidences(cones, n0 as nat, bnd.len(), v as usize);
                lemma_added_incidences(cones, n0 as nat, bnd.len(), v as usize);
                assert(added[k - old_vtt[v]@.len()] == x);
                assert(added.contains(x));
                assert(cones[x - n0] == tets[x as int]);
            }
        }
    }
}

impl TetMesh {
    /// With exact incidence records, `y` is an incident neighbor of `v`
    /// exactly when the two are distinct vertices of one live tetrahedron
    /// (and `y` is below `vertex_count`).
    pub proof fn lemma_incident_exact(&self, v: usize, vertex_count: usize, y: usize)
        requires
            self.wf(),
            self.tetrahedra@.len() <= usize::MAX,
            self.incidences_exact(),
            v < self.vertex_to_tets@.len(),
            !is_reserved(v),
        ensures
            self.incident(v, vertex_count, y) <==> (y != v && y < vertex_count && exists|t: int|
                0 <= t < self.tetrahedra@.len() && !self.tetrahedra@[t].deleted() && tet_has_vertex(
                    #[trigger] self.tetrahedra@[t],
                    v,
                ) && tet_has_vertex(self.tetrahedra@[t], y)),
    {
        let tets = self.tetrahedra@;
        if self.incident(v, vertex_count, y) {
            let k = choose|k: int|
                0 <= k < self.vertex_to_tets@[v as int]@.len() && !self.recorded_tet(v as int, k).deleted()
                    && tet_has_vertex(#[trigger] self.recorded_tet(v as int, k), y);
            let t = self.vertex_to_tets@[v as int]@[k] as int;
            assert(tets[t].deleted() || tet_has_vertex(tets[t], v));
            assert(0 <= t < tets.len());
        }
        if y != v && y < vertex_count && exists|t: int|
            0 <= t < tets.len() && !tets[t].deleted() && tet_has_vertex(#[trigger] tets[t], v) && tet_has_vertex(tets[t], y) {
            let t = choose|t: int|
                0 <= t < tets.len() && !tets[t].deleted() && tet_has_vertex(#[trigger] tets[t], v) && tet_has_vertex(tets[t], y);
            let i = choose|i: int| 0 <= i < 4 && tets[t].vertices@[i] == v;
            assert(tets[t].vertices[i] == v);
            assert(self.vertex_to_tets@[v as int]@.contains(t as usize));
            let k = choose|k: int| 0 <= k < self.vertex_to_tets@[v as int]@.len() && self.vertex_to_tets@[v as int]@[k] == t as usize;
            assert(self.recorded_tet(v as int, k) == tets[t]);
        }
    }

    /// With exact incidence records, the incident-neighbor relation is
    /// symmetric.
    pub proof fn lemma_incident_symmetric(&self, v: usize, vertex_count: usize, y: usize)
        requires
            self.wf(),
            self.tetrahedra@.len() <= usize::MAX,
            self.incidences_exact(),
            v < self.vertex_to_tets@.len(),
            y < self.vertex_to_tets@.len(),
            !is_reserved(v),
            !is_reserved(y),
            v < vertex_count,
            y < vertex_count,
        ensures
            self.incident(v, vertex_count, y) <==> self.incident(y, vertex_count, v),
    {
        self.lemma_incident_exact(v, vertex_count, y);
        self.lemma_incident_exact(y, vertex_count, v);
        let tets = self.tetrahedra@;
        if exists|t: int| 0 <= t < tets.len() && !tets[t].deleted() && tet_has_vertex(#[trigger] tets[t], v) && tet_has_vertex(tets[t], y) {
            let t = choose|t: int| 0 <= t < tets.len() && !tets[t].deleted() && tet_has_vertex(#[trigger] tets[t], v) && tet_has_vertex(tets[t], y);
            assert(tet_has_vertex(tets[t], y) && tet_has_vertex(tets[t], v));
        }
        if exists|t: int| 0 <= t < tets.len() && !tets[t].deleted() && tet_has_vertex(#[trigger] tets[t], y) && tet_has_vertex(tets[t], v) {
            let t = choose|t: int| 0 <= t < tets.len() && !tets[t].deleted() && tet_has_vertex(#[trigger] tets[t], y) && tet_has_vertex(tets[t], v);
            assert(tet_has_vertex(tets[t], v) && tet_has_vertex(tets[t], y));
        }
    }

    /// With exact incidence records, a live edge between active vertices is
    /// exactly a pair of active vertices, each an incident neighbor of the other.
    pub proof fn lemma_edges_match_neighbors(&self, vertex_count: usize, active: Seq<bool>, a: usize, b: usize)
        requires
            self.wf(),
            self.tetrahedra@.len() <= usize::MAX,
            self.incidences_exact(),
            a < self.vertex_to_tets@.len(),
            !is_reserved(a),
            a < b < vertex_count,
            b < active.len(),
        ensures
            self.live_edge(vertex_count, active, (a, b)) <==> (active[a as int] && active[b as int] && self.incident(
                a,
                vertex_count,
                b,
            )),
    {
        self.lemma_incident_exact(a, vertex_count, b);
    }
}

/// Entry `k` of `l` is its first entry that names a live tetrahedron.
pub open spec fn first_live(tets: Seq<Tetrahedron>, l: Seq<usize>, k: int) -> bool {
    &&& 0 <= k < l.len()
    &&& !tets[l[k] as int].deleted()
    &&& forall|k2: int| 0 <= k2 < k ==> #[trigger] tets[l[k2] as int].deleted()
}

impl TetMesh {
    /// Creates a mesh holding only the enclosing tetrahedron, whose vertices
    /// are the four reserved indices in increasing order, the first two
    /// swapped when `swap_first_two`.
    pub fn with_enclosing(swap_first_two: bool) -> (m: Self)
        ensures
            m.wf(),
            m.incidences_exact(),
            m.tetrahedra@.len() == 1,
            m.vertex_to_tets@.len() == 0,
            m.tetrahedra@[0].vertices@ == if swap_first_two {
                seq![(usize::MAX - 2) as usize, (usize::MAX - 3) as usize, (usize::MAX - 1) as usize, usize::MAX]
            } else {
                seq![(usize::MAX - 3) as usize, (usize::MAX - 2) as usize, (usize::MAX - 1) as usize, usize::MAX]
            },
            forall|i: int| 0 <= i < 4 ==> #[trigger] m.tetrahedra@[0].neighbors[i] is None,
    {
        let u = usize::MAX - 3;
        let v = usize::MAX - 2;
        let w = usize::MAX - 1;
        let z = usize::MAX;
        let vertices = if swap_first_two {
            [v, u, w, z]
        } else {
            [u, v, w, z]
        };
        let mut tetrahedra: Vec<Tetrahedron> = Vec::new();
        tetrahedra.push(Tetrahedron { vertices, neighbors: [None, None, None, None] });
        let m = TetMesh { tetrahedra, vertex_to_tets: Vec::new() };
        proof {
            assert(m.tetrahedra@[0].vertices@ =~= if swap_first_two {
                seq![v, u, w, z]
            } else {
                seq![u, v, w, z]
            });
        }
        m
    }

    /// Adds an empty incidence list for a new vertex.
    pub fn add_vertex_slot(&mut self)
        requires
            old(self).wf(),
        ensures
            final(self).wf(),
            old(self).incidences_exact() ==> final(self).incidences_exact(),
            final(self).tetrahedra == old(self).tetrahedra,
            final(self).vertex_to_tets@.len() == old(self).vertex_to_tets@.len() + 1,
            final(self).vertex_to_tets@.drop_last() == old(self).vertex_to_tets@,
            final(self).vertex_to_tets@.last()@ == Seq::<usize>::empty(),
    {
        let ghost before = self.vertex_to_tets@;
        self.vertex_to_tets.push(Vec::new());
        proof {
            assert forall|v: int, k: int|
                0 <= v < self.vertex_to_tets@.len() && 0 <= k < self.vertex_to_tets@[v]@.len()
                    implies #[trigger] self.vertex_to_tets@[v]@[k] < self.tetrahedra@.len() by {
                assert(self.vertex_to_tets@[v] == before[v]);
            }
            assert(self.vertex_to_tets@.drop_last() =~= before);
            if old(self).incidences_exact() {
                assert forall|t: int, i: int|
                    0 <= t < self.tetrahedra@.len() && 0 <= i < 4 && !self.tetrahedra@[t].deleted() && !is_reserved(
                        self.tetrahedra@[t].vertices[i],
                    ) implies (self.tetrahedra@[t].vertices[i] as int) < self.vertex_to_tets@.len()
                        && #[trigger] self.vertex_to_tets@[self.tetrahedra@[t].vertices[i] as int]@.contains(t as usize) by {
                    assert(before[self.tetrahedra@[t].vertices[i] as int]@.contains(t as usize));
                    assert(self.vertex_to_tets@[self.tetrahedra@[t].vertices[i] as int] == before[self.tetrahedra@[t].vertices[i] as int]);
                }
                assert forall|v: int, k: int|
                    0 <= v < self.vertex_to_tets@.len() && 0 <= k < self.vertex_to_tets@[v]@.len() implies self.tetrahedra@[
                        #[trigger] self.vertex_to_tets@[v]@[k] as int].deleted() || tet_has_vertex(
                        self.tetrahedra@[self.vertex_to_tets@[v]@[k] as int],
                        v as usize,
                    ) by {
                    assert(self.vertex_to_tets@[v] == before[v]);
                }
            }
        }
    }

    /// Returns the first live tetrahedron recorded for vertex `nearest`, the
    /// tetrahedron to start a point location from; `0` when there is no
    /// nearest vertex or it has no live tetrahedron. The nearest vertex must
    /// have an incidence list.
    pub fn start_cell(&self, nearest: Option<usize>) -> (r: usize)
        requires
            self.wf(),
            nearest matches Some(w) ==> w < self.vertex_to_tets@.len(),
        ensures
            nearest is None ==> r == 0,
            nearest matches Some(w) ==> (exists|k: int|
                #[trigger] first_live(self.tetrahedra@, self.vertex_to_tets@[w as int]@, k)
                    && self.vertex_to_tets@[w as int]@[k] == r) || (r == 0 && forall|k2: int|
                0 <= k2 < self.vertex_to_tets@[w as int]@.len() ==> #[trigger] self.tetrahedra@[self.vertex_to_tets@[w as int]@[k2] as int].deleted()),
    {
        let v = match nearest {
            None => return 0,
            Some(v) => v,
        };
        let tets = &self.vertex_to_tets[v];
        let ghost l = self.vertex_to_tets@[v as int]@;
        let mut k: usize = 0;
        let mut found: Option<usize> = None;
        while k < tets.len()
            invariant_except_break
                found is None,
            invariant
                self.wf(),
                v < self.vertex_to_tets@.len(),
                *tets == self.vertex_to_tets@[v as int],
                l == tets@,
                k <= tets@.len(),
                forall|k2: int| 0 <= k2 < k ==> #[trigger] self.tetrahedra@[tets@[k2] as int].deleted(),
            ensures
                found matches Some(t) ==> exists|k3: int| #[trigger] first_live(self.tetrahedra@, l, k3) && l[k3] == t,
                found is None ==> forall|k2: int| 0 <= k2 < l.len() ==> #[trigger] self.tetrahedra@[l[k2] as int].deleted(),
            decreases tets@.len() - k,
        {
            let t = tets[k];
            proof {
                assert(self.vertex_to_tets@[v as int]@[k as int] == t);
            }
            if !self.tetrahedra[t].is_deleted() {
                proof {
                    assert(first_live(self.tetrahedra@, l, k as int));
                }
                found = Some(t);
                break;
            }
            k += 1;
        }
        match found {
            Some(t) => t,
            None => 0,
        }
    }
}

} // verus!
