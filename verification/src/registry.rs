//! Birth-order bookkeeping of the Delaunay backend: which triangulation vertex
//! each inserted point became, and which points are still active.
use vstd::prelude::*;

use crate::error::Error;
use crate::index::{count_active, count_true};
use crate::mesh::{TetMesh, is_reserved};
use crate::sorted::{edges_increasing, lemma_contains_push, sorted_set, strictly_increasing};

verus! {

/// Maps birth indices to triangulation vertices and tracks deletions.
#[derive(Clone, Debug)]
pub struct VertexRegistry {
    index_to_key: Vec<Option<usize>>,
    active: Vec<bool>,
}

impl VertexRegistry {
    /// One key slot and one flag per birth index; a point is active exactly
    /// when it still has a vertex, and its vertex is its birth index.
    pub closed spec fn wf(&self) -> bool {
        &&& self.index_to_key@.len() == self.active@.len()
        &&& forall|i: int|
            0 <= i < self.active@.len() ==> (#[trigger] self.active@[i] <==> self.index_to_key@[i] is Some)
        &&& forall|i: int|
            0 <= i < self.index_to_key@.len() && (#[trigger] self.index_to_key@[i]) is Some ==> self.index_to_key@[i]
                == Some(i as usize)
    }

    /// The vertex of each birth index, `None` once deleted.
    pub closed spec fn keys(&self) -> Seq<Option<usize>> {
        self.index_to_key@
    }

    /// The active flag of each birth index.
    pub closed spec fn active_flags(&self) -> Seq<bool> {
        self.active@
    }

    /// `index` names an active point.
    pub open spec fn active_at(&self, index: usize) -> bool {
        index < self.active_flags().len() && self.active_flags()[index as int]
    }

    /// Active points have a key, which is their birth index, and inactive
    /// ones have none.
    pub proof fn lemma_wf(&self)
        requires
            self.wf(),
        ensures
            self.keys().len() == self.active_flags().len(),
            forall|i: int|
                0 <= i < self.active_flags().len() ==> (#[trigger] self.active_flags()[i] <==> self.keys()[i] is Some),
            forall|i: int| 0 <= i < self.keys().len() && (#[trigger] self.keys()[i]) is Some ==> self.keys()[i] == Some(
                i as usize,
            ),
    {
    }

    /// Creates an empty registry.
    pub fn new() -> (r: Self)
        ensures
            r.wf(),
            r.keys().len() == 0,
    {
        VertexRegistry { index_to_key: Vec::new(), active: Vec::new() }
    }

    /// Number of points ever inserted, including inactive deleted points.
    pub fn len(&self) -> (n: usize)
        requires
            self.wf(),
        ensures
            n == self.keys().len(),
    {
        self.index_to_key.len()
    }

    /// Returns `true` if no points have been inserted.
    pub fn is_empty(&self) -> (b: bool)
        requires
            self.wf(),
        ensures
            b == (self.keys().len() == 0),
    {
        self.index_to_key.len() == 0
    }

    /// Number of active points.
    pub fn active_len(&self) -> (n: usize)
        requires
            self.wf(),
        ensures
            n == count_true(self.active_flags()),
    {
        count_active(&self.active)
    }

    /// Returns whether the birth index is active; an unknown index is not.
    pub fn is_active(&self, index: usize) -> (b: bool)
        requires
            self.wf(),
        ensures
            b == self.active_at(index),
    {
        if index < self.active.len() {
            self.active[index]
        } else {
            false
        }
    }

    /// Returns the vertex of an active birth index.
    pub fn vertex_key(&self, index: usize) -> (r: Option<usize>)
        requires
            self.wf(),
        ensures
            r == (if index < self.keys().len() {
                self.keys()[index as int]
            } else {
                None
            }),
    {
        if index < self.index_to_key.len() {
            self.index_to_key[index]
        } else {
            None
        }
    }

    /// Returns the vertex of `index`, which must name an active point.
    pub fn ensure_active_key(&self, index: usize) -> (r: Result<usize, Error>)
        requires
            self.wf(),
        ensures
            index >= self.keys().len() ==> r == Err::<usize, Error>(
                (Error::InvalidIndex { index, len: self.keys().len() as usize }),
            ),
            index < self.keys().len() && !self.active_flags()[index as int] ==> r == Err::<
                usize,
                Error,
            >(Error::InactivePoint { index }),
            self.active_at(index) ==> r == Ok::<usize, Error>(self.keys()[index as int]->Some_0),
    {
        if index >= self.index_to_key.len() {
            return Err(Error::InvalidIndex { index, len: self.index_to_key.len() });
        }
        if !self.active[index] {
            return Err(Error::InactivePoint { index });
        }
        match self.index_to_key[index] {
            Some(key) => Ok(key),
            None => Err(Error::InactivePoint { index }),
        }
    }

    /// Returns the active Delaunay neighbors of vertex `key`, sorted and
    /// without duplicates.
    pub fn active_neighbors(&self, mesh: &TetMesh, vertex_count: usize, key: usize) -> (r: Vec<usize>)
        requires
            self.wf(),
            mesh.incidences_ok(),
        ensures
            strictly_increasing(r@),
            forall|y: usize|
                #[trigger] r@.contains(y) <==> (mesh.incident(key, vertex_count, y) && self.active_at(y)),
    {
        let all = mesh.incident_neighbors(key, vertex_count);
        let mut r: Vec<usize> = Vec::new();
        let mut i: usize = 0;
        while i < all.len()
            invariant
                self.wf(),
                i <= all@.len(),
                strictly_increasing(all@),
                forall|a: int, b: int| 0 <= a < b < r@.len() ==> r@[a] < r@[b],
                forall|t: int| 0 <= t < r@.len() ==> exists|u: int| 0 <= u < i && all@[u] == #[trigger] r@[t],
                forall|y: usize|
                    #[trigger] r@.contains(y) <==> (all@.take(i as int).contains(y) && self.active_at(y)),
            decreases all@.len() - i,
        {
            let y = all[i];
            let ghost r0 = r@;
            if self.is_active(y) {
                proof {
                    assert forall|t: int| 0 <= t < r0.len() implies r0[t] < y by {
                        let u = choose|u: int| 0 <= u < i && all@[u] == r0[t];
                    }
                }
                r.push(y);
                proof {
                    lemma_contains_push(r0, y);
                    assert forall|t: int| 0 <= t < r@.len() implies exists|u: int|
                        0 <= u < i + 1 && all@[u] == #[trigger] r@[t] by {
                        if t < r0.len() {
                            let u = choose|u: int| 0 <= u < i && all@[u] == r0[t];
                            assert(all@[u] == r@[t]);
                        } else {
                            assert(all@[i as int] == r@[t]);
                        }
                    }
                }
            }
            proof {
                let t0 = all@.take(i as int);
                let t1 = all@.take(i + 1);
                assert(t1 =~= t0.push(y));
                lemma_contains_push(t0, y);
            }
            i += 1;
        }
        proof {
            assert(all@.take(all@.len() as int) =~= all@);
        }
        r
    }

    /// Returns the active Delaunay neighbors of the active point `index`.
    pub fn neighbors(&self, mesh: &TetMesh, vertex_count: usize, index: usize) -> (r: Result<
        Vec<usize>,
        Error,
    >)
        requires
            self.wf(),
            mesh.incidences_ok(),
        ensures
            index >= self.keys().len() ==> r == Err::<Vec<usize>, Error>(
                (Error::InvalidIndex { index, len: self.keys().len() as usize }),
            ),
            index < self.keys().len() && !self.active_flags()[index as int] ==> r == Err::<
                Vec<usize>,
                Error,
            >(Error::InactivePoint { index }),
            r is Ok <==> self.active_at(index),
            r matches Ok(v) ==> {
                &&& strictly_increasing(v@)
                &&& forall|y: usize|
                    #[trigger] v@.contains(y) <==> (mesh.incident(
                        self.keys()[index as int]->Some_0,
                        vertex_count,
                        y,
                    ) && self.active_at(y))
            },
    {
        match self.ensure_active_key(index) {
            Err(e) => Err(e),
            Ok(key) => Ok(self.active_neighbors(mesh, vertex_count, key)),
        }
    }

    /// Records a newly inserted point whose triangulation vertex is `key`,
    /// which is its birth index, and returns its birth index with its insertion neighbors: the earlier
    /// active points adjacent to `key`, and, while fewer than four points
    /// exist, every earlier point. The neighbors are sorted and distinct.
    pub fn record_insertion(&mut self, key: usize, mesh: &TetMesh, vertex_count: usize) -> (r: (
        usize,
        Vec<usize>,
    ))
        requires
            old(self).wf(),
            old(self).keys().len() < usize::MAX,
            key == old(self).keys().len(),
            mesh.incidences_ok(),
        ensures
            final(self).wf(),
            final(self).keys() == old(self).keys().push(Some(key)),
            final(self).active_flags() == old(self).active_flags().push(true),
            r.0 == old(self).keys().len(),
            strictly_increasing(r.1@),
            forall|y: usize|
                #[trigger] r.1@.contains(y) <==> y < r.0 && ((mesh.incident(key, vertex_count, y)
                    && old(self).active_at(y)) || r.0 < 4),
    {
        let birth_index = self.index_to_key.len();
        self.index_to_key.push(Some(key));
        self.active.push(true);
        let adjacent = self.active_neighbors(mesh, vertex_count, key);
        let mut prior: Vec<usize> = Vec::new();
        let mut i: usize = 0;
        while i < adjacent.len()
            invariant
                i <= adjacent@.len(),
                forall|y: usize|
                    #[trigger] prior@.contains(y) <==> (adjacent@.take(i as int).contains(y) && y
                        < birth_index),
            decreases adjacent@.len() - i,
        {
            let y = adjacent[i];
            let ghost p0 = prior@;
            if y < birth_index {
                prior.push(y);
                proof {
                    lemma_contains_push(p0, y);
                }
            }
            proof {
                let t0 = adjacent@.take(i as int);
                let t1 = adjacent@.take(i + 1);
                assert(t1 =~= t0.push(y));
                lemma_contains_push(t0, y);
            }
            i += 1;
        }
        proof {
            assert(adjacent@.take(adjacent@.len() as int) =~= adjacent@);
        }
        if birth_index < 4 {
            let mut j: usize = 0;
            while j < birth_index
                invariant
                    j <= birth_index < 4,
                    forall|y: usize|
                        #[trigger] prior@.contains(y) <==> ((adjacent@.contains(y) && y < birth_index)
                            || y < j),
                decreases birth_index - j,
            {
                let ghost p0 = prior@;
                prior.push(j);
                proof {
                    lemma_contains_push(p0, j);
                }
                j += 1;
            }
        }
        let neighbors = sorted_set(&prior);
        proof {
            assert forall|y: usize| #[trigger] neighbors@.contains(y) <==> y < birth_index && ((mesh.incident(
                key,
                vertex_count,
                y,
            ) && old(self).active_at(y)) || birth_index < 4) by {
                if y < birth_index {
                    assert(self.active@[y as int] == old(self).active@[y as int]);
                }
            }
        }
        (birth_index, neighbors)
    }

    /// Marks the active point `index` as deleted and returns its former vertex.
    pub fn deactivate(&mut self, index: usize) -> (r: Result<usize, Error>)
        requires
            old(self).wf(),
        ensures
            final(self).wf(),
            index >= old(self).keys().len() ==> r == Err::<usize, Error>(
                (Error::InvalidIndex { index, len: old(self).keys().len() as usize }),
            ),
            index < old(self).keys().len() && !old(self).active_flags()[index as int] ==> r == Err::<
                usize,
                Error,
            >(Error::InactivePoint { index }),
            r is Err ==> *final(self) == *old(self),
            r is Ok <==> old(self).active_at(index),
            r matches Ok(key) ==> {
                &&& key == old(self).keys()[index as int]->Some_0
                &&& final(self).keys() == old(self).keys().update(index as int, None)
                &&& final(self).active_flags() == old(self).active_flags().update(index as int, false)
            },
    {
        let key = match self.ensure_active_key(index) {
            Err(e) => return Err(e),
            Ok(key) => key,
        };
        self.index_to_key.set(index, None);
        self.active.set(index, false);
        Ok(key)
    }

    /// Returns the edges of the triangulation between active points, as
    /// pairs `(smaller, larger)`, sorted and without duplicates.
    pub fn current_edges(&self, mesh: &TetMesh, vertex_count: usize) -> (r: Vec<(usize, usize)>)
        requires
            self.wf(),
        ensures
            edges_increasing(r@),
            forall|e: (usize, usize)|
                #[trigger] r@.contains(e) <==> mesh.live_edge(vertex_count, self.active_flags(), e),
    {
        mesh.current_edges(vertex_count, &self.active)
    }
}

impl VertexRegistry {
    /// With exact incidence records, the edge list and the neighbor lists
    /// agree: two active points `a < b` are joined by a current edge exactly
    /// when `b` is a neighbor of `a`.
    pub proof fn lemma_edges_match_neighbors(&self, mesh: &TetMesh, vertex_count: usize, a: usize, b: usize)
        requires
            self.wf(),
            mesh.wf(),
            mesh.tetrahedra@.len() <= usize::MAX,
            mesh.incidences_exact(),
            self.active_at(a),
            self.active_at(b),
            a < b < vertex_count,
            a < mesh.vertex_to_tets@.len(),
            !is_reserved(a),
        ensures
            mesh.live_edge(vertex_count, self.active_flags(), (a, b)) <==> (mesh.incident(
                self.keys()[a as int]->Some_0,
                vertex_count,
                b,
            ) && self.active_at(b)),
    {
        self.lemma_wf();
        assert(self.keys()[a as int] == Some(a));
        mesh.lemma_edges_match_neighbors(vertex_count, self.active_flags(), a, b);
    }
}

} // verus!
