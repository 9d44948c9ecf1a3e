//! The dynamic-programming k-NN index over a birth-ordered point set.
//!
//! The index stores points of any type `P`; queries see them only through a
//! distance function supplied by the caller, which maps a point to the ordering
//! key of its squared distance from the query.
use vstd::prelude::*;

use crate::bounded::{
    BoundedNeighbors, Neighbor, index_listed, is_best, is_strictly_better, lemma_best_after_offer, precedes,
    lemma_best_is_unique,
};
use crate::error::Error;
use crate::query::{
    candidate, complete_on, eligible, expansion, explored_result, first_active_from, first_improving,
    first_not_done, improves, knn_answer, lemma_answer_ignores_later_points, lemma_best_of,
    lemma_chain_shape, lemma_complete_table_is_exact, lemma_expansion_step, lemma_expansion_stops,
    lemma_first_active, lemma_first_improving, lemma_first_improving_none, lemma_neighbors_of,
    lemma_prefix_candidates_finite, lemma_reached_insert, lemma_sites_within, neighbors_of, next_site,
    prefix_candidates, reached_through_lists, successor_records, transition_chain, transition_sites_of,
};
use crate::sorted::{
    edge_lt, edges_increasing, is_sorted_set_of, lemma_contains_push, lemma_set_below, sorted_edge_set,
    sorted_set, strictly_increasing,
};
use crate::table::{
    SuccessorTable, complete_lists, count_lists_with, edge_check, lemma_total_entries_empty,
    lemma_total_entries_update, total_entries, valid_list, valid_lists,
};

verus! {

/// The distance function can be applied to every point of `points`, and gives
/// a single answer for each point.
pub open spec fn distance_ok<P, F: Fn(&P) -> u64>(dist: &F, points: Seq<P>) -> bool {
    &&& forall|i: int| 0 <= i < points.len() ==> call_requires(*dist, (&points[i],))
    &&& forall|p: &P, a: u64, b: u64|
        #![trigger call_ensures(*dist, (p,), a), call_ensures(*dist, (p,), b)]
        call_ensures(*dist, (p,), a) && call_ensures(*dist, (p,), b) ==> a == b
}

/// The answer of the distance function for point `p`.
pub open spec fn key_of<P, F: Fn(&P) -> u64>(dist: &F, p: &P) -> u64 {
    choose|r: u64| call_ensures(*dist, (p,), r)
}

/// The distance keys of all points, in birth order.
pub open spec fn keys_of<P, F: Fn(&P) -> u64>(dist: &F, points: Seq<P>) -> Seq<u64> {
    Seq::new(points.len(), |i: int| key_of(dist, &points[i]))
}

/// Evaluates the distance function on one point.
fn distance_key<P, F: Fn(&P) -> u64>(dist: &F, p: &P) -> (r: u64)
    requires
        call_requires(*dist, (p,)),
        forall|q: &P, a: u64, b: u64|
            #![trigger call_ensures(*dist, (q,), a), call_ensures(*dist, (q,), b)]
            call_ensures(*dist, (q,), a) && call_ensures(*dist, (q,), b) ==> a == b,
    ensures
        r == key_of(dist, p),
{
    let r = dist(p);
    proof {
        let c = choose|c: u64| call_ensures(*dist, (p,), c);
        assert(call_ensures(*dist, (p,), c));
    }
    r
}

/// Number of `true` entries of `s`.
pub open spec fn count_true(s: Seq<bool>) -> nat
    decreases s.len(),
{
    if s.len() == 0 {
        0
    } else {
        count_true(s.drop_last()) + if s.last() {
            1nat
        } else {
            0nat
        }
    }
}

/// Counts the `true` flags.
pub fn count_active(active: &Vec<bool>) -> (n: usize)
    ensures
        n == count_true(active@),
{
    let mut n: usize = 0;
    let mut i: usize = 0;
    while i < active.len()
        invariant
            i <= active@.len(),
            n == count_true(active@.take(i as int)),
            n <= i,
        decreases active@.len() - i,
    {
        proof {
            assert(active@.take(i + 1).drop_last() =~= active@.take(i as int));
        }
        if active[i] {
            n += 1;
        }
        i += 1;
    }
    proof {
        assert(active@.take(active@.len() as int) =~= active@);
    }
    n
}

/// Summary returned by deletion/update operations.
#[derive(Clone, Copy, Debug, Default, PartialEq, Eq)]
pub struct DeleteReport {
    /// Number of references to the deleted point that were removed from lists.
    pub removed_references: usize,
    /// Number of new successor edges inserted.
    pub inserted_successors: usize,
    /// Number of requested successor edges that were already present.
    pub already_present: usize,
}

/// Dynamic-programming k-NN index over a birth-ordered point set.
#[derive(Clone, Debug)]
pub struct ManifoldKnn<P> {
    points: Vec<P>,
    successors: SuccessorTable,
    active: Vec<bool>,
}

impl<P> ManifoldKnn<P> {
    /// One successor list and one active flag per point, over a valid table.
    pub closed spec fn wf(&self) -> bool {
        &&& self.successors.wf()
        &&& self.successors@.len() == self.points@.len()
        &&& self.active@.len() == self.points@.len()
        &&& self.points@.len() <= usize::MAX
    }

    /// The stored points, in birth order.
    pub closed spec fn point_seq(&self) -> Seq<P> {
        self.points@
    }

    /// The successor lists.
    pub closed spec fn lists(&self) -> Seq<Seq<usize>> {
        self.successors@
    }

    /// The active flags: deleted points stay stored but become inactive.
    pub closed spec fn active_flags(&self) -> Seq<bool> {
        self.active@
    }

    /// The successor table.
    pub closed spec fn table(&self) -> SuccessorTable {
        self.successors
    }

    /// What a well-formed index offers to a query.
    pub proof fn lemma_wf(&self)
        requires
            self.wf(),
        ensures
            self.table().wf(),
            self.table()@ == self.lists(),
            valid_lists(self.lists()),
            self.lists().len() == self.point_seq().len(),
            self.active_flags().len() == self.point_seq().len(),
            self.point_seq().len() <= usize::MAX,
    {
        self.successors.lemma_valid();
    }

    /// Creates an index from points and a successor table.
    ///
    /// The table must have one list per point. Every point starts active.
    pub fn new(points: Vec<P>, successors: SuccessorTable) -> (r: Result<Self, Error>)
        requires
            successors.wf(),
        ensures
            successors@.len() != points@.len() ==> r == Err::<Self, Error>(
                (Error::TableLengthMismatch {
                    points: points@.len() as usize,
                    lists: successors@.len() as usize,
                }),
            ),
            successors@.len() == points@.len() ==> r is Ok,
            r matches Ok(index) ==> {
                &&& index.wf()
                &&& index.point_seq() == points@
                &&& index.lists() == successors@
                &&& index.active_flags() == Seq::new(points@.len(), |i: int| true)
            },
    {
        let n = points.len();
        match successors.validate_for_len(n) {
            Err(e) => return Err(e),
            Ok(()) => {},
        }
        let mut active: Vec<bool> = Vec::new();
        let mut i: usize = 0;
        while i < n
            invariant
                i <= n,
                active@ == Seq::new(i as nat, |k: int| true),
            decreases n - i,
        {
            active.push(true);
            proof {
                assert(active@ =~= Seq::new((i + 1) as nat, |k: int| true));
            }
            i += 1;
        }
        Ok(ManifoldKnn { points, successors, active })
    }

    /// Builds an exact but quadratic successor table: every pair `i < j` is
    /// a successor edge `i -> j`.
    pub fn from_complete_successors(points: Vec<P>) -> (r: Result<Self, Error>)
        ensures
            r matches Ok(index) && {
                &&& index.wf()
                &&& index.point_seq() == points@
                &&& index.lists() == complete_lists(points@.len())
                &&& index.active_flags() == Seq::new(points@.len(), |i: int| true)
            },
    {
        let n = points.len();
        let table = SuccessorTable::complete(n);
        Self::new(points, table)
    }

    /// Builds an index from insertion-time neighbor lists.
    ///
    /// `neighbors_at_insertion[j]` lists earlier points adjacent to `j` when
    /// `j` was inserted; `j` is appended to the successor list of each of them.
    pub fn from_insertion_neighbors(points: Vec<P>, neighbors_at_insertion: Vec<Vec<usize>>) -> (r:
        Result<Self, Error>)
        ensures
            r matches Ok(index) ==> {
                &&& index.wf()
                &&& index.point_seq() == points@
                &&& index.active_flags() == Seq::new(points@.len(), |i: int| true)
                &&& forall|i: int, j: usize|
                    0 <= i < points@.len() ==> (#[trigger] index.lists()[i].contains(j) <==> (j
                        < points@.len() && neighbors_at_insertion@[j as int]@.contains(
                        i as usize,
                    )))
            },
            r is Ok <==> neighbors_at_insertion@.len() == points@.len() && crate::table::neighbors_earlier(
                crate::table::lists_view(&neighbors_at_insertion),
            ),
            r matches Err(e) ==> crate::table::insertion_neighbors_error(
                points@.len(),
                crate::table::lists_view(&neighbors_at_insertion),
                e,
            ),
    {
        let n = points.len();
        match SuccessorTable::from_insertion_neighbors(n, neighbors_at_insertion) {
            Ok(table) => Self::new(points, table),
            Err(e) => Err(e),
        }
    }

    /// Returns all points in birth order.
    pub fn points(&self) -> (r: &[P])
        ensures
            r@ == self.point_seq(),
    {
        self.points.as_slice()
    }

    /// Returns the successor table.
    pub fn successors(&self) -> (r: &SuccessorTable)
        ensures
            *r == self.table(),
    {
        &self.successors
    }

    /// Returns mutable access to the successor table.
    ///
    /// Callers must keep one valid list per point for the index to stay
    /// well formed.
    pub fn successors_mut(&mut self) -> (r: &mut SuccessorTable)
        ensures
            *r == old(self).table(),
            final(self).point_seq() == old(self).point_seq(),
            final(self).active_flags() == old(self).active_flags(),
            final(self).table() == *final(r),
            final(self).wf() <==> (old(self).point_seq().len() <= usize::MAX && final(r).wf()
                && final(r)@.len() == old(self).point_seq().len() && old(self).active_flags().len()
                == old(self).point_seq().len()),
    {
        &mut self.successors
    }

    /// Number of stored points, including inactive points left by deletions.
    pub fn len(&self) -> (n: usize)
        ensures
            n == self.point_seq().len(),
    {
        self.points.len()
    }

    /// Returns `true` if the index contains no stored points.
    pub fn is_empty(&self) -> (b: bool)
        ensures
            b == (self.point_seq().len() == 0),
    {
        self.points.len() == 0
    }

    /// Number of active points.
    pub fn active_len(&self) -> (n: usize)
        requires
            self.wf(),
        ensures
            n == count_true(self.active_flags()),
    {
        count_active(&self.active)
    }

    /// Returns whether the point at `index` is active.
    pub fn is_active(&self, index: usize) -> (b: bool)
        requires
            self.wf(),
        ensures
            b == (index < self.point_seq().len() && self.active_flags()[index as int]),
    {
        if index < self.active.len() {
            self.active[index]
        } else {
            false
        }
    }

    /// Active point indices in birth order.
    pub fn active_indices(&self) -> (r: Vec<usize>)
        requires
            self.wf(),
        ensures
            strictly_increasing(r@),
            forall|i: usize|
                #[trigger] r@.contains(i) <==> (i < self.point_seq().len()
                    && self.active_flags()[i as int]),
    {
        let mut r: Vec<usize> = Vec::new();
        let mut i: usize = 0;
        while i < self.active.len()
            invariant
                self.wf(),
                i <= self.active@.len(),
                strictly_increasing(r@),
                forall|t: int| 0 <= t < r@.len() ==> r@[t] < i,
                forall|x: usize| #[trigger] r@.contains(x) <==> (x < i && self.active@[x as int]),
            decreases self.active@.len() - i,
        {
            if self.active[i] {
                proof {
                    lemma_contains_push(r@, i);
                }
                r.push(i);
            }
            i += 1;
        }
        r
    }
}


/// Number of `false` entries of `s`.
pub open spec fn count_false(s: Seq<bool>) -> nat
    decreases s.len(),
{
    if s.len() == 0 {
        0
    } else {
        count_false(s.drop_last()) + if s.last() {
            0nat
        } else {
            1nat
        }
    }
}

proof fn lemma_count_false_set(s: Seq<bool>, i: int)
    requires
        0 <= i < s.len(),
        !s[i],
    ensures
        count_false(s.update(i, true)) + 1 == count_false(s),
    decreases s.len(),
{
    let u = s.update(i, true);
    if i == s.len() - 1 {
        assert(u.drop_last() =~= s.drop_last());
    } else {
        lemma_count_false_set(s.drop_last(), i);
        assert(u.drop_last() =~= s.drop_last().update(i, true));
    }
}

/// The indices whose flag is set.
pub open spec fn done_of(flags: Seq<bool>) -> Set<usize> {
    Set::new(|i: usize| i < flags.len() && flags[i as int])
}

/// The set of flagged positions is finite.
proof fn lemma_done_finite(flags: Seq<bool>)
    requires
        flags.len() <= usize::MAX,
    ensures
        done_of(flags).finite(),
    decreases flags.len(),
{
    if flags.len() == 0 {
        assert(done_of(flags) =~= Set::<usize>::empty());
    } else {
        let f0 = flags.drop_last();
        lemma_done_finite(f0);
        let last = (flags.len() - 1) as usize;
        if flags.last() {
            assert(done_of(flags) =~= done_of(f0).insert(last));
        } else {
            assert(done_of(flags) =~= done_of(f0));
        }
    }
}

/// Reusable query workspace to avoid allocations during nearest-neighbor queries.
#[derive(Clone, Debug)]
pub struct QueryWorkspace {
    processed: Vec<bool>,
    discovered: Vec<bool>,
    visited_indices: Vec<usize>,
    candidates: BoundedNeighbors,
}

impl Default for QueryWorkspace {
    fn default() -> (ws: Self)
        ensures
            ws.wf(),
    {
        QueryWorkspace::new()
    }
}

impl QueryWorkspace {
    /// Between queries no point is marked and the candidate list is consistent.
    pub closed spec fn wf(&self) -> bool {
        &&& self.candidates.wf()
        &&& self.visited_indices@.len() == 0
        &&& forall|i: int| 0 <= i < self.processed@.len() ==> !self.processed@[i]
        &&& forall|i: int| 0 <= i < self.discovered@.len() ==> !self.discovered@[i]
    }

    /// Creates a new empty query workspace.
    pub fn new() -> (ws: Self)
        ensures
            ws.wf(),
    {
        QueryWorkspace {
            processed: Vec::new(),
            discovered: Vec::new(),
            visited_indices: Vec::new(),
            candidates: BoundedNeighbors::new_empty(),
        }
    }

    /// Index of the best candidate that has not been expanded yet.
    fn first_unprocessed(&self) -> (r: Option<usize>)
        requires
            self.candidates.wf(),
            forall|m: Neighbor| #[trigger] self.candidates@.contains(m) ==> (m.index as int)
                < self.processed@.len(),
        ensures
            r is None ==> forall|m: Neighbor| #[trigger] self.candidates@.contains(m)
                ==> self.processed@[m.index as int],
            r matches Some(i) ==> index_listed(self.candidates@, i) && !self.processed@[i as int]
                && (i as int) < self.processed@.len(),
            match first_not_done(self.candidates@, done_of(self.processed@), 0) {
                Some(m) => r == Some(m.index),
                None => r is None,
            },
    {
        let items = self.candidates.as_slice();
        let ghost done = done_of(self.processed@);
        let mut t: usize = 0;
        while t < items.len()
            invariant
                items@ == self.candidates@,
                done == done_of(self.processed@),
                t <= items@.len(),
                forall|m: Neighbor| #[trigger] self.candidates@.contains(m) ==> (m.index as int)
                    < self.processed@.len(),
                forall|t2: int| 0 <= t2 < t ==> self.processed@[(#[trigger] items@[t2]).index as int],
                first_not_done(items@, done, 0) == first_not_done(items@, done, t as int),
            decreases items@.len() - t,
        {
            let index = items[t].index;
            proof {
                assert(self.candidates@.contains(items@[t as int]));
            }
            if !self.processed[index] {
                proof {
                    assert(!done.contains(index));
                }
                return Some(index);
            }
            proof {
                assert(done.contains(index));
            }
            t += 1;
        }
        None
    }

    /// Unmarks every point marked during a query.
    fn clear_marks(&mut self)
        requires
            old(self).candidates.wf(),
            forall|t: int| 0 <= t < old(self).visited_indices@.len() ==> {
                &&& (#[trigger] old(self).visited_indices@[t] as int) < old(self).processed@.len()
                &&& (old(self).visited_indices@[t] as int) < old(self).discovered@.len()
            },
            forall|i: int|
                0 <= i < old(self).discovered@.len() && #[trigger] old(self).discovered@[i] ==> exists|
                    t: int,
                | 0 <= t < old(self).visited_indices@.len() && old(self).visited_indices@[t] == i,
            forall|i: int|
                0 <= i < old(self).processed@.len() && #[trigger] old(self).processed@[i] ==> exists|
                    t: int,
                | 0 <= t < old(self).visited_indices@.len() && old(self).visited_indices@[t] == i,
        ensures
            final(self).wf(),
            final(self).candidates == old(self).candidates,
            final(self).processed@.len() == old(self).processed@.len(),
            final(self).discovered@.len() == old(self).discovered@.len(),
    {
        let mut t: usize = 0;
        while t < self.visited_indices.len()
            invariant
                self.candidates == old(self).candidates,
                self.visited_indices@ == old(self).visited_indices@,
                self.processed@.len() == old(self).processed@.len(),
                self.discovered@.len() == old(self).discovered@.len(),
                t <= self.visited_indices@.len(),
                forall|t2: int| 0 <= t2 < self.visited_indices@.len() ==> {
                    &&& (#[trigger] self.visited_indices@[t2] as int) < self.processed@.len()
                    &&& (self.visited_indices@[t2] as int) < self.discovered@.len()
                },
                forall|i: int|
                    0 <= i < self.discovered@.len() && #[trigger] self.discovered@[i] ==> exists|
                        t2: int,
                    |
                        t <= t2 < self.visited_indices@.len() && self.visited_indices@[t2] == i,
                forall|i: int|
                    0 <= i < self.processed@.len() && #[trigger] self.processed@[i] ==> exists|
                        t2: int,
                    |
                        t <= t2 < self.visited_indices@.len() && self.visited_indices@[t2] == i,
            decreases self.visited_indices@.len() - t,
        {
            let index = self.visited_indices[t];
            self.processed.set(index, false);
            self.discovered.set(index, false);
            proof {
                assert forall|i: int|
                    0 <= i < self.discovered@.len() && #[trigger] self.discovered@[i] implies exists|
                        t2: int,
                    | t + 1 <= t2 < self.visited_indices@.len() && self.visited_indices@[t2] == i by {
                    let t2 = choose|t2: int|
                        t <= t2 < self.visited_indices@.len() && self.visited_indices@[t2] == i;
                    assert(t2 != t);
                }
                assert forall|i: int|
                    0 <= i < self.processed@.len() && #[trigger] self.processed@[i] implies exists|
                        t2: int,
                    | t + 1 <= t2 < self.visited_indices@.len() && self.visited_indices@[t2] == i by {
                    let t2 = choose|t2: int|
                        t <= t2 < self.visited_indices@.len() && self.visited_indices@[t2] == i;
                    assert(t2 != t);
                }
            }
            t += 1;
        }
        self.visited_indices.clear();
    }
}

impl<P> ManifoldKnn<P> {
    /// The next transition site after `current`, with its distance key.
    fn next_transition<F: Fn(&P) -> u64>(
        &self,
        dist: &F,
        prefix: usize,
        current: usize,
        current_key: u64,
    ) -> (r: Option<(usize, u64)>)
        requires
            self.wf(),
            distance_ok(dist, self.point_seq()),
            prefix <= self.point_seq().len(),
            current < self.point_seq().len(),
            current_key == keys_of(dist, self.point_seq())[current as int],
        ensures
            r matches Some((j, kj)) ==> next_site(
                self.lists(),
                self.active_flags(),
                keys_of(dist, self.point_seq()),
                prefix as int,
                current as int,
            ) == Some(j) && kj == keys_of(dist, self.point_seq())[j as int],
            r is None ==> next_site(
                self.lists(),
                self.active_flags(),
                keys_of(dist, self.point_seq()),
                prefix as int,
                current as int,
            ) is None,
    {
        let ghost keys = keys_of(dist, self.points@);
        let ghost lists = self.successors@;
        let ghost active = self.active@;
        let ghost c = current as int;
        proof {
            self.lemma_wf();
            assert(valid_list(lists[c], c, lists.len() as int));
        }
        let list = self.successors.list(current);
        let mut t: usize = 0;
        while t < list.len()
            invariant
                self.wf(),
                distance_ok(dist, self.points@),
                keys == keys_of(dist, self.points@),
                lists == self.successors@,
                active == self.active@,
                c == current,
                current < lists.len(),
                valid_list(lists[c], c, lists.len() as int),
                prefix <= lists.len(),
                current_key == keys[c],
                list@ == lists[c],
                t <= list@.len(),
                first_improving(lists, active, keys, prefix as int, c, 0) == first_improving(
                    lists,
                    active,
                    keys,
                    prefix as int,
                    c,
                    t as int,
                ),
            decreases list@.len() - t,
        {
            let successor = list[t];
            if successor >= prefix {
                proof {
                    assert forall|t2: int| t <= t2 implies !improves(
                        lists,
                        active,
                        keys,
                        prefix as int,
                        c,
                        t2,
                    ) by {
                        if t < t2 < list@.len() {
                            assert(list@[t as int] < list@[t2]);
                        }
                    }
                    lemma_first_improving_none(lists, active, keys, prefix as int, c, t as int);
                }
                return None;
            }
            if self.active[successor] {
                let successor_key = distance_key(dist, &self.points[successor]);
                if is_strictly_better(successor_key, successor, current_key, current) {
                    proof {
                        assert(improves(lists, active, keys, prefix as int, c, t as int));
                    }
                    return Some((successor, successor_key));
                }
            }
            proof {
                assert(!improves(lists, active, keys, prefix as int, c, t as int));
            }
            t += 1;
        }
        proof {
            lemma_first_improving_none(lists, active, keys, prefix as int, c, t as int);
        }
        None
    }

    /// Follows the transition chain from `first` and keeps the best `capacity`
    /// sites in the workspace's candidate list.
    fn collect_transition_sites<F: Fn(&P) -> u64>(
        &self,
        dist: &F,
        capacity: usize,
        prefix: usize,
        first: usize,
        ws: &mut QueryWorkspace,
    )
        requires
            self.wf(),
            distance_ok(dist, self.point_seq()),
            prefix <= self.point_seq().len(),
            first_active_from(self.active_flags(), prefix as int, 0) == Some(first as int),
            old(ws).wf(),
        ensures
            final(ws).wf(),
            final(ws).candidates.cap() == capacity,
            final(ws).processed@ == old(ws).processed@,
            final(ws).discovered@ == old(ws).discovered@,
            is_best(
                final(ws).candidates@,
                transition_sites_of(
                    self.lists(),
                    self.active_flags(),
                    keys_of(dist, self.point_seq()),
                    prefix as int,
                ),
                capacity as nat,
            ),
    {
        let ghost keys = keys_of(dist, self.points@);
        let ghost lists = self.successors@;
        let ghost active = self.active@;
        let ghost chain = transition_chain(lists, active, keys, prefix as int, first as int);
        let ghost sites = transition_sites_of(lists, active, keys, prefix as int);
        proof {
            self.lemma_wf();
            lemma_first_active(active, prefix as int, 0);
            lemma_chain_shape(lists, active, keys, prefix as int, first as int);
            lemma_neighbors_of(keys, chain);
            assert(sites == neighbors_of(keys, chain));
        }
        ws.candidates.reset(capacity);
        if capacity == 0 {
            return;
        }
        let mut current = first;
        let mut current_key = distance_key(dist, &self.points[current]);
        let ghost mut done: Seq<usize> = Seq::empty();
        let ghost before = ws.candidates@;
        let first_neighbor = Neighbor { index: current, distance_key: current_key };
        let accepted = ws.candidates.insert(first_neighbor);
        proof {
            lemma_neighbors_of(keys, done);
            assert(neighbors_of(keys, done) =~= Set::<Neighbor>::empty());
            lemma_best_after_offer(
                before,
                neighbors_of(keys, done),
                capacity as nat,
                first_neighbor,
                accepted,
                ws.candidates@,
            );
            assert(done.push(current) =~= seq![current]);
            assert(chain =~= done + transition_chain(lists, active, keys, prefix as int, current as int));
        }
        loop
            invariant
                self.wf(),
                distance_ok(dist, self.points@),
                keys == keys_of(dist, self.points@),
                lists == self.successors@,
                active == self.active@,
                valid_lists(lists),
                lists.len() == self.points@.len(),
                prefix <= lists.len(),
                ws.wf(),
                ws.candidates.cap() == capacity,
                ws.processed@ == old(ws).processed@,
                ws.discovered@ == old(ws).discovered@,
                capacity > 0,
                eligible(active, prefix as int, current as int),
                current_key == keys[current as int],
                chain == transition_chain(lists, active, keys, prefix as int, first as int),
                sites == neighbors_of(keys, chain),
                chain == done + transition_chain(lists, active, keys, prefix as int, current as int),
                forall|t: int| 0 <= t < done.len() ==> done[t] < current,
                is_best(ws.candidates@, neighbors_of(keys, done.push(current)), capacity as nat),
            ensures
                ws.wf(),
                ws.candidates.cap() == capacity,
                ws.processed@ == old(ws).processed@,
                ws.discovered@ == old(ws).discovered@,
                is_best(ws.candidates@, sites, capacity as nat),
            decreases prefix - current,
        {
            match self.next_transition(dist, prefix, current, current_key) {
                None => {
                    proof {
                        assert(transition_chain(lists, active, keys, prefix as int, current as int)
                            == seq![current]);
                        assert(chain =~= done.push(current));
                    }
                    break;
                },
                Some((next, next_key)) => {
                    let ghost d = neighbors_of(keys, done.push(current));
                    let ghost before = ws.candidates@;
                    proof {
                        lemma_first_improving(lists, active, keys, prefix as int, current as int, 0);
                        let t = first_improving(lists, active, keys, prefix as int, current as int, 0)->Some_0;
                        assert(valid_list(lists[current as int], current as int, lists.len() as int));
                        assert(lists[current as int][t] == next);
                        assert(current < next);
                        assert(next < prefix);
                        assert(transition_chain(lists, active, keys, prefix as int, current as int)
                            == seq![current] + transition_chain(lists, active, keys, prefix as int, next as int));
                    }
                    let n = Neighbor { index: next, distance_key: next_key };
                    let accepted = ws.candidates.insert(n);
                    proof {
                        lemma_neighbors_of(keys, done.push(current));
                        assert forall|m: Neighbor| #[trigger] d.contains(m) && m.index == n.index implies m == n by {
                            let t = choose|t: int| 0 <= t < done.push(current).len() && done.push(current)[t] == m.index;
                            if t < done.len() {
                                assert(done[t] < current);
                            }
                        }
                        lemma_best_after_offer(before, d, capacity as nat, n, accepted, ws.candidates@);
                        assert(chain =~= done.push(current) + transition_chain(lists, active, keys, prefix as int, next as int));
                        done = done.push(current);
                    }
                    current = next;
                    current_key = next_key;
                },
            }
        }
    }
}

impl<P> ManifoldKnn<P> {
    /// The outcome of a k-NN query below `prefix`: the list `knn_answer`
    /// describes, which is the best `k` records of a discovered set that holds
    /// every transition site and every eligible successor of a reported point;
    /// with a complete table, exactly the `k` best eligible points.
    pub open spec fn knn_outcome<F: Fn(&P) -> u64>(
        &self,
        dist: &F,
        k: nat,
        prefix: int,
        v: Seq<Neighbor>,
    ) -> bool {
        let keys = keys_of(dist, self.point_seq());
        &&& v == knn_answer(self.lists(), self.active_flags(), keys, prefix, k)
        &&& exists|d: Set<Neighbor>|
            #[trigger] explored_result(self.lists(), self.active_flags(), keys, prefix, k, v, d)
        &&& complete_on(self.lists(), self.active_flags(), prefix) ==> is_best(
            v,
            prefix_candidates(keys, self.active_flags(), prefix),
            k,
        )
    }

    /// Mid-expansion consistency of the workspace for a query of `k`
    /// neighbors below `prefix` that has discovered the records `d`.
    spec fn expanding(
        &self,
        keys: Seq<u64>,
        prefix: int,
        k: nat,
        ws: &QueryWorkspace,
        d: Set<Neighbor>,
    ) -> bool {
        let n = self.points@.len();
        let lists = self.successors@;
        let active = self.active@;
        &&& ws.processed@.len() >= n
        &&& ws.discovered@.len() >= n
        &&& ws.candidates.wf()
        &&& ws.candidates.cap() == k
        &&& is_best(ws.candidates@, d, k)
        &&& d.subset_of(prefix_candidates(keys, active, prefix))
        &&& reached_through_lists(lists, transition_sites_of(lists, active, keys, prefix), d)
        &&& k > 0 ==> transition_sites_of(lists, active, keys, prefix).subset_of(d)
        &&& forall|i: int|
            0 <= i < ws.discovered@.len() && #[trigger] ws.discovered@[i] ==> {
                &&& i < n
                &&& d.contains(candidate(keys, i))
                &&& exists|t: int|
                    0 <= t < ws.visited_indices@.len() && ws.visited_indices@[t] == i
            }
        &&& forall|i: int|
            0 <= i < ws.processed@.len() && #[trigger] ws.processed@[i] ==> i < n
                && ws.discovered@[i]
        &&& forall|m: Neighbor| #[trigger]
            ws.candidates@.contains(m) ==> (m.index as int) < n && ws.discovered@[m.index as int]
        &&& forall|p: int, j: usize|
            #![trigger ws.processed@[p], lists[p].contains(j)]
            0 <= p < ws.processed@.len() && ws.processed@[p] && lists[p].contains(j) && eligible(
                active,
                prefix,
                j as int,
            ) ==> d.contains(candidate(keys, j as int))
        &&& forall|t: int|
            0 <= t < ws.visited_indices@.len() ==> (#[trigger] ws.visited_indices@[t] as int) < n
    }

    /// Marking the discovered point `index` as expanded keeps the expansion
    /// consistent once the records of its eligible successors are discovered.
    proof fn lemma_mark_processed(
        &self,
        keys: Seq<u64>,
        prefix: int,
        k: nat,
        ws1: QueryWorkspace,
        ws2: QueryWorkspace,
        d: Set<Neighbor>,
        index: int,
    )
        requires
            self.expanding(keys, prefix, k, &ws1, d),
            0 <= index < self.points@.len(),
            self.successors@.len() == self.points@.len(),
            ws1.discovered@[index],
            ws2.processed@ == ws1.processed@.update(index, true),
            ws2.discovered@ == ws1.discovered@,
            ws2.visited_indices@ == ws1.visited_indices@,
            ws2.candidates == ws1.candidates,
            successor_records(self.lists(), self.active_flags(), keys, prefix, index).subset_of(d),
        ensures
            self.expanding(keys, prefix, k, &ws2, d),
    {
        let lists = self.successors@;
        let active = self.active@;
        let n = self.points@.len();
        assert forall|p: int, j: usize|
            #![trigger ws2.processed@[p], lists[p].contains(j)]
            0 <= p < ws2.processed@.len() && ws2.processed@[p] && lists[p].contains(j) && eligible(
                active,
                prefix,
                j as int,
            ) implies d.contains(candidate(keys, j as int)) by {
            if p == index {
                assert(successor_records(lists, active, keys, prefix, index).contains(candidate(keys, j as int)));
            } else {
                assert(ws1.processed@[p]);
            }
        }
        assert forall|i: int| 0 <= i < ws2.processed@.len() && #[trigger] ws2.processed@[i] implies i < n
            && ws2.discovered@[i] by {
            if i != index {
                assert(ws1.processed@[i]);
            } else {
                assert(ws1.discovered@[i]);
            }
        }
    }

    /// The expanded points of a consistent expansion are eligible, so there are
    /// at most `prefix` of them.
    proof fn lemma_done_below(&self, keys: Seq<u64>, prefix: int, k: nat, ws: QueryWorkspace, d: Set<Neighbor>)
        requires
            self.expanding(keys, prefix, k, &ws, d),
            0 <= prefix,
            ws.processed@.len() <= usize::MAX,
        ensures
            done_of(ws.processed@).finite(),
            done_of(ws.processed@).len() <= prefix,
    {
        let done = done_of(ws.processed@);
        lemma_done_finite(ws.processed@);
        assert forall|i: usize| #[trigger] done.contains(i) implies i < prefix as nat by {
            assert(ws.processed@[i as int]);
            assert(d.contains(candidate(keys, i as int)));
            assert(prefix_candidates(keys, self.active@, prefix).contains(candidate(keys, i as int)));
        }
        lemma_set_below(done, prefix as nat);
    }

    /// Discovering a fresh eligible successor of a discovered point keeps the
    /// expansion consistent, with its record added to the discovered set.
    proof fn lemma_discover_new(
        &self,
        keys: Seq<u64>,
        prefix: int,
        k: nat,
        ws0: QueryWorkspace,
        ws: QueryWorkspace,
        d: Set<Neighbor>,
        home: int,
        nb: Neighbor,
    )
        requires
            self.expanding(keys, prefix, k, &ws0, d),
            0 <= home < self.points@.len(),
            ws0.discovered@[home],
            self.successors@[home].contains(nb.index),
            eligible(self.active@, prefix, nb.index as int),
            nb == candidate(keys, nb.index as int),
            !ws0.discovered@[nb.index as int],
            ws.discovered@ == ws0.discovered@.update(nb.index as int, true),
            ws.visited_indices@ == ws0.visited_indices@.push(nb.index),
            ws.processed@ == ws0.processed@,
            ws.candidates.wf(),
            ws.candidates.cap() == k,
            is_best(ws.candidates@, d.insert(nb), k),
            forall|m: Neighbor| #[trigger] ws.candidates@.contains(m) ==> ws0.candidates@.contains(m) || m == nb,
            (nb.index as int) < self.points@.len(),
        ensures
            self.expanding(keys, prefix, k, &ws, d.insert(nb)),
    {
        let lists = self.successors@;
        let active = self.active@;
        let n = self.points@.len();
        let dn = d.insert(nb);
        let s = nb.index as int;
        lemma_reached_insert(lists, transition_sites_of(lists, active, keys, prefix), d,
            candidate(keys, home), nb);
        assert(prefix_candidates(keys, active, prefix).contains(nb));
        assert forall|m: Neighbor| #[trigger] ws.candidates@.contains(m) implies (m.index as int) < n
            && ws.discovered@[m.index as int] by {
            if m != nb {
                assert(ws0.candidates@.contains(m));
            }
        }
        assert forall|i: int| 0 <= i < ws.discovered@.len() && #[trigger] ws.discovered@[i] implies {
            &&& i < n
            &&& dn.contains(candidate(keys, i))
            &&& exists|t3: int| 0 <= t3 < ws.visited_indices@.len() && ws.visited_indices@[t3] == i
        } by {
            if i == s {
                assert(ws.visited_indices@[ws.visited_indices@.len() - 1] == i);
            } else {
                assert(ws0.discovered@[i]);
                let t3 = choose|t3: int|
                    0 <= t3 < ws0.visited_indices@.len() && ws0.visited_indices@[t3] == i;
                assert(ws.visited_indices@[t3] == i);
            }
        }
        assert forall|t3: int| 0 <= t3 < ws.visited_indices@.len() implies (
        #[trigger] ws.visited_indices@[t3] as int) < n by {
            if t3 < ws0.visited_indices@.len() {
                assert(ws0.visited_indices@[t3] == ws.visited_indices@[t3]);
            }
        }
        assert forall|i: int| 0 <= i < ws.processed@.len() && #[trigger] ws.processed@[i] implies i < n
            && ws.discovered@[i] by {
            assert(ws0.processed@[i]);
        }
        assert forall|p: int, j: usize|
            #![trigger ws.processed@[p], lists[p].contains(j)]
            0 <= p < ws.processed@.len() && ws.processed@[p] && lists[p].contains(j) && eligible(
                active,
                prefix,
                j as int,
            ) implies dn.contains(candidate(keys, j as int)) by {
            assert(ws0.processed@[p]);
        }
    }

    /// Discovers the successor `successor` of the discovered point `home`,
    /// unless it is discovered already or inactive, and offers its record to
    /// the candidate list.
    fn discover<F: Fn(&P) -> u64>(
        &self,
        dist: &F,
        prefix: usize,
        home: usize,
        successor: usize,
        ws: &mut QueryWorkspace,
        Ghost(k): Ghost<nat>,
        Ghost(d): Ghost<Set<Neighbor>>,
    ) -> (d2: Ghost<Set<Neighbor>>)
        requires
            self.wf(),
            distance_ok(dist, self.point_seq()),
            prefix <= self.point_seq().len(),
            self.expanding(keys_of(dist, self.point_seq()), prefix as int, k, old(ws), d),
            home < self.point_seq().len(),
            old(ws).discovered@[home as int],
            self.lists()[home as int].contains(successor),
            successor < prefix,
        ensures
            self.expanding(keys_of(dist, self.point_seq()), prefix as int, k, final(ws), d2@),
            final(ws).processed@ == old(ws).processed@,
            final(ws).discovered@[home as int],
            d2@ == if eligible(self.active_flags(), prefix as int, successor as int) {
                d.insert(candidate(keys_of(dist, self.point_seq()), successor as int))
            } else {
                d
            },
    {
        let ghost keys = keys_of(dist, self.points@);
        let ghost lists = self.successors@;
        let ghost active = self.active@;
        let ghost n = self.points@.len();
        proof {
            self.lemma_wf();
        }
        if !ws.discovered[successor] && self.active[successor] {
            let ghost before = ws.candidates@;
            let ghost ws0 = *ws;
            ws.discovered.set(successor, true);
            ws.visited_indices.push(successor);
            let key = distance_key(dist, &self.points[successor]);
            let nb = Neighbor { index: successor, distance_key: key };
            let accepted = ws.candidates.insert(nb);
            proof {
                assert(nb == candidate(keys, successor as int));
                assert forall|m: Neighbor| #[trigger] d.contains(m) && m.index == nb.index implies m == nb by {
                    assert(prefix_candidates(keys, active, prefix as int).contains(m));
                }
                lemma_best_after_offer(before, d, k, nb, accepted, ws.candidates@);
                assert forall|m: Neighbor| #[trigger] ws.candidates@.contains(m) implies before.contains(m)
                    || m == nb by {
                    if accepted {
                        assert(before.to_set().insert(nb).contains(m));
                    }
                }
                self.lemma_discover_new(keys, prefix as int, k, ws0, *ws, d, home as int, nb);
            }
            Ghost(d.insert(nb))
        } else {
            proof {
                if eligible(active, prefix as int, successor as int) {
                    assert(ws.discovered@[successor as int]);
                    assert(d.contains(candidate(keys, successor as int)));
                    assert(d.insert(candidate(keys, successor as int)) =~= d);
                }
            }
            Ghost(d)
        }
    }

    /// Expands one discovered, unexpanded candidate: every eligible successor
    /// not yet discovered is discovered and offered to the candidate list.
    fn expand_one<F: Fn(&P) -> u64>(
        &self,
        dist: &F,
        prefix: usize,
        index: usize,
        ws: &mut QueryWorkspace,
        Ghost(k): Ghost<nat>,
        Ghost(d): Ghost<Set<Neighbor>>,
    ) -> (d2: Ghost<Set<Neighbor>>)
        requires
            self.wf(),
            distance_ok(dist, self.point_seq()),
            prefix <= self.point_seq().len(),
            self.expanding(keys_of(dist, self.point_seq()), prefix as int, k, old(ws), d),
            index < self.point_seq().len(),
            old(ws).discovered@[index as int],
            !old(ws).processed@[index as int],
        ensures
            self.expanding(keys_of(dist, self.point_seq()), prefix as int, k, final(ws), d2@),
            final(ws).processed@ == old(ws).processed@.update(index as int, true),
            d2@ == d.union(
                successor_records(
                    self.lists(),
                    self.active_flags(),
                    keys_of(dist, self.point_seq()),
                    prefix as int,
                    index as int,
                ),
            ),
    {
        let ghost keys = keys_of(dist, self.points@);
        let ghost lists = self.successors@;
        let ghost active = self.active@;
        let ghost n = self.points@.len();
        proof {
            self.lemma_wf();
            assert(valid_list(lists[index as int], index as int, n as int));
        }
        let list = self.successors.list(index);
        let ghost mut dc = d;
        let mut t: usize = 0;
        while t < list.len() && list[t] < prefix
            invariant
                self.wf(),
                distance_ok(dist, self.points@),
                keys == keys_of(dist, self.points@),
                lists == self.successors@,
                active == self.active@,
                n == self.points@.len(),
                lists.len() == n,
                prefix <= n,
                index < n,
                valid_list(lists[index as int], index as int, n as int),
                list@ == lists[index as int],
                t <= list@.len(),
                self.expanding(keys, prefix as int, k, ws, dc),
                ws.processed@ == old(ws).processed@,
                ws.discovered@[index as int],
                forall|m: Neighbor|
                    #[trigger] dc.contains(m) <==> d.contains(m) || (list@.take(t as int).contains(m.index)
                        && eligible(active, prefix as int, m.index as int) && m.distance_key
                        == keys[m.index as int]),
            decreases list@.len() - t,
        {
            let successor = list[t];
            proof {
                assert(lists[index as int].contains(successor));
            }
            let ghost d0 = dc;
            let g = self.discover(dist, prefix, index, successor, ws, Ghost(k), Ghost(dc));
            proof {
                dc = g@;
                let t0 = list@.take(t as int);
                let t1 = list@.take(t + 1);
                assert(t1 =~= t0.push(successor));
                lemma_contains_push(t0, successor);
                assert forall|m: Neighbor|
                    #[trigger] dc.contains(m) <==> d.contains(m) || (t1.contains(m.index) && eligible(
                        active,
                        prefix as int,
                        m.index as int,
                    ) && m.distance_key == keys[m.index as int]) by {
                    if m.index == successor && eligible(active, prefix as int, m.index as int)
                        && m.distance_key == keys[m.index as int] {
                        assert(m == candidate(keys, successor as int));
                    }
                    if dc.contains(m) && !d0.contains(m) {
                        assert(m == candidate(keys, successor as int));
                    }
                }
            }
            t += 1;
        }
        proof {
            lemma_scan_complete(lists, active, keys, prefix as int, index as int, list@, t as int, d, dc);
        }
        let ghost ws1 = *ws;
        ws.processed.set(index, true);
        proof {
            self.lemma_mark_processed(keys, prefix as int, k, ws1, *ws, dc, index as int);
        }
        Ghost(dc)
    }

    /// Reports `InvalidPrefix` when `prefix_len` exceeds the number of points.
    fn validate_prefix(&self, prefix_len: usize) -> (r: Result<(), Error>)
        ensures
            r is Ok <==> prefix_len <= self.point_seq().len(),
            r is Err ==> r == Err::<(), Error>(
                (Error::InvalidPrefix { prefix_len, len: self.point_seq().len() as usize }),
            ),
    {
        let len = self.points.len();
        if prefix_len > len {
            return Err(Error::InvalidPrefix { prefix_len, len });
        }
        Ok(())
    }

    /// The first active point with birth index below `prefix_len`.
    fn first_active_before(&self, prefix_len: usize) -> (r: Option<usize>)
        requires
            self.wf(),
            prefix_len <= self.point_seq().len(),
        ensures
            r matches Some(f) ==> first_active_from(self.active_flags(), prefix_len as int, 0)
                == Some(f as int),
            r is None ==> first_active_from(self.active_flags(), prefix_len as int, 0) is None,
    {
        let mut i: usize = 0;
        while i < prefix_len
            invariant
                self.wf(),
                prefix_len <= self.active@.len(),
                i <= prefix_len,
                first_active_from(self.active@, prefix_len as int, 0) == first_active_from(
                    self.active@,
                    prefix_len as int,
                    i as int,
                ),
            decreases prefix_len - i,
        {
            if self.active[i] {
                return Some(i);
            }
            i += 1;
        }
        None
    }

    /// Returns up to `k` nearest active points whose birth index is below
    /// `prefix_len`, using `workspace` to avoid allocations.
    ///
    /// `dist` maps a point to the ordering key of its squared distance from
    /// the query. Results are sorted by key, with birth index as tie-breaker.
    pub fn knn_prefix_with_workspace<'a, F: Fn(&P) -> u64>(
        &self,
        dist: &F,
        k: usize,
        prefix_len: usize,
        workspace: &'a mut QueryWorkspace,
    ) -> (r: Result<&'a [Neighbor], Error>)
        requires
            self.wf(),
            distance_ok(dist, self.point_seq()),
            old(workspace).wf(),
        ensures
            final(workspace).wf(),
            prefix_len > self.point_seq().len() ==> r == Err::<&[Neighbor], Error>(
                (Error::InvalidPrefix { prefix_len, len: self.point_seq().len() as usize }),
            ),
            prefix_len <= self.point_seq().len() ==> r is Ok,
            r matches Ok(v) ==> self.knn_outcome(dist, k as nat, prefix_len as int, v@),
    {
        match self.validate_prefix(prefix_len) {
            Err(e) => return Err(e),
            Ok(()) => {},
        }
        let ghost keys = keys_of(dist, self.points@);
        let ghost lists = self.successors@;
        let ghost active = self.active@;
        let ghost p = prefix_len as int;
        let ghost sites = transition_sites_of(lists, active, keys, p);
        proof {
            self.lemma_wf();
            lemma_prefix_candidates_finite(keys, active, p);
        }
        if k == 0 {
            workspace.candidates.reset(0);
            proof {
                assert(sites.subset_of(prefix_candidates(keys, active, p))) by {
                    lemma_sites_within(lists, active, keys, p);
                }
                vstd::set_lib::lemma_set_subset_finite(prefix_candidates(keys, active, p), sites);
                lemma_best_of(workspace.candidates@, sites, 0);
                assert(expansion(lists, active, keys, p, 0, sites, Set::empty(), (p + 1) as nat) == sites);
                assert(explored_result(lists, active, keys, p, 0, workspace.candidates@, Set::empty()));
                if complete_on(lists, active, p) {
                    lemma_complete_table_is_exact(lists, active, keys, p, 0, workspace.candidates@, Set::empty());
                }
            }
            return Ok(workspace.candidates.as_slice());
        }
        let first = match self.first_active_before(prefix_len) {
            None => {
                workspace.candidates.reset(0);
                proof {
                    assert(sites == Set::<Neighbor>::empty());
                    lemma_first_active(active, p, 0);
                    assert(prefix_candidates(keys, active, p) =~= Set::<Neighbor>::empty());
                    lemma_best_of(workspace.candidates@, sites, k as nat);
                    assert(expansion(lists, active, keys, p, k as nat, sites, Set::empty(), (p + 1) as nat) == sites);
                    assert(explored_result(lists, active, keys, p, k as nat, workspace.candidates@, Set::empty()));
                    if complete_on(lists, active, p) {
                        lemma_complete_table_is_exact(lists, active, keys, p, k as nat, workspace.candidates@, Set::empty());
                    }
                }
                return Ok(workspace.candidates.as_slice());
            },
            Some(f) => f,
        };
        self.collect_transition_sites(dist, k, prefix_len, first, workspace);
        let n = self.points.len();
        let ghost ws_sites = *workspace;
        while workspace.processed.len() < n
            invariant
                workspace.wf(),
                workspace.candidates == ws_sites.candidates,
                workspace.discovered@ == ws_sites.discovered@,
            decreases n - workspace.processed@.len(),
        {
            workspace.processed.push(false);
        }
        while workspace.discovered.len() < n
            invariant
                workspace.wf(),
                workspace.candidates == ws_sites.candidates,
                workspace.processed@.len() >= n,
            decreases n - workspace.discovered@.len(),
        {
            workspace.discovered.push(false);
        }
        proof {
            lemma_first_active(active, p, 0);
            lemma_chain_shape(lists, active, keys, p, first as int);
            let chain = transition_chain(lists, active, keys, p, first as int);
            assert(sites == neighbors_of(keys, chain));
            assert forall|m: Neighbor| #[trigger] sites.contains(m) implies prefix_candidates(
                keys,
                active,
                p,
            ).contains(m) by {
                let t = choose|t: int| 0 <= t < chain.len() && chain[t] == m.index;
            }
        }
        // Mark the transition sites kept in the candidate list as discovered.
        let count = workspace.candidates.as_slice().len();
        let mut t: usize = 0;
        while t < count
            invariant
                self.wf(),
                keys == keys_of(dist, self.points@),
                lists == self.successors@,
                active == self.active@,
                p == prefix_len,
                prefix_len <= n,
                n == self.points@.len(),
                lists.len() == n,
                count == workspace.candidates@.len(),
                t <= count,
                workspace.candidates.wf(),
                workspace.candidates.cap() == k,
                is_best(workspace.candidates@, sites, k as nat),
                sites.subset_of(prefix_candidates(keys, active, p)),
                workspace.processed@.len() >= n,
                workspace.discovered@.len() >= n,
                forall|i: int| 0 <= i < workspace.processed@.len() ==> !workspace.processed@[i],
                forall|t2: int|
                    0 <= t2 < t ==> workspace.discovered@[(#[trigger] workspace.candidates@[t2]).index as int],
                forall|i: int|
                    0 <= i < workspace.discovered@.len() && #[trigger] workspace.discovered@[i] ==> {
                        &&& i < n
                        &&& sites.contains(candidate(keys, i))
                        &&& exists|t3: int|
                            0 <= t3 < workspace.visited_indices@.len()
                                && workspace.visited_indices@[t3] == i
                    },
                forall|t3: int|
                    0 <= t3 < workspace.visited_indices@.len() ==> (
                    #[trigger] workspace.visited_indices@[t3] as int) < n,
            decreases count - t,
        {
            let ghost wsb = *workspace;
            let index = workspace.candidates.as_slice()[t].index;
            let ghost m = workspace.candidates@[t as int];
            proof {
                assert(workspace.candidates@.contains(m));
                assert(prefix_candidates(keys, active, p).contains(m));
            }
            if !workspace.discovered[index] {
                let ghost ws0 = *workspace;
                workspace.discovered.set(index, true);
                workspace.visited_indices.push(index);
                proof {
                    assert forall|i: int|
                        0 <= i < workspace.discovered@.len() && #[trigger] workspace.discovered@[i] implies {
                        &&& i < n
                        &&& sites.contains(candidate(keys, i))
                        &&& exists|t3: int|
                            0 <= t3 < workspace.visited_indices@.len()
                                && workspace.visited_indices@[t3] == i
                    } by {
                        if i == index {
                            assert(m == candidate(keys, i));
                            assert(workspace.visited_indices@[workspace.visited_indices@.len() - 1] == i);
                        } else {
                            assert(ws0.discovered@[i]);
                            let t3 = choose|t3: int|
                                0 <= t3 < ws0.visited_indices@.len() && ws0.visited_indices@[t3] == i;
                            assert(workspace.visited_indices@[t3] == i);
                        }
                    }
                    assert forall|t3: int| 0 <= t3 < workspace.visited_indices@.len() implies (
                    #[trigger] workspace.visited_indices@[t3] as int) < n by {
                        if t3 < ws0.visited_indices@.len() {
                            assert(ws0.visited_indices@[t3] == workspace.visited_indices@[t3]);
                        }
                    }
                }
            }
            proof {
                assert(workspace.discovered@[index as int]);
                assert(workspace.candidates@ == wsb.candidates@);
                assert(workspace.discovered@ == wsb.discovered@ || workspace.discovered@
                    == wsb.discovered@.update(index as int, true));
                assert forall|t2: int| 0 <= t2 < t + 1 implies workspace.discovered@[(
                #[trigger] workspace.candidates@[t2]).index as int] by {
                    if t2 < t {
                        assert(wsb.discovered@[wsb.candidates@[t2].index as int]);
                        assert(workspace.candidates@[t2] == wsb.candidates@[t2]);
                        assert(wsb.candidates@.contains(wsb.candidates@[t2]));
                        assert(prefix_candidates(keys, active, p).contains(wsb.candidates@[t2]));
                    } else {
                        assert(workspace.candidates@[t2] == m);
                        assert(m.index == index);
                    }
                }
            }
            t += 1;
        }
        let ghost mut d = sites;
        proof {
            assert forall|m: Neighbor| #[trigger] workspace.candidates@.contains(m) implies (m.index
                as int) < n && workspace.discovered@[m.index as int] by {
                let t2 = choose|t2: int| 0 <= t2 < count && workspace.candidates@[t2] == m;
                assert(prefix_candidates(keys, active, p).contains(m));
            }
            assert(self.expanding(keys, p, k as nat, workspace, d));
        }
        let processed_len = workspace.processed.len();
        proof {
            assert(done_of(workspace.processed@) =~= Set::<usize>::empty());
        }
        loop
            invariant
                workspace.processed@.len() == processed_len,
                self.wf(),
                distance_ok(dist, self.points@),
                keys == keys_of(dist, self.points@),
                lists == self.successors@,
                active == self.active@,
                p == prefix_len,
                prefix_len <= n,
                n == self.points@.len(),
                sites == transition_sites_of(lists, active, keys, p),
                self.expanding(keys, p, k as nat, workspace, d),
                expansion(lists, active, keys, p, k as nat, sites, Set::empty(), (p + 1) as nat)
                    == expansion(
                    lists,
                    active,
                    keys,
                    p,
                    k as nat,
                    d,
                    done_of(workspace.processed@),
                    (p + 1 - done_of(workspace.processed@).len()) as nat,
                ),
            ensures
                self.expanding(keys, p, k as nat, workspace, d),
                forall|m: Neighbor| #[trigger] workspace.candidates@.contains(m)
                    ==> workspace.processed@[m.index as int],
                expansion(lists, active, keys, p, k as nat, sites, Set::empty(), (p + 1) as nat) == d,
            decreases count_false(workspace.processed@),
        {
            let ghost fuel = (p + 1 - done_of(workspace.processed@).len()) as nat;
            proof {
                self.lemma_done_below(keys, p, k as nat, *workspace, d);
                lemma_best_of(workspace.candidates@, d, k as nat);
            }
            match workspace.first_unprocessed() {
                None => {
                    proof {
                        lemma_expansion_stops(lists, active, keys, p, k as nat, d, done_of(workspace.processed@), fuel);
                    }
                    break;
                },
                Some(index) => {
                    proof {
                        let t2 = choose|t2: int|
                            0 <= t2 < workspace.candidates@.len()
                                && (#[trigger] workspace.candidates@[t2]).index == index;
                        assert(workspace.candidates@.contains(workspace.candidates@[t2]));
                    }
                    let ghost before = workspace.processed@;
                    let ghost done = done_of(before);
                    let g = self.expand_one(dist, prefix_len, index, workspace, Ghost(k as nat), Ghost(d));
                    proof {
                        lemma_count_false_set(before, index as int);
                        assert(!done.contains(index));
                        assert(done_of(workspace.processed@) =~= done.insert(index));
                        self.lemma_done_below(keys, p, k as nat, *workspace, g@);
                        lemma_expansion_step(lists, active, keys, p, k as nat, d, done, fuel, index);
                        d = g@;
                    }
                },
            }
        }
        proof {
            assert(explored_result(lists, active, keys, p, k as nat, workspace.candidates@, d));
            lemma_best_of(workspace.candidates@, d, k as nat);
        }
        workspace.clear_marks();
        let result = workspace.candidates.as_slice();
        proof {
            assert(explored_result(lists, active, keys, p, k as nat, result@, d));
            if complete_on(lists, active, p) {
                lemma_complete_table_is_exact(lists, active, keys, p, k as nat, result@, d);
            }
        }
        Ok(result)
    }
}

/// After scanning the sorted successor list of `index` up to the first entry
/// outside the prefix, the records added are exactly those of its eligible
/// successors.
proof fn lemma_scan_complete(
    lists: Seq<Seq<usize>>,
    active: Seq<bool>,
    keys: Seq<u64>,
    prefix: int,
    index: int,
    list: Seq<usize>,
    t: int,
    d: Set<Neighbor>,
    dc: Set<Neighbor>,
)
    requires
        0 <= index < lists.len(),
        list == lists[index],
        strictly_increasing(list),
        0 <= t <= list.len(),
        t == list.len() || list[t] >= prefix,
        forall|m: Neighbor|
            #[trigger] dc.contains(m) <==> d.contains(m) || (list.take(t).contains(m.index) && eligible(
                active,
                prefix,
                m.index as int,
            ) && m.distance_key == keys[m.index as int]),
    ensures
        dc == d.union(successor_records(lists, active, keys, prefix, index)),
{
    assert forall|m: Neighbor| #[trigger] dc.contains(m) <==> d.union(
        successor_records(lists, active, keys, prefix, index),
    ).contains(m) by {
        if lists[index].contains(m.index) && eligible(active, prefix, m.index as int) && !list.take(
            t,
        ).contains(m.index) {
            let t2 = choose|t2: int| 0 <= t2 < list.len() && list[t2] == m.index;
            if t2 < t {
                assert(list.take(t)[t2] == m.index);
            } else if t2 > t {
                assert(list[t] < list[t2]);
            }
        }
        if list.take(t).contains(m.index) {
            let t2 = choose|t2: int| 0 <= t2 < t && list.take(t)[t2] == m.index;
            assert(list[t2] == m.index);
        }
    }
    assert(dc =~= d.union(successor_records(lists, active, keys, prefix, index)));
}

/// The first entry of a result list, if any.
pub open spec fn first_of(v: Seq<Neighbor>) -> Option<Neighbor> {
    if v.len() > 0 {
        Some(v[0])
    } else {
        None
    }
}

impl<P> ManifoldKnn<P> {
    /// Returns up to `k` nearest active points whose birth index is below
    /// `prefix_len`.
    ///
    /// This is the zero-overhead prefix-subset query: the same successor table
    /// is reused and candidates outside the prefix are ignored.
    pub fn knn_prefix<F: Fn(&P) -> u64>(&self, dist: &F, k: usize, prefix_len: usize) -> (r: Result<
        Vec<Neighbor>,
        Error,
    >)
        requires
            self.wf(),
            distance_ok(dist, self.point_seq()),
        ensures
            prefix_len > self.point_seq().len() ==> r == Err::<Vec<Neighbor>, Error>(
                (Error::InvalidPrefix { prefix_len, len: self.point_seq().len() as usize }),
            ),
            prefix_len <= self.point_seq().len() ==> r is Ok,
            r matches Ok(v) ==> self.knn_outcome(dist, k as nat, prefix_len as int, v@),
    {
        let mut workspace = QueryWorkspace::new();
        match self.knn_prefix_with_workspace(dist, k, prefix_len, &mut workspace) {
            Ok(slice) => Ok(vstd::slice::slice_to_vec(slice)),
            Err(e) => Err(e),
        }
    }

    /// Returns up to `k` nearest active points in the full index.
    ///
    /// Results are sorted by distance, with birth index as tie-breaker.
    pub fn knn<F: Fn(&P) -> u64>(&self, dist: &F, k: usize) -> (r: Result<Vec<Neighbor>, Error>)
        requires
            self.wf(),
            distance_ok(dist, self.point_seq()),
        ensures
            r matches Ok(v) && self.knn_outcome(dist, k as nat, self.point_seq().len() as int, v@),
    {
        self.knn_prefix(dist, k, self.points.len())
    }

    /// Returns up to `k` nearest active points in the full index using a workspace.
    pub fn knn_with_workspace<'a, F: Fn(&P) -> u64>(
        &self,
        dist: &F,
        k: usize,
        workspace: &'a mut QueryWorkspace,
    ) -> (r: Result<&'a [Neighbor], Error>)
        requires
            self.wf(),
            distance_ok(dist, self.point_seq()),
            old(workspace).wf(),
        ensures
            final(workspace).wf(),
            r matches Ok(v) && self.knn_outcome(dist, k as nat, self.point_seq().len() as int, v@),
    {
        self.knn_prefix_with_workspace(dist, k, self.points.len(), workspace)
    }

    /// Returns the nearest active point in the full index using a workspace.
    pub fn nearest_with_workspace<F: Fn(&P) -> u64>(
        &self,
        dist: &F,
        workspace: &mut QueryWorkspace,
    ) -> (r: Result<Option<Neighbor>, Error>)
        requires
            self.wf(),
            distance_ok(dist, self.point_seq()),
            old(workspace).wf(),
        ensures
            final(workspace).wf(),
            r matches Ok(o) && exists|v: Seq<Neighbor>|
                #[trigger] self.knn_outcome(dist, 1, self.point_seq().len() as int, v) && o
                    == first_of(v),
    {
        let slice = match self.knn_prefix_with_workspace(dist, 1, self.points.len(), workspace) {
            Ok(slice) => slice,
            Err(e) => return Err(e),
        };
        if slice.len() > 0 {
            Ok(Some(slice[0]))
        } else {
            Ok(None)
        }
    }

    /// Returns the nearest active point in the full index.
    pub fn nearest<F: Fn(&P) -> u64>(&self, dist: &F) -> (r: Result<Option<Neighbor>, Error>)
        requires
            self.wf(),
            distance_ok(dist, self.point_seq()),
        ensures
            r matches Ok(o) && exists|v: Seq<Neighbor>|
                #[trigger] self.knn_outcome(dist, 1, self.point_seq().len() as int, v) && o
                    == first_of(v),
    {
        let mut workspace = QueryWorkspace::new();
        self.nearest_with_workspace(dist, &mut workspace)
    }

    /// Collects the transition sites of the 1-NN traversal below `prefix_len`,
    /// using a workspace: the successive points that became the nearest
    /// neighbor during the birth-ordered insertion history, sorted by distance
    /// and capped to `capacity` entries.
    pub fn transition_sites_prefix_with_workspace<'a, F: Fn(&P) -> u64>(
        &self,
        dist: &F,
        capacity: usize,
        prefix_len: usize,
        workspace: &'a mut QueryWorkspace,
    ) -> (r: Result<&'a [Neighbor], Error>)
        requires
            self.wf(),
            distance_ok(dist, self.point_seq()),
            old(workspace).wf(),
        ensures
            final(workspace).wf(),
            prefix_len > self.point_seq().len() ==> r == Err::<&[Neighbor], Error>(
                (Error::InvalidPrefix { prefix_len, len: self.point_seq().len() as usize }),
            ),
            prefix_len <= self.point_seq().len() ==> r is Ok,
            r matches Ok(v) ==> is_best(
                v@,
                transition_sites_of(
                    self.lists(),
                    self.active_flags(),
                    keys_of(dist, self.point_seq()),
                    prefix_len as int,
                ),
                capacity as nat,
            ),
    {
        match self.validate_prefix(prefix_len) {
            Err(e) => return Err(e),
            Ok(()) => {},
        }
        let ghost keys = keys_of(dist, self.points@);
        let ghost sites = transition_sites_of(self.successors@, self.active@, keys, prefix_len as int);
        proof {
            self.lemma_wf();
            lemma_first_active(self.active@, prefix_len as int, 0);
        }
        if capacity == 0 {
            workspace.candidates.reset(0);
            proof {
                if let Some(f) = first_active_from(self.active@, prefix_len as int, 0) {
                    lemma_neighbors_of(
                        keys,
                        transition_chain(self.successors@, self.active@, keys, prefix_len as int, f),
                    );
                }
            }
            return Ok(workspace.candidates.as_slice());
        }
        match self.first_active_before(prefix_len) {
            None => {
                workspace.candidates.reset(capacity);
            },
            Some(first) => {
                self.collect_transition_sites(dist, capacity, prefix_len, first, workspace);
            },
        }
        Ok(workspace.candidates.as_slice())
    }

    /// Prefix-restricted transition sites; see `transition_sites_prefix_with_workspace`.
    pub fn transition_sites_prefix<F: Fn(&P) -> u64>(
        &self,
        dist: &F,
        capacity: usize,
        prefix_len: usize,
    ) -> (r: Result<Vec<Neighbor>, Error>)
        requires
            self.wf(),
            distance_ok(dist, self.point_seq()),
        ensures
            prefix_len > self.point_seq().len() ==> r == Err::<Vec<Neighbor>, Error>(
                (Error::InvalidPrefix { prefix_len, len: self.point_seq().len() as usize }),
            ),
            prefix_len <= self.point_seq().len() ==> r is Ok,
            r matches Ok(v) ==> is_best(
                v@,
                transition_sites_of(
                    self.lists(),
                    self.active_flags(),
                    keys_of(dist, self.point_seq()),
                    prefix_len as int,
                ),
                capacity as nat,
            ),
    {
        let mut workspace = QueryWorkspace::new();
        match self.transition_sites_prefix_with_workspace(dist, capacity, prefix_len, &mut workspace) {
            Ok(slice) => Ok(vstd::slice::slice_to_vec(slice)),
            Err(e) => Err(e),
        }
    }

    /// Transition sites of the full index; see `transition_sites_prefix_with_workspace`.
    pub fn transition_sites<F: Fn(&P) -> u64>(&self, dist: &F, capacity: usize) -> (r: Result<
        Vec<Neighbor>,
        Error,
    >)
        requires
            self.wf(),
            distance_ok(dist, self.point_seq()),
        ensures
            r matches Ok(v) && is_best(
                v@,
                transition_sites_of(
                    self.lists(),
                    self.active_flags(),
                    keys_of(dist, self.point_seq()),
                    self.point_seq().len() as int,
                ),
                capacity as nat,
            ),
    {
        self.transition_sites_prefix(dist, capacity, self.points.len())
    }

    /// Transition sites of the full index using a workspace.
    pub fn transition_sites_with_workspace<'a, F: Fn(&P) -> u64>(
        &self,
        dist: &F,
        capacity: usize,
        workspace: &'a mut QueryWorkspace,
    ) -> (r: Result<&'a [Neighbor], Error>)
        requires
            self.wf(),
            distance_ok(dist, self.point_seq()),
            old(workspace).wf(),
        ensures
            final(workspace).wf(),
            r matches Ok(v) && is_best(
                v@,
                transition_sites_of(
                    self.lists(),
                    self.active_flags(),
                    keys_of(dist, self.point_seq()),
                    self.point_seq().len() as int,
                ),
                capacity as nat,
            ),
    {
        self.transition_sites_prefix_with_workspace(dist, capacity, self.points.len(), workspace)
    }

    /// Brute-force k-NN over active points with birth index below `prefix_len`:
    /// every eligible point is ranked.
    ///
    /// Intended for validation and benchmarking, not production queries.
    pub fn brute_force_knn_prefix<F: Fn(&P) -> u64>(
        &self,
        dist: &F,
        k: usize,
        prefix_len: usize,
    ) -> (r: Result<Vec<Neighbor>, Error>)
        requires
            self.wf(),
            distance_ok(dist, self.point_seq()),
        ensures
            prefix_len > self.point_seq().len() ==> r == Err::<Vec<Neighbor>, Error>(
                (Error::InvalidPrefix { prefix_len, len: self.point_seq().len() as usize }),
            ),
            prefix_len <= self.point_seq().len() ==> r is Ok,
            r matches Ok(v) ==> is_best(
                v@,
                prefix_candidates(
                    keys_of(dist, self.point_seq()),
                    self.active_flags(),
                    prefix_len as int,
                ),
                k as nat,
            ),
    {
        match self.validate_prefix(prefix_len) {
            Err(e) => return Err(e),
            Ok(()) => {},
        }
        let ghost keys = keys_of(dist, self.points@);
        let ghost active = self.active@;
        proof {
            self.lemma_wf();
            lemma_prefix_candidates_finite(keys, active, 0);
            assert(prefix_candidates(keys, active, 0) =~= Set::<Neighbor>::empty());
        }
        if k == 0 {
            proof {
                lemma_prefix_candidates_finite(keys, active, prefix_len as int);
            }
            return Ok(Vec::new());
        }
        let mut best = BoundedNeighbors::new_empty();
        best.reset(k);
        let mut index: usize = 0;
        while index < prefix_len
            invariant
                self.wf(),
                distance_ok(dist, self.points@),
                keys == keys_of(dist, self.points@),
                active == self.active@,
                prefix_len <= self.points@.len(),
                index <= prefix_len,
                best.wf(),
                best.cap() == k,
                is_best(best@, prefix_candidates(keys, active, index as int), k as nat),
            decreases prefix_len - index,
        {
            let ghost d = prefix_candidates(keys, active, index as int);
            if self.active[index] {
                let key = distance_key(dist, &self.points[index]);
                let nb = Neighbor { index, distance_key: key };
                let ghost before = best@;
                let accepted = best.insert(nb);
                proof {
                    lemma_best_after_offer(before, d, k as nat, nb, accepted, best@);
                    assert(prefix_candidates(keys, active, index + 1) =~= d.insert(nb));
                }
            } else {
                proof {
                    assert(prefix_candidates(keys, active, index + 1) =~= d);
                }
            }
            index += 1;
        }
        Ok(vstd::slice::slice_to_vec(best.as_slice()))
    }

    /// Brute-force k-NN over the active full index.
    pub fn brute_force_knn<F: Fn(&P) -> u64>(&self, dist: &F, k: usize) -> (r: Result<
        Vec<Neighbor>,
        Error,
    >)
        requires
            self.wf(),
            distance_ok(dist, self.point_seq()),
        ensures
            r matches Ok(v) && is_best(
                v@,
                prefix_candidates(
                    keys_of(dist, self.point_seq()),
                    self.active_flags(),
                    self.point_seq().len() as int,
                ),
                k as nat,
            ),
    {
        self.brute_force_knn_prefix(dist, k, self.points.len())
    }
}

/// Neighbor `x` cannot be linked to a new point inserted after `n` points:
/// it is not earlier than the new point, or it is inactive.
pub open spec fn neighbor_rejected(n: nat, active: Seq<bool>, x: usize) -> bool {
    x >= n || !active[x as int]
}

/// The error reported for rejected neighbor `x` of a point inserted after `n` points.
pub open spec fn neighbor_error(n: nat, x: usize) -> Error {
    if x >= n {
        Error::InvalidInsertionNeighbor { inserted: n as usize, neighbor: x }
    } else {
        Error::InactivePoint { index: x }
    }
}

/// `e` reports the smallest rejected neighbor among `nb`.
pub open spec fn insertion_error(n: nat, active: Seq<bool>, nb: Seq<usize>, e: Error) -> bool {
    exists|x: usize|
        #[trigger] nb.contains(x) && neighbor_rejected(n, active, x) && (forall|y: usize|
            #[trigger] nb.contains(y) && y < x ==> !neighbor_rejected(n, active, y)) && e
            == neighbor_error(n, x)
}

/// The error of new successor edge `e` requested while deleting `deleted`
/// from an index of `n` points, if the edge is not acceptable.
pub open spec fn new_edge_error(n: nat, active: Seq<bool>, deleted: usize, e: (usize, usize)) -> Option<
    Error,
> {
    if e.0 >= n {
        Some(Error::InvalidIndex { index: e.0, len: n as usize })
    } else if e.1 >= n {
        Some(Error::InvalidIndex { index: e.1, len: n as usize })
    } else if e.0 == deleted || e.1 == deleted || e.0 >= e.1 {
        Some(Error::InvalidSuccessor { owner: e.0, successor: e.1, len: n as usize })
    } else if !active[e.0 as int] {
        Some(Error::InactivePoint { index: e.0 })
    } else if !active[e.1 as int] {
        Some(Error::InactivePoint { index: e.1 })
    } else {
        None
    }
}

/// The error reported when `index` must name an active point of an index of `n` points.
pub open spec fn active_index_error(n: nat, active: Seq<bool>, index: usize) -> Option<Error> {
    if index >= n {
        Some(Error::InvalidIndex { index, len: n as usize })
    } else if !active[index as int] {
        Some(Error::InactivePoint { index })
    } else {
        None
    }
}

/// `err` is the error of the lexicographically first unacceptable edge of `edges`.
pub open spec fn first_edge_error(
    n: nat,
    active: Seq<bool>,
    deleted: usize,
    edges: Seq<(usize, usize)>,
    err: Error,
) -> bool {
    exists|e: (usize, usize)|
        #[trigger] edges.contains(e) && new_edge_error(n, active, deleted, e) == Some(err) && (
        forall|e2: (usize, usize)|
            #[trigger] edges.contains(e2) && edge_lt(e2, e) ==> new_edge_error(
                n,
                active,
                deleted,
                e2,
            ) is None)
}

impl<P> ManifoldKnn<P> {
    /// Inserts a new point and links it to the given earlier neighbors: the
    /// new birth index is added to the successor list of each neighbor.
    ///
    /// Neighbors are deduplicated; the smallest neighbor that is not an earlier
    /// active point is reported, and then the index is left unchanged.
    /// Returns the birth index assigned to the inserted point.
    pub fn insert_with_neighbors(&mut self, point: P, prior_neighbors: Vec<usize>) -> (r: Result<
        usize,
        Error,
    >)
        requires
            old(self).wf(),
        ensures
            final(self).wf(),
            r is Ok <==> forall|x: usize|
                #[trigger] prior_neighbors@.contains(x) ==> !neighbor_rejected(
                    old(self).point_seq().len(),
                    old(self).active_flags(),
                    x,
                ),
            r matches Err(e) ==> {
                &&& insertion_error(
                    old(self).point_seq().len(),
                    old(self).active_flags(),
                    prior_neighbors@,
                    e,
                )
                &&& final(self).point_seq() == old(self).point_seq()
                &&& final(self).active_flags() == old(self).active_flags()
                &&& final(self).lists() == old(self).lists()
            },
            r matches Ok(i) ==> {
                let n = old(self).point_seq().len();
                &&& i == n
                &&& final(self).point_seq() == old(self).point_seq().push(point)
                &&& final(self).active_flags() == old(self).active_flags().push(true)
                &&& final(self).lists().len() == n + 1
                &&& final(self).lists()[n as int] == Seq::<usize>::empty()
                &&& forall|o: int|
                    0 <= o < n ==> if prior_neighbors@.contains(o as usize) {
                        is_sorted_set_of(
                            #[trigger] final(self).lists()[o],
                            old(self).lists()[o].push(n as usize),
                        )
                    } else {
                        final(self).lists()[o] == old(self).lists()[o]
                    }
                &&& complete_on(old(self).lists(), old(self).active_flags(), n as int) && (forall|o: usize|
                    o < n && old(self).active_flags()[o as int] ==> #[trigger] prior_neighbors@.contains(o))
                    ==> complete_on(final(self).lists(), final(self).active_flags(), n + 1int)
            },
    {
        let new_index = self.points.len();
        let ghost n = new_index as nat;
        let ghost active0 = self.active@;
        let ghost lists0 = self.successors@;
        let ghost points0 = self.points@;
        let neighbors = sorted_set(&prior_neighbors);
        let mut t: usize = 0;
        while t < neighbors.len()
            invariant
                self.wf(),
                n == new_index,
                points0.len() == n,
                active0.len() == n,
                self.points@ == points0,
                self.active@ == active0,
                self.successors@ == lists0,
                is_sorted_set_of(neighbors@, prior_neighbors@),
                t <= neighbors@.len(),
                forall|t2: int| 0 <= t2 < t ==> !neighbor_rejected(n, active0, #[trigger] neighbors@[t2]),
            decreases neighbors@.len() - t,
        {
            let neighbor = neighbors[t];
            if neighbor >= new_index || !self.active[neighbor] {
                proof {
                    let e = neighbor_error(n, neighbor);
                    assert(neighbors@[t as int] == neighbor);
                    assert(neighbors@.contains(neighbor));
                    assert(prior_neighbors@.contains(neighbor));
                    assert(neighbor_rejected(n, active0, neighbor));
                    assert forall|y: usize| #[trigger] prior_neighbors@.contains(y) && y < neighbor implies !neighbor_rejected(n, active0, y) by {
                        assert(neighbors@.contains(y));
                        let t2 = choose|t2: int| 0 <= t2 < neighbors@.len() && neighbors@[t2] == y;
                        if t2 >= t {
                            if t2 > t {
                                assert(neighbors@[t as int] < neighbors@[t2]);
                            }
                        }
                    }
                    assert(insertion_error(n, active0, prior_neighbors@, e));
                }
                if neighbor >= new_index {
                    return Err(Error::InvalidInsertionNeighbor { inserted: new_index, neighbor });
                }
                return Err(Error::InactivePoint { index: neighbor });
            }
            t += 1;
        }
        proof {
            assert forall|x: usize| #[trigger] prior_neighbors@.contains(x) implies !neighbor_rejected(n, active0, x) by {
                assert(neighbors@.contains(x));
            }
        }
        self.points.push(point);
        self.active.push(true);
        self.successors.push_empty_list();
        let _count = self.points.len();
        let ghost lists1 = self.successors@;
        let mut t: usize = 0;
        while t < neighbors.len()
            invariant
                self.successors.wf(),
                n == new_index,
                self.points@ == points0.push(point),
                self.active@ == active0.push(true),
                self.active@.len() == n + 1,
                self.points@.len() <= usize::MAX,
                lists1 == lists0.push(Seq::<usize>::empty()),
                self.successors@.len() == n + 1,
                is_sorted_set_of(neighbors@, prior_neighbors@),
                t <= neighbors@.len(),
                forall|t2: int| 0 <= t2 < neighbors@.len() ==> (#[trigger] neighbors@[t2]) < n,
                forall|o: int|
                    0 <= o <= n ==> if neighbors@.take(t as int).contains(o as usize) {
                        is_sorted_set_of(#[trigger] self.successors@[o], lists1[o].push(n as usize))
                    } else {
                        self.successors@[o] == lists1[o]
                    },
            decreases neighbors@.len() - t,
        {
            let neighbor = neighbors[t];
            let ghost before = self.successors@;
            match self.successors.insert_successor(neighbor, new_index) {
                Err(e) => {
                    proof {
                        assert(edge_check(before.len(), neighbor, new_index) is Ok);
                    }
                    return Err(e);
                },
                Ok(_) => {},
            }
            proof {
                let t0 = neighbors@.take(t as int);
                let t1 = neighbors@.take(t + 1);
                assert(t1 =~= t0.push(neighbor));
                lemma_contains_push(t0, neighbor);
                assert(!t0.contains(neighbor)) by {
                    if t0.contains(neighbor) {
                        let u = choose|u: int| 0 <= u < t0.len() && t0[u] == neighbor;
                        assert(neighbors@[u] < neighbors@[t as int]);
                    }
                }
                assert(before[neighbor as int] == lists1[neighbor as int]);
                assert forall|o: int| 0 <= o <= n implies if t1.contains(o as usize) {
                    is_sorted_set_of(#[trigger] self.successors@[o], lists1[o].push(n as usize))
                } else {
                    self.successors@[o] == lists1[o]
                } by {
                    if o != neighbor {
                        assert(self.successors@[o] == before[o]);
                    } else {
                        assert forall|y: usize| self.successors@[o].contains(y) <==> lists1[o].push(
                            n as usize,
                        ).contains(y) by {
                            lemma_contains_push(lists1[o], n as usize);
                            lemma_contains_push(before[o], new_index);
                        }
                    }
                }
            }
            t += 1;
        }
        proof {
            assert(neighbors@.take(neighbors@.len() as int) =~= neighbors@);
            assert forall|o: int| 0 <= o < n implies if prior_neighbors@.contains(o as usize) {
                is_sorted_set_of(#[trigger] self.successors@[o], lists0[o].push(n as usize))
            } else {
                self.successors@[o] == lists0[o]
            } by {
                assert(lists1[o] == lists0[o]);
            }
            assert(self.successors@[n as int] == lists1[n as int]) by {
                if neighbors@.contains(n as usize) {
                    let u = choose|u: int| 0 <= u < neighbors@.len() && neighbors@[u] == n as usize;
                }
            }
            let ls = self.successors@;
            let act1 = self.active@;
            if complete_on(lists0, active0, n as int) && (forall|o: usize|
                o < n && active0[o as int] ==> #[trigger] prior_neighbors@.contains(o)) {
                assert forall|i: int, j: usize|
                    eligible(act1, n + 1int, i) && eligible(act1, n + 1int, j as int) && i < j implies #[trigger] ls[i].contains(j) by {
                    assert(eligible(active0, n as int, i));
                    if j < n {
                        assert(eligible(active0, n as int, j as int));
                        assert(lists0[i].contains(j));
                        if prior_neighbors@.contains(i as usize) {
                            lemma_contains_push(lists0[i], n as usize);
                        }
                    } else {
                        assert(prior_neighbors@.contains(i as usize));
                        lemma_contains_push(lists0[i], n as usize);
                    }
                }
            }
        }
        Ok(new_index)
    }
}

/// The requested edges of `es` that the lists `ls` do not hold yet.
pub open spec fn edges_added(ls: Seq<Seq<usize>>, es: Seq<(usize, usize)>) -> Set<(usize, usize)> {
    Set::new(|e: (usize, usize)| es.contains(e) && !ls[e.0 as int].contains(e.1))
}

/// The requested edges of `es` that the lists `ls` already hold.
pub open spec fn edges_present(ls: Seq<Seq<usize>>, es: Seq<(usize, usize)>) -> Set<(usize, usize)> {
    Set::new(|e: (usize, usize)| es.contains(e) && ls[e.0 as int].contains(e.1))
}

impl<P> ManifoldKnn<P> {
    /// Checks that `index` names an active point.
    fn ensure_active_index(&self, index: usize) -> (r: Result<(), Error>)
        requires
            self.wf(),
        ensures
            match active_index_error(self.point_seq().len(), self.active_flags(), index) {
                Some(e) => r == Err::<(), Error>(e),
                None => r is Ok,
            },
    {
        if index >= self.points.len() {
            return Err(Error::InvalidIndex { index, len: self.points.len() });
        }
        if !self.active[index] {
            return Err(Error::InactivePoint { index });
        }
        Ok(())
    }

    /// Checks a successor edge requested while deleting `deleted`.
    fn validate_new_successor_edge(&self, deleted: usize, owner: usize, successor: usize) -> (r:
        Result<(), Error>)
        requires
            self.wf(),
        ensures
            match new_edge_error(
                self.point_seq().len(),
                self.active_flags(),
                deleted,
                (owner, successor),
            ) {
                Some(e) => r == Err::<(), Error>(e),
                None => r is Ok,
            },
    {
        let len = self.points.len();
        if owner >= len {
            return Err(Error::InvalidIndex { index: owner, len });
        }
        if successor >= len {
            return Err(Error::InvalidIndex { index: successor, len });
        }
        if owner == deleted || successor == deleted || owner >= successor {
            return Err(Error::InvalidSuccessor { owner, successor, len });
        }
        if !self.active[owner] {
            return Err(Error::InactivePoint { index: owner });
        }
        if !self.active[successor] {
            return Err(Error::InactivePoint { index: successor });
        }
        Ok(())
    }
}


impl<P> ManifoldKnn<P> {
    /// Marks `index` as deleted and applies successor edges computed elsewhere
    /// to replace the adjacencies that the deletion removed.
    ///
    /// Each pair `(i, j)` asks for the successor edge `i -> j`; it must satisfy
    /// `i < j`, and both ends must be active points other than the deleted one.
    /// Pairs are deduplicated and checked in lexicographic order; on the first
    /// unacceptable pair the index is left unchanged.
    pub fn delete_with_new_successors(&mut self, index: usize, new_successors: Vec<(usize, usize)>) -> (r:
        Result<DeleteReport, Error>)
        requires
            old(self).wf(),
        ensures
            final(self).wf(),
            r is Ok <==> active_index_error(old(self).point_seq().len(), old(self).active_flags(), index)
                is None && forall|e: (usize, usize)|
                #[trigger] new_successors@.contains(e) ==> new_edge_error(
                    old(self).point_seq().len(),
                    old(self).active_flags(),
                    index,
                    e,
                ) is None,
            r matches Err(e) ==> {
                &&& match active_index_error(
                    old(self).point_seq().len(),
                    old(self).active_flags(),
                    index,
                ) {
                    Some(e0) => e == e0,
                    None => first_edge_error(
                        old(self).point_seq().len(),
                        old(self).active_flags(),
                        index,
                        new_successors@,
                        e,
                    ),
                }
                &&& final(self).point_seq() == old(self).point_seq()
                &&& final(self).active_flags() == old(self).active_flags()
                &&& final(self).lists() == old(self).lists()
            },
            r matches Ok(report) ==> {
                let n = old(self).point_seq().len();
                let ls = old(self).lists();
                &&& final(self).point_seq() == old(self).point_seq()
                &&& final(self).active_flags() == old(self).active_flags().update(index as int, false)
                &&& final(self).lists().len() == n
                &&& final(self).lists()[index as int] == Seq::<usize>::empty()
                &&& forall|o: int, y: usize|
                    0 <= o < n && o != index ==> (#[trigger] final(self).lists()[o].contains(y) <==> (
                    ls[o].contains(y) && y != index) || new_successors@.contains((o as usize, y)))
                &&& report.removed_references == count_lists_with(ls, index, n)
                &&& report.inserted_successors == edges_added(ls, new_successors@).len()
                &&& report.already_present == edges_present(ls, new_successors@).len()
                &&& forall|p: int|
                    complete_on(ls, old(self).active_flags(), p) ==> #[trigger] complete_on(
                        final(self).lists(),
                        final(self).active_flags(),
                        p,
                    )
            },
    {
        let ghost n = self.points@.len();
        let ghost act0 = self.active@;
        let ghost ls0 = self.successors@;
        let ghost pts0 = self.points@;
        match self.ensure_active_index(index) {
            Err(e) => return Err(e),
            Ok(()) => {},
        }
        let edges = sorted_edge_set(&new_successors);
        let mut t: usize = 0;
        while t < edges.len()
            invariant
                self.wf(),
                self.points@ == pts0,
                self.active@ == act0,
                self.successors@ == ls0,
                n == pts0.len(),
                act0.len() == n,
                active_index_error(n, act0, index) is None,
                edges_increasing(edges@),
                forall|e: (usize, usize)| edges@.contains(e) <==> new_successors@.contains(e),
                t <= edges@.len(),
                forall|t2: int|
                    0 <= t2 < t ==> new_edge_error(n, act0, index, #[trigger] edges@[t2]) is None,
            decreases edges@.len() - t,
        {
            let (owner, successor) = edges[t];
            match self.validate_new_successor_edge(index, owner, successor) {
                Err(e) => {
                    proof {
                        let x = edges@[t as int];
                        assert(edges@.contains(x));
                        assert(new_successors@.contains(x));
                        assert forall|e2: (usize, usize)|
                            #[trigger] new_successors@.contains(e2) && edge_lt(
                                e2,
                                x,
                            ) implies new_edge_error(n, act0, index, e2) is None by {
                            assert(edges@.contains(e2));
                            let u = choose|u: int| 0 <= u < edges@.len() && edges@[u] == e2;
                            if u >= t {
                                if u > t {
                                    assert(edge_lt(edges@[t as int], edges@[u]));
                                }
                            }
                        }
                        assert(first_edge_error(n, act0, index, new_successors@, e));
                    }
                    return Err(e);
                },
                Ok(()) => {},
            }
            t += 1;
        }
        proof {
            assert forall|e: (usize, usize)| #[trigger]
                new_successors@.contains(e) implies new_edge_error(n, act0, index, e) is None by {
                assert(edges@.contains(e));
            }
        }
        let removed_references = self.successors.remove_references_to(index);
        match self.successors.clear_list(index) {
            Err(e) => return Err(e),
            Ok(()) => {},
        }
        self.active.set(index, false);
        let ghost ls_r = self.successors@;
        let ghost act1 = self.active@;
        let mut inserted: usize = 0;
        let mut present: usize = 0;
        let ghost mut s_ins: Set<(usize, usize)> = Set::empty();
        let ghost mut s_pres: Set<(usize, usize)> = Set::empty();
        let mut t: usize = 0;
        while t < edges.len()
            invariant
                self.successors.wf(),
                self.points@ == pts0,
                self.active@ == act1,
                act1 == act0.update(index as int, false),
                n == pts0.len(),
                act0.len() == n,
                n <= usize::MAX,
                index < n,
                self.successors@.len() == n,
                ls_r.len() == n,
                ls0.len() == n,
                ls_r[index as int] == Seq::<usize>::empty(),
                forall|o: int, y: usize|
                    0 <= o < n && o != index ==> (#[trigger] ls_r[o].contains(y) <==> (
                    ls0[o].contains(y) && y != index)),
                edges_increasing(edges@),
                forall|e: (usize, usize)| edges@.contains(e) <==> new_successors@.contains(e),
                forall|t2: int|
                    0 <= t2 < edges@.len() ==> new_edge_error(n, act0, index, #[trigger] edges@[t2])
                        is None,
                t <= edges@.len(),
                forall|o: int, y: usize|
                    0 <= o < n ==> (#[trigger] self.successors@[o].contains(y) <==> (
                    ls_r[o].contains(y) || edges@.take(t as int).contains((o as usize, y)))),
                s_ins.finite(),
                s_pres.finite(),
                inserted == s_ins.len(),
                present == s_pres.len(),
                inserted + present == t,
                forall|e: (usize, usize)|
                    #[trigger] s_ins.contains(e) <==> (edges@.take(t as int).contains(e)
                        && !ls0[e.0 as int].contains(e.1)),
                forall|e: (usize, usize)|
                    #[trigger] s_pres.contains(e) <==> (edges@.take(t as int).contains(e)
                        && ls0[e.0 as int].contains(e.1)),
            decreases edges@.len() - t,
        {
            let (owner, successor) = edges[t];
            let ghost x = edges@[t as int];
            let ghost before = self.successors@;
            proof {
                assert(new_edge_error(n, act0, index, x) is None);
            }
            let added = match self.successors.insert_successor(owner, successor) {
                Ok(b) => b,
                Err(e) => return Err(e),
            };
            proof {
                let t0 = edges@.take(t as int);
                let t1 = edges@.take(t + 1);
                assert(t1 =~= t0.push(x));
                lemma_contains_push(t0, x);
                assert(!t0.contains(x)) by {
                    if t0.contains(x) {
                        let u = choose|u: int| 0 <= u < t0.len() && t0[u] == x;
                        assert(edge_lt(edges@[u], edges@[t as int]));
                    }
                }
                assert(before[owner as int].contains(successor) <==> ls0[owner as int].contains(successor));
                if added {
                    s_ins = s_ins.insert(x);
                } else {
                    s_pres = s_pres.insert(x);
                }
                assert forall|o: int, y: usize|
                    0 <= o < n implies (#[trigger] self.successors@[o].contains(y) <==> (
                    ls_r[o].contains(y) || t1.contains((o as usize, y)))) by {
                    if o != owner {
                        assert(self.successors@[o] == before[o]);
                    } else {
                        lemma_contains_push(before[o], successor);
                    }
                }
            }
            if added {
                inserted += 1;
            } else {
                present += 1;
            }
            t += 1;
        }
        proof {
            assert(edges@.take(edges@.len() as int) =~= edges@);
            let ls = self.successors@;
            assert(ls[index as int] =~= Seq::<usize>::empty()) by {
                if ls[index as int].len() > 0 {
                    let y = ls[index as int][0];
                    assert(ls[index as int].contains(y));
                    assert(edges@.contains((index, y)));
                    let u = choose|u: int| 0 <= u < edges@.len() && edges@[u] == (index, y);
                    assert(new_edge_error(n, act0, index, edges@[u]) is None);
                }
            }
            assert(s_ins =~= edges_added(ls0, new_successors@));
            assert(s_pres =~= edges_present(ls0, new_successors@));
            assert forall|p: int| complete_on(ls0, act0, p) implies #[trigger] complete_on(ls, act1, p) by {
                assert forall|i: int, j: usize|
                    eligible(act1, p, i) && eligible(act1, p, j as int) && i < j implies #[trigger] ls[i].contains(j) by {
                    assert(eligible(act0, p, i));
                    assert(eligible(act0, p, j as int));
                    assert(ls0[i].contains(j));
                }
            }
        }
        Ok(DeleteReport { removed_references, inserted_successors: inserted, already_present: present })
    }
}


impl<P> ManifoldKnn<P> {
    /// Deletes a point and rebuilds the complete successor table over the
    /// points that stay active: every active point lists every later active
    /// point. Queries on the result are exact.
    pub fn delete_rebuild_complete(&mut self, index: usize) -> (r: Result<DeleteReport, Error>)
        requires
            old(self).wf(),
        ensures
            final(self).wf(),
            match active_index_error(old(self).point_seq().len(), old(self).active_flags(), index) {
                Some(e) => {
                    &&& r == Err::<DeleteReport, Error>(e)
                    &&& final(self).point_seq() == old(self).point_seq()
                    &&& final(self).active_flags() == old(self).active_flags()
                    &&& final(self).lists() == old(self).lists()
                },
                None => r matches Ok(report) && {
                    let n = old(self).point_seq().len();
                    let act = old(self).active_flags().update(index as int, false);
                    &&& final(self).point_seq() == old(self).point_seq()
                    &&& final(self).active_flags() == act
                    &&& final(self).lists().len() == n
                    &&& forall|o: int, y: usize|
                        0 <= o < n ==> (#[trigger] final(self).lists()[o].contains(y) <==> (act[o]
                            && o < y < n && act[y as int]))
                    &&& complete_on(final(self).lists(), act, n as int)
                    &&& report.removed_references == count_lists_with(old(self).lists(), index, n)
                    &&& report.inserted_successors == total_entries(final(self).lists())
                    &&& report.already_present == 0
                },
            },
    {
        let ghost pts0 = self.points@;
        let ghost act0 = self.active@;
        match self.ensure_active_index(index) {
            Err(e) => return Err(e),
            Ok(()) => {},
        }
        let removed_references = self.successors.remove_references_to(index);
        self.successors.clear_all();
        self.active.set(index, false);
        let ghost act = self.active@;
        let n = self.points.len();
        proof {
            lemma_total_entries_empty(n as nat);
        }
        let mut inserted: usize = 0;
        let mut owner: usize = 0;
        while owner < n
            invariant
                self.successors.wf(),
                self.points@ == pts0,
                self.active@ == act,
                act == act0.update(index as int, false),
                n == pts0.len(),
                act0.len() == n,
                act.len() == n,
                self.successors@.len() == n,
                owner <= n,
                forall|o: int, y: usize|
                    0 <= o < n ==> (#[trigger] self.successors@[o].contains(y) <==> (o < owner
                        && act[o] && o < y < n && act[y as int])),
                inserted == total_entries(self.successors@),
            decreases n - owner,
        {
            if self.active[owner] {
                let mut successor = owner + 1;
                while successor < n
                    invariant
                        self.successors.wf(),
                        self.points@ == pts0,
                        self.active@ == act,
                        act.len() == n,
                        self.successors@.len() == n,
                        owner < n,
                        act[owner as int],
                        owner + 1 <= successor <= n,
                        forall|o: int, y: usize|
                            0 <= o < n ==> (#[trigger] self.successors@[o].contains(y) <==> ((o
                                < owner && act[o] && o < y < n && act[y as int]) || (o == owner
                                && o < y < successor && act[y as int]))),
                        inserted == total_entries(self.successors@),
                    decreases n - successor,
                {
                    if self.active[successor] {
                        let ghost before = self.successors@;
                        match self.successors.insert_successor(owner, successor) {
                            Err(e) => return Err(e),
                            Ok(_) => {},
                        }
                        proof {
                            let now = self.successors@;
                            assert(now =~= before.update(owner as int, now[owner as int]));
                            lemma_total_entries_update(before, owner as int, now[owner as int]);
                            self.successors.lemma_entries_fit();
                            assert forall|o: int, y: usize| 0 <= o < n implies (
                            #[trigger] now[o].contains(y) <==> ((o < owner && act[o] && o < y < n
                                && act[y as int]) || (o == owner && o < y < successor + 1
                                && act[y as int]))) by {
                                if o == owner {
                                    lemma_contains_push(before[o], successor);
                                }
                            }
                        }
                        inserted += 1;
                    }
                    successor += 1;
                }
            }
            owner += 1;
        }
        proof {
            let ls = self.successors@;
            assert forall|i: int, j: usize|
                eligible(act, n as int, i) && eligible(act, n as int, j as int) && i < j implies #[trigger] ls[i].contains(j) by {
            }
        }
        Ok(DeleteReport { removed_references, inserted_successors: inserted, already_present: 0 })
    }
}


impl<P> ManifoldKnn<P> {
    /// With a complete successor table below `prefix`, the k-NN query and the
    /// brute-force scan report the same list.
    pub proof fn lemma_knn_matches_brute_force<F: Fn(&P) -> u64>(
        &self,
        dist: &F,
        k: nat,
        prefix: int,
        v: Seq<Neighbor>,
        w: Seq<Neighbor>,
    )
        requires
            complete_on(self.lists(), self.active_flags(), prefix),
            self.knn_outcome(dist, k, prefix, v),
            is_best(w, prefix_candidates(keys_of(dist, self.point_seq()), self.active_flags(), prefix), k),
        ensures
            v == w,
    {
        lemma_best_is_unique(
            v,
            w,
            prefix_candidates(keys_of(dist, self.point_seq()), self.active_flags(), prefix),
            k,
        );
    }

    /// A query has one answer: two k-NN results for the same index, distance
    /// function, `k` and prefix are the same list, whichever workspace or
    /// entry point produced them.
    pub proof fn lemma_knn_outcome_unique<F: Fn(&P) -> u64>(
        &self,
        dist: &F,
        k: nat,
        prefix: int,
        v: Seq<Neighbor>,
        w: Seq<Neighbor>,
    )
        requires
            self.knn_outcome(dist, k, prefix, v),
            self.knn_outcome(dist, k, prefix, w),
        ensures
            v == w,
    {
    }

    /// A query below `prefix` does not see the points from `prefix` on: an
    /// index that agrees with this one on its first `prefix` points, on their
    /// active flags and on the successor edges among them (for instance one
    /// built from those points alone) gives the same answer.
    pub proof fn lemma_prefix_query_ignores_later_points<F: Fn(&P) -> u64>(
        &self,
        other: &ManifoldKnn<P>,
        dist: &F,
        k: nat,
        prefix: int,
        v: Seq<Neighbor>,
        w: Seq<Neighbor>,
    )
        requires
            self.wf(),
            other.wf(),
            0 <= prefix <= self.point_seq().len(),
            prefix <= other.point_seq().len(),
            forall|i: int| 0 <= i < prefix ==> #[trigger] self.point_seq()[i] == other.point_seq()[i],
            forall|i: int| 0 <= i < prefix ==> #[trigger] self.active_flags()[i] == other.active_flags()[i],
            forall|i: int, j: usize|
                0 <= i < prefix && j < prefix ==> (#[trigger] self.lists()[i].contains(j)
                    <==> other.lists()[i].contains(j)),
            self.knn_outcome(dist, k, prefix, v),
            other.knn_outcome(dist, k, prefix, w),
        ensures
            v == w,
    {
        self.lemma_wf();
        other.lemma_wf();
        let keys1 = keys_of(dist, self.point_seq());
        let keys2 = keys_of(dist, other.point_seq());
        assert forall|i: int| 0 <= i < prefix implies #[trigger] keys1[i] == keys2[i] by {
            assert(self.point_seq()[i] == other.point_seq()[i]);
        }
        assert forall|i: int, j: usize| 0 <= i < prefix && j < prefix implies (#[trigger] other.lists()[i].contains(j)
            <==> self.lists()[i].contains(j)) by {
            assert(self.lists()[i].contains(j) <==> other.lists()[i].contains(j));
        }
        assert forall|i: int| 0 <= i < prefix implies #[trigger] other.active_flags()[i] == self.active_flags()[i] by {
            assert(self.active_flags()[i] == other.active_flags()[i]);
        }
        assert forall|i: int| 0 <= i < prefix implies #[trigger] keys2[i] == keys1[i] by {
            assert(keys1[i] == keys2[i]);
        }
        lemma_answer_ignores_later_points(
            self.lists(),
            self.active_flags(),
            keys1,
            other.lists(),
            other.active_flags(),
            keys2,
            prefix,
            k,
        );
    }

    /// A prefix query reports at most `k` points, each an active point with
    /// birth index below the prefix together with its own distance key, in
    /// strictly increasing rank order.
    pub proof fn lemma_knn_results_in_prefix<F: Fn(&P) -> u64>(
        &self,
        dist: &F,
        k: nat,
        prefix: int,
        v: Seq<Neighbor>,
    )
        requires
            self.knn_outcome(dist, k, prefix, v),
        ensures
            v.len() <= k,
            forall|t: int|
                0 <= t < v.len() ==> {
                    &&& (#[trigger] v[t]).index < prefix
                    &&& (v[t].index as int) < self.active_flags().len()
                    &&& self.active_flags()[v[t].index as int]
                    &&& v[t].distance_key == keys_of(dist, self.point_seq())[v[t].index as int]
                },
            forall|s: int, t: int| 0 <= s < t < v.len() ==> precedes(v[s], v[t]),
    {
        let keys = keys_of(dist, self.point_seq());
        let d = choose|d: Set<Neighbor>|
            #[trigger] explored_result(self.lists(), self.active_flags(), keys, prefix, k, v, d);
        assert forall|t: int| 0 <= t < v.len() implies {
            &&& (#[trigger] v[t]).index < prefix
            &&& (v[t].index as int) < self.active_flags().len()
            &&& self.active_flags()[v[t].index as int]
            &&& v[t].distance_key == keys[v[t].index as int]
        } by {
            assert(v.contains(v[t]));
            assert(d.contains(v[t]));
            assert(prefix_candidates(keys, self.active_flags(), prefix).contains(v[t]));
        }
    }
}

} // verus!
