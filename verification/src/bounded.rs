//! Neighbors, their order, and a bounded sorted list of the best ones seen.
use vstd::prelude::*;

verus! {

/// A nearest-neighbor result.
///
/// The distance is carried as an ordering key: the bit pattern of the
/// non-negative squared Euclidean distance, which orders exactly as the
/// distance itself does.
#[derive(Clone, Copy, Debug, PartialEq, Eq)]
pub struct Neighbor {
    /// Index of the point in the birth-time-ordered point array.
    pub index: usize,
    /// Ordering key of the squared distance from the query to the point.
    pub distance_key: u64,
}

/// `a` ranks strictly before `b`: smaller distance, then smaller birth index.
pub open spec fn precedes(a: Neighbor, b: Neighbor) -> bool {
    a.distance_key < b.distance_key || (a.distance_key == b.distance_key && a.index < b.index)
}

/// The neighbors are in strictly increasing rank order.
pub open spec fn sorted_neighbors(s: Seq<Neighbor>) -> bool {
    forall|a: int, b: int| 0 <= a < b < s.len() ==> precedes(#[trigger] s[a], #[trigger] s[b])
}

/// Some neighbor of `s` has birth index `i`.
pub open spec fn index_listed(s: Seq<Neighbor>, i: usize) -> bool {
    exists|t: int| 0 <= t < s.len() && (#[trigger] s[t]).index == i
}

/// The smaller of two counts.
pub open spec fn min_nat(a: nat, b: nat) -> nat {
    if a <= b {
        a
    } else {
        b
    }
}

/// `items` lists, in rank order, the `k` best elements of the finite set `s`
/// (all of `s` when it has fewer than `k` elements).
pub open spec fn is_best(items: Seq<Neighbor>, s: Set<Neighbor>, k: nat) -> bool {
    &&& s.finite()
    &&& sorted_neighbors(items)
    &&& forall|m: Neighbor| #[trigger] items.contains(m) ==> s.contains(m)
    &&& items.len() == min_nat(k, s.len())
    &&& forall|m: Neighbor, x: Neighbor|
        #[trigger] items.contains(m) && #[trigger] s.contains(x) && !items.contains(x) ==> precedes(
            m,
            x,
        )
}

/// Returns whether `a` ranks strictly before `b`.
pub fn neighbor_precedes(a: &Neighbor, b: &Neighbor) -> (r: bool)
    ensures
        r == precedes(*a, *b),
{
    a.distance_key < b.distance_key || (a.distance_key == b.distance_key && a.index < b.index)
}

/// Returns whether a candidate with `new_key` at `new_index` ranks strictly
/// before one with `old_key` at `old_index`.
pub fn is_strictly_better(new_key: u64, new_index: usize, old_key: u64, old_index: usize) -> (r:
    bool)
    ensures
        r == precedes(
            Neighbor { index: new_index, distance_key: new_key },
            Neighbor { index: old_index, distance_key: old_key },
        ),
{
    new_key < old_key || (new_key == old_key && new_index < old_index)
}

/// Rank order is total: two neighbors are equal or one precedes the other.
pub proof fn lemma_precedes_total(a: Neighbor, b: Neighbor)
    ensures
        a == b || precedes(a, b) || precedes(b, a),
        !(precedes(a, b) && precedes(b, a)),
        !precedes(a, a),
{
}

/// A sorted list has no repeated element, and as many distinct elements as entries.
pub proof fn lemma_sorted_no_duplicates(s: Seq<Neighbor>)
    requires
        sorted_neighbors(s),
    ensures
        s.no_duplicates(),
        s.to_set().len() == s.len(),
        s.to_set().finite(),
{
    assert forall|a: int, b: int| 0 <= a < s.len() && 0 <= b < s.len() && a != b implies s[a]
        != s[b] by {
        if a < b {
            assert(precedes(s[a], s[b]));
        } else {
            assert(precedes(s[b], s[a]));
        }
    }
    s.unique_seq_to_set();
    vstd::seq_lib::seq_to_set_is_finite(s);
}

/// Two lists in strictly increasing rank order with the same elements are equal.
pub proof fn lemma_sorted_neighbors_unique(a: Seq<Neighbor>, b: Seq<Neighbor>)
    requires
        sorted_neighbors(a),
        sorted_neighbors(b),
        forall|x: Neighbor| a.contains(x) <==> b.contains(x),
    ensures
        a == b,
    decreases a.len(),
{
    if a.len() == 0 {
        if b.len() > 0 {
            assert(b.contains(b[0]));
        }
        assert(a =~= b);
    } else {
        assert(a.contains(a[0]));
        let j = choose|j: int| 0 <= j < b.len() && b[j] == a[0];
        assert(b.contains(b[0]));
        let i = choose|i: int| 0 <= i < a.len() && a[i] == b[0];
        if j > 0 {
            assert(precedes(b[0], b[j]));
            if i > 0 {
                assert(precedes(a[0], a[i]));
            }
        }
        assert(a[0] == b[0]);
        let a1 = a.drop_first();
        let b1 = b.drop_first();
        assert forall|x: Neighbor| a1.contains(x) <==> b1.contains(x) by {
            if a1.contains(x) {
                let t = choose|t: int| 0 <= t < a1.len() && a1[t] == x;
                assert(a[t + 1] == x);
                assert(precedes(a[0], a[t + 1]));
                assert(a.contains(x));
                let u = choose|u: int| 0 <= u < b.len() && b[u] == x;
                assert(u != 0);
                assert(b1[u - 1] == x);
            }
            if b1.contains(x) {
                let t = choose|t: int| 0 <= t < b1.len() && b1[t] == x;
                assert(b[t + 1] == x);
                assert(precedes(b[0], b[t + 1]));
                assert(b.contains(x));
                let u = choose|u: int| 0 <= u < a.len() && a[u] == x;
                assert(u != 0);
                assert(a1[u - 1] == x);
            }
        }
        lemma_sorted_neighbors_unique(a1, b1);
        assert(a =~= b) by {
            assert forall|t: int| 0 <= t < a.len() implies a[t] == b[t] by {
                if t > 0 {
                    assert(a1[t - 1] == b1[t - 1]);
                }
            }
        }
    }
}

/// The best `k` elements of a finite set, in rank order, are unique: two lists
/// that both are the best `k` of the same set are equal.
pub proof fn lemma_best_is_unique(a: Seq<Neighbor>, b: Seq<Neighbor>, s: Set<Neighbor>, k: nat)
    requires
        is_best(a, s, k),
        is_best(b, s, k),
    ensures
        a == b,
{
    lemma_sorted_no_duplicates(a);
    lemma_sorted_no_duplicates(b);
    assert forall|x: Neighbor| a.contains(x) <==> b.contains(x) by {
        if a.contains(x) && !b.contains(x) {
            lemma_best_has_other(a, b, x);
        }
        if b.contains(x) && !a.contains(x) {
            lemma_best_has_other(b, a, x);
        }
    }
    lemma_sorted_neighbors_unique(a, b);
}

/// Of two lists with as many distinct elements each, if `x` is in the first
/// only, then some element is in the second only; with both lists best of the
/// same set, each of the two would have to rank before the other.
proof fn lemma_best_has_other(a: Seq<Neighbor>, b: Seq<Neighbor>, x: Neighbor)
    requires
        a.to_set().len() == a.len(),
        b.to_set().len() == b.len(),
        a.to_set().finite(),
        b.to_set().finite(),
        a.len() == b.len(),
        a.contains(x),
        !b.contains(x),
    ensures
        exists|z: Neighbor| #[trigger] b.contains(z) && !a.contains(z),
{
    if forall|z: Neighbor| #[trigger] b.contains(z) ==> a.contains(z) {
        let sa = a.to_set().remove(x);
        assert(b.to_set().subset_of(sa));
        vstd::set_lib::lemma_len_subset(b.to_set(), sa);
        assert(a.to_set().contains(x));
    }
}

/// Offering `n` to a best-`k` list of `d` leaves a best-`k` list of `d` with
/// `n` added, whether or not the list accepted `n`, provided that `n` is the
/// only element of `d` with its index.
pub proof fn lemma_best_after_offer(
    a: Seq<Neighbor>,
    d: Set<Neighbor>,
    k: nat,
    n: Neighbor,
    accepted: bool,
    f: Seq<Neighbor>,
)
    requires
        is_best(a, d, k),
        forall|m: Neighbor| #[trigger] d.contains(m) && m.index == n.index ==> m == n,
        accepted == (k > 0 && !(a.len() == k && !precedes(n, a.last())) && !index_listed(
            a,
            n.index,
        )),
        !accepted ==> f == a,
        accepted ==> is_best(f, a.to_set().insert(n), k),
    ensures
        is_best(f, d.insert(n), k),
{
    let d2 = d.insert(n);
    lemma_sorted_no_duplicates(a);
    if d.contains(n) {
        assert(d2 =~= d);
        if a.contains(n) {
            let t = choose|t: int| 0 <= t < a.len() && a[t] == n;
            assert(index_listed(a, n.index));
        } else if k > 0 {
            assert(a.len() == k) by {
                if a.len() < k {
                    assert(a.len() == d.len());
                    assert(a.to_set().subset_of(d));
                    vstd::set_lib::lemma_subset_equality(a.to_set(), d);
                    assert(a.to_set().contains(n));
                }
            }
            assert(a.contains(a.last()));
            assert(precedes(a.last(), n));
        }
        return;
    }
    assert(d2.len() == d.len() + 1);
    assert(!index_listed(a, n.index)) by {
        if index_listed(a, n.index) {
            let t = choose|t: int| 0 <= t < a.len() && (#[trigger] a[t]).index == n.index;
            assert(a.contains(a[t]));
        }
    }
    if !accepted {
        if k == 0 {
            assert(a.len() == 0);
            assert(f =~= Seq::<Neighbor>::empty());
        } else {
            // The list is full and `n` does not rank before its last element.
            assert(a.len() == k);
            assert(a.contains(a.last()));
            lemma_precedes_total(n, a.last());
            assert(precedes(a.last(), n));
            assert forall|m: Neighbor, x: Neighbor|
                #[trigger] f.contains(m) && #[trigger] d2.contains(x) && !f.contains(x) implies precedes(
                m,
                x,
            ) by {
                if x == n {
                    let t = choose|t: int| 0 <= t < a.len() && a[t] == m;
                    if t < a.len() - 1 {
                        assert(precedes(a[t], a[a.len() - 1]));
                    }
                }
            }
        }
    } else {
        let t = a.to_set().insert(n);
        assert(!a.to_set().contains(n));
        assert(t.len() == a.len() + 1);
        // The new list only holds elements of `d` and `n`.
        assert forall|m: Neighbor| #[trigger] f.contains(m) implies d2.contains(m) by {
            assert(t.contains(m));
        }
        assert(f.len() == min_nat(k, d2.len())) by {
            if d.len() >= k {
                assert(a.len() == k);
            } else {
                assert(a.len() == d.len());
            }
        }
        assert forall|m: Neighbor, x: Neighbor|
            #[trigger] f.contains(m) && #[trigger] d2.contains(x) && !f.contains(x) implies precedes(
            m,
            x,
        ) by {
            if t.contains(x) {
            } else {
                // `x` was already outside the old list.
                assert(d.contains(x));
                assert(!a.contains(x));
                if a.contains(m) {
                } else {
                    assert(m == n);
                    // The old list was full, so `n` displaced one of its elements.
                    assert(a.len() == k) by {
                        if a.len() < k {
                            assert(a.len() == d.len());
                            assert(a.to_set().subset_of(d));
                            vstd::set_lib::lemma_subset_equality(a.to_set(), d);
                            assert(a.to_set().contains(x));
                        }
                    }
                    assert(exists|y: Neighbor| t.contains(y) && !f.contains(y)) by {
                        if forall|y: Neighbor| t.contains(y) ==> f.contains(y) {
                            lemma_sorted_no_duplicates(f);
                            assert(t.subset_of(f.to_set()));
                            vstd::set_lib::lemma_len_subset(t, f.to_set());
                        }
                    }
                    let y = choose|y: Neighbor| t.contains(y) && !f.contains(y);
                    assert(precedes(n, y));
                    assert(y != n);
                    assert(a.contains(y));
                    assert(precedes(y, x));
                }
            }
        }
    }
}

/// A bounded list of the best neighbors offered so far, kept sorted by rank.
#[derive(Clone, Debug)]
pub struct BoundedNeighbors {
    capacity: usize,
    items: Vec<Neighbor>,
}

impl View for BoundedNeighbors {
    type V = Seq<Neighbor>;

    closed spec fn view(&self) -> Seq<Neighbor> {
        self.items@
    }
}

impl BoundedNeighbors {
    /// The maximal number of kept neighbors.
    pub closed spec fn cap(&self) -> nat {
        self.capacity as nat
    }

    /// The kept neighbors are sorted and within capacity.
    pub closed spec fn wf(&self) -> bool {
        &&& self.items@.len() <= self.capacity
        &&& sorted_neighbors(self.items@)
    }

    /// Creates an empty list with capacity zero.
    pub fn new_empty() -> (r: Self)
        ensures
            r.wf(),
            r@ == Seq::<Neighbor>::empty(),
            r.cap() == 0,
    {
        BoundedNeighbors { capacity: 0, items: Vec::new() }
    }

    /// Empties the list and sets a new capacity.
    pub fn reset(&mut self, capacity: usize)
        ensures
            final(self).wf(),
            final(self)@ == Seq::<Neighbor>::empty(),
            final(self).cap() == capacity,
    {
        self.capacity = capacity;
        self.items.clear();
    }

    /// The kept neighbors, best first.
    pub fn as_slice(&self) -> (r: &[Neighbor])
        ensures
            r@ == self@,
    {
        self.items.as_slice()
    }

    /// Offers a neighbor to the list.
    ///
    /// It is refused when the capacity is zero, when the list is full and the
    /// neighbor does not rank before the last kept one, or when a kept neighbor
    /// already has its index. Otherwise it is placed at its rank and the list
    /// keeps its best `capacity` elements. Returns whether it was accepted.
    pub fn insert(&mut self, neighbor: Neighbor) -> (accepted: bool)
        requires
            old(self).wf(),
        ensures
            final(self).wf(),
            final(self).cap() == old(self).cap(),
            accepted == (old(self).cap() > 0 && !(old(self)@.len() == old(self).cap() && !precedes(
                neighbor,
                old(self)@.last(),
            )) && !index_listed(old(self)@, neighbor.index)),
            !accepted ==> final(self)@ == old(self)@,
            accepted ==> is_best(final(self)@, old(self)@.to_set().insert(neighbor), old(self).cap()),
    {
        if self.capacity == 0 {
            return false;
        }
        let len = self.items.len();
        if len == self.capacity {
            let worst = self.items[len - 1];
            if !neighbor_precedes(&neighbor, &worst) {
                return false;
            }
        }
        let mut i: usize = 0;
        while i < len
            invariant
                self.wf(),
                self@ == old(self)@,
                self.cap() == old(self).cap(),
                self.cap() > 0,
                len == self.items@.len(),
                i <= len,
                forall|t: int| 0 <= t < i ==> (#[trigger] self.items@[t]).index != neighbor.index,
            decreases len - i,
        {
            if self.items[i].index == neighbor.index {
                return false;
            }
            i += 1;
        }
        let ghost a = self.items@;
        // Binary search for the rank position of the new neighbor.
        let mut lo: usize = 0;
        let mut hi: usize = len;
        while lo < hi
            invariant
                len == a.len(),
                self.items@ == a,
                sorted_neighbors(a),
                lo <= hi <= len,
                forall|t: int| 0 <= t < lo ==> precedes(#[trigger] a[t], neighbor),
                forall|t: int| hi <= t < len ==> precedes(neighbor, #[trigger] a[t]),
                forall|t: int| 0 <= t < len ==> (#[trigger] a[t]).index != neighbor.index,
            decreases hi - lo,
        {
            let mid = lo + (hi - lo) / 2;
            let m = self.items[mid];
            if neighbor_precedes(&m, &neighbor) {
                proof {
                    assert forall|t: int| 0 <= t < mid + 1 implies precedes(#[trigger] a[t], neighbor) by {
                        if t < mid {
                            assert(precedes(a[t], a[mid as int]));
                        }
                    }
                }
                lo = mid + 1;
            } else {
                proof {
                    lemma_precedes_total(m, neighbor);
                    assert forall|t: int| mid <= t < len implies precedes(neighbor, #[trigger] a[t]) by {
                        if t > mid {
                            assert(precedes(a[mid as int], a[t]));
                        }
                    }
                }
                hi = mid;
            }
        }
        let pos = lo;
        self.items.insert(pos, neighbor);
        let ghost b = self.items@;
        proof {
            assert(b == a.insert(pos as int, neighbor));
            assert forall|x: int, y: int| 0 <= x < y < b.len() implies precedes(
                #[trigger] b[x],
                #[trigger] b[y],
            ) by {
                if y < pos {
                    assert(precedes(a[x], a[y]));
                } else if y == pos {
                } else if x < pos {
                    assert(precedes(a[x], neighbor));
                    assert(precedes(neighbor, a[y - 1]));
                } else if x == pos {
                } else {
                    assert(precedes(a[x - 1], a[y - 1]));
                }
            }
            assert forall|m: Neighbor| b.contains(m) <==> a.to_set().insert(neighbor).contains(m) by {
                if b.contains(m) {
                    let t = choose|t: int| 0 <= t < b.len() && b[t] == m;
                    if t < pos {
                        assert(a[t] == m);
                        assert(a.contains(m));
                    } else if t > pos {
                        assert(a[t - 1] == m);
                        assert(a.contains(m));
                    }
                }
                if a.contains(m) {
                    let t = choose|t: int| 0 <= t < a.len() && a[t] == m;
                    if t < pos {
                        assert(b[t] == m);
                    } else {
                        assert(b[t + 1] == m);
                    }
                }
                if m == neighbor {
                    assert(b[pos as int] == m);
                }
            }
            lemma_sorted_no_duplicates(a);
            lemma_sorted_no_duplicates(b);
        }
        if self.items.len() > self.capacity {
            self.items.pop();
            proof {
                let f = self.items@;
                assert(f =~= b.drop_last());
                assert forall|m: Neighbor| #[trigger] f.contains(m) implies b.contains(m) by {
                    let t = choose|t: int| 0 <= t < f.len() && f[t] == m;
                    assert(b[t] == m);
                }
                assert forall|m: Neighbor, x: Neighbor|
                    #[trigger] f.contains(m) && #[trigger] a.to_set().insert(neighbor).contains(x)
                        && !f.contains(x) implies precedes(m, x) by {
                    assert(b.contains(x));
                    let t = choose|t: int| 0 <= t < b.len() && b[t] == x;
                    if t < b.len() - 1 {
                        assert(f[t] == x);
                    }
                    let u = choose|u: int| 0 <= u < f.len() && f[u] == m;
                    assert(precedes(b[u], b[t]));
                }
            }
        } else {
            proof {
                assert forall|m: Neighbor, x: Neighbor|
                    #[trigger] b.contains(m) && #[trigger] a.to_set().insert(neighbor).contains(x)
                        && !b.contains(x) implies precedes(m, x) by {}
            }
        }
        true
    }
}

} // verus!
