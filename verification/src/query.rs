//! The mathematical meaning of the dynamic-programming k-NN query.
//!
//! A query sees the index through integer data only: the successor lists, the
//! active flags, and one distance key per point (`keys[i]` ranks point `i`
//! against the query). Everything here is stated over those sequences.
use vstd::prelude::*;

use crate::bounded::{
    Neighbor, is_best, lemma_best_is_unique, lemma_precedes_total, lemma_sorted_no_duplicates, min_nat,
    precedes,
};
use crate::table::{complete_lists, valid_list, valid_lists};

verus! {

/// The neighbor record of point `i` under the distance keys `keys`.
pub open spec fn candidate(keys: Seq<u64>, i: int) -> Neighbor {
    Neighbor { index: i as usize, distance_key: keys[i] }
}

/// Point `i` may be reported by a query restricted to birth indices below `prefix`.
pub open spec fn eligible(active: Seq<bool>, prefix: int, i: int) -> bool {
    0 <= i < prefix && i < active.len() && active[i]
}

/// The neighbor records of all active points with birth index below `prefix`.
pub open spec fn prefix_candidates(keys: Seq<u64>, active: Seq<bool>, prefix: int) -> Set<Neighbor> {
    Set::new(
        |m: Neighbor|
            eligible(active, prefix, m.index as int) && m.distance_key == keys[m.index as int],
    )
}

/// The neighbor records of the points listed in `idxs`.
pub open spec fn neighbors_of(keys: Seq<u64>, idxs: Seq<usize>) -> Set<Neighbor> {
    Set::new(|m: Neighbor| idxs.contains(m.index) && m.distance_key == keys[m.index as int])
}

/// Every pair of eligible points `i < j` is joined by a successor edge `i -> j`.
pub open spec fn complete_on(lists: Seq<Seq<usize>>, active: Seq<bool>, prefix: int) -> bool {
    forall|i: int, j: usize|
        eligible(active, prefix, i) && eligible(active, prefix, j as int) && i < j ==> #[trigger] lists[i].contains(
            j,
        )
}

/// The complete table joins every pair of points, so it is complete for any
/// active flags and any prefix within its length.
pub proof fn lemma_complete_lists_complete(n: nat, active: Seq<bool>, prefix: int)
    requires
        prefix <= n,
    ensures
        complete_on(complete_lists(n), active, prefix),
{
    let ls = complete_lists(n);
    assert forall|i: int, j: usize|
        eligible(active, prefix, i) && eligible(active, prefix, j as int) && i < j implies #[trigger] ls[i].contains(j) by {
        assert(ls[i][j - i - 1] == j);
    }
}

/// Lists that hold at least the edges of a complete table are complete:
/// adding successor edges never makes a query inexact.
pub proof fn lemma_complete_superset(
    small: Seq<Seq<usize>>,
    big: Seq<Seq<usize>>,
    active: Seq<bool>,
    prefix: int,
)
    requires
        complete_on(small, active, prefix),
        prefix <= small.len(),
        forall|i: int, j: usize| 0 <= i < small.len() && #[trigger] small[i].contains(j) ==> big[i].contains(j),
    ensures
        complete_on(big, active, prefix),
{
    assert forall|i: int, j: usize|
        eligible(active, prefix, i) && eligible(active, prefix, j as int) && i < j implies #[trigger] big[i].contains(j) by {
        assert(small[i].contains(j));
    }
}

/// The inputs of a query are consistent: one list, flag and key per point,
/// valid lists, and a prefix within range.
pub open spec fn query_inputs(
    lists: Seq<Seq<usize>>,
    active: Seq<bool>,
    keys: Seq<u64>,
    prefix: int,
) -> bool {
    &&& valid_lists(lists)
    &&& lists.len() <= usize::MAX
    &&& active.len() == lists.len()
    &&& keys.len() == lists.len()
    &&& 0 <= prefix <= lists.len()
}

/// Entry `t` of list `c` is an eligible point that ranks strictly before `c`.
pub open spec fn improves(
    lists: Seq<Seq<usize>>,
    active: Seq<bool>,
    keys: Seq<u64>,
    prefix: int,
    c: int,
    t: int,
) -> bool {
    &&& 0 <= t < lists[c].len()
    &&& eligible(active, prefix, lists[c][t] as int)
    &&& precedes(candidate(keys, lists[c][t] as int), candidate(keys, c))
}

/// The first position at or after `t` of list `c` that improves on `c`.
pub open spec fn first_improving(
    lists: Seq<Seq<usize>>,
    active: Seq<bool>,
    keys: Seq<u64>,
    prefix: int,
    c: int,
    t: int,
) -> Option<int>
    decreases lists[c].len() - t,
{
    if t < 0 || t >= lists[c].len() {
        None
    } else if improves(lists, active, keys, prefix, c, t) {
        Some(t)
    } else {
        first_improving(lists, active, keys, prefix, c, t + 1)
    }
}

/// The next transition site after `c`: the first entry of its successor list
/// that is eligible and ranks strictly before `c`.
pub open spec fn next_site(
    lists: Seq<Seq<usize>>,
    active: Seq<bool>,
    keys: Seq<u64>,
    prefix: int,
    c: int,
) -> Option<usize> {
    match first_improving(lists, active, keys, prefix, c, 0) {
        Some(t) => Some(lists[c][t]),
        None => None,
    }
}

/// The transition sites visited by the 1-NN traversal that starts at `c`.
pub open spec fn transition_chain(
    lists: Seq<Seq<usize>>,
    active: Seq<bool>,
    keys: Seq<u64>,
    prefix: int,
    c: int,
) -> Seq<usize>
    decreases prefix - c,
{
    match next_site(lists, active, keys, prefix, c) {
        Some(j) => if c < j && j < prefix {
            seq![c as usize] + transition_chain(lists, active, keys, prefix, j as int)
        } else {
            seq![c as usize]
        },
        None => seq![c as usize],
    }
}

/// The smallest eligible birth index at or after `i`.
pub open spec fn first_active_from(active: Seq<bool>, prefix: int, i: int) -> Option<int>
    decreases prefix - i,
{
    if i < 0 || i >= prefix {
        None
    } else if eligible(active, prefix, i) {
        Some(i)
    } else {
        first_active_from(active, prefix, i + 1)
    }
}

/// The neighbor records of all transition sites of a prefix query.
pub open spec fn transition_sites_of(
    lists: Seq<Seq<usize>>,
    active: Seq<bool>,
    keys: Seq<u64>,
    prefix: int,
) -> Set<Neighbor> {
    match first_active_from(active, prefix, 0) {
        Some(f) => neighbors_of(keys, transition_chain(lists, active, keys, prefix, f)),
        None => Set::empty(),
    }
}

/// Every record of `d` is a transition site, or the record of a successor of
/// another record of `d`: a query considers only points that it reaches
/// through successor lists.
pub open spec fn reached_through_lists(lists: Seq<Seq<usize>>, sites: Set<Neighbor>, d: Set<Neighbor>) -> bool {
    forall|x: Neighbor|
        #[trigger] d.contains(x) ==> sites.contains(x) || exists|m: Neighbor|
            d.contains(m) && #[trigger] lists[m.index as int].contains(x.index)
}

/// Discovering a successor of a discovered record keeps every record reached.
pub proof fn lemma_reached_insert(
    lists: Seq<Seq<usize>>,
    sites: Set<Neighbor>,
    d: Set<Neighbor>,
    home: Neighbor,
    x: Neighbor,
)
    requires
        reached_through_lists(lists, sites, d),
        d.contains(home),
        lists[home.index as int].contains(x.index),
    ensures
        reached_through_lists(lists, sites, d.insert(x)),
{
    let dn = d.insert(x);
    assert forall|y: Neighbor| #[trigger] dn.contains(y) implies sites.contains(y) || exists|m: Neighbor|
        dn.contains(m) && #[trigger] lists[m.index as int].contains(y.index) by {
        if y == x {
            assert(dn.contains(home));
        } else if !sites.contains(y) {
            let m = choose|m: Neighbor| d.contains(m) && #[trigger] lists[m.index as int].contains(y.index);
            assert(dn.contains(m));
        }
    }
}

/// `v` is the outcome of a k-NN expansion that discovered the set `d`: `v` is
/// the best `k` of `d`; `d` holds only eligible points, every transition site,
/// and otherwise only successors of its own records; and every eligible
/// successor of a reported point was discovered.
pub open spec fn explored_result(
    lists: Seq<Seq<usize>>,
    active: Seq<bool>,
    keys: Seq<u64>,
    prefix: int,
    k: nat,
    v: Seq<Neighbor>,
    d: Set<Neighbor>,
) -> bool {
    &&& is_best(v, d, k)
    &&& d.subset_of(prefix_candidates(keys, active, prefix))
    &&& reached_through_lists(lists, transition_sites_of(lists, active, keys, prefix), d)
    &&& k > 0 ==> transition_sites_of(lists, active, keys, prefix).subset_of(d)
    &&& forall|m: Neighbor, j: usize|
        #[trigger] v.contains(m) && #[trigger] lists[m.index as int].contains(j) && eligible(
            active,
            prefix,
            j as int,
        ) ==> d.contains(candidate(keys, j as int))
}

pub proof fn lemma_first_improving(
    lists: Seq<Seq<usize>>,
    active: Seq<bool>,
    keys: Seq<u64>,
    prefix: int,
    c: int,
    t0: int,
)
    requires
        0 <= t0,
    ensures
        first_improving(lists, active, keys, prefix, c, t0) matches Some(t) ==> {
            &&& t0 <= t < lists[c].len()
            &&& improves(lists, active, keys, prefix, c, t)
            &&& forall|t2: int| t0 <= t2 < t ==> !improves(lists, active, keys, prefix, c, t2)
        },
        first_improving(lists, active, keys, prefix, c, t0) is None ==> forall|t2: int|
            t0 <= t2 ==> !improves(lists, active, keys, prefix, c, t2),
    decreases lists[c].len() - t0,
{
    if t0 < lists[c].len() && !improves(lists, active, keys, prefix, c, t0) {
        lemma_first_improving(lists, active, keys, prefix, c, t0 + 1);
        assert forall|t2: int| t0 <= t2 < t0 + 1 implies !improves(lists, active, keys, prefix, c, t2) by {}
    }
}

/// When no position at or after `t` improves on `c`, the search from `t` finds none.
pub proof fn lemma_first_improving_none(
    lists: Seq<Seq<usize>>,
    active: Seq<bool>,
    keys: Seq<u64>,
    prefix: int,
    c: int,
    t: int,
)
    requires
        0 <= t,
        forall|t2: int| t <= t2 ==> !improves(lists, active, keys, prefix, c, t2),
    ensures
        first_improving(lists, active, keys, prefix, c, t) is None,
    decreases lists[c].len() - t,
{
    if t < lists[c].len() {
        lemma_first_improving_none(lists, active, keys, prefix, c, t + 1);
    }
}

pub proof fn lemma_first_active(active: Seq<bool>, prefix: int, i: int)
    requires
        0 <= i,
    ensures
        first_active_from(active, prefix, i) matches Some(f) ==> {
            &&& i <= f
            &&& eligible(active, prefix, f)
            &&& forall|x: int| i <= x < f ==> !eligible(active, prefix, x)
        },
        first_active_from(active, prefix, i) is None ==> forall|x: int|
            i <= x ==> !eligible(active, prefix, x),
    decreases prefix - i,
{
    if i < prefix && !eligible(active, prefix, i) {
        lemma_first_active(active, prefix, i + 1);
    }
}

/// The transition chain starts at `c`, and lists only eligible points at or after `c`.
pub proof fn lemma_chain_shape(
    lists: Seq<Seq<usize>>,
    active: Seq<bool>,
    keys: Seq<u64>,
    prefix: int,
    c: int,
)
    requires
        query_inputs(lists, active, keys, prefix),
        eligible(active, prefix, c),
    ensures
        transition_chain(lists, active, keys, prefix, c).len() >= 1,
        transition_chain(lists, active, keys, prefix, c)[0] == c,
        forall|t: int|
            0 <= t < transition_chain(lists, active, keys, prefix, c).len() ==> {
                &&& eligible(
                    active,
                    prefix,
                    #[trigger] transition_chain(lists, active, keys, prefix, c)[t] as int,
                )
                &&& c <= transition_chain(lists, active, keys, prefix, c)[t]
            },
    decreases prefix - c,
{
    let ch = transition_chain(lists, active, keys, prefix, c);
    lemma_first_improving(lists, active, keys, prefix, c, 0);
    match next_site(lists, active, keys, prefix, c) {
        Some(j) => {
            if c < j && j < prefix {
                let t = first_improving(lists, active, keys, prefix, c, 0)->Some_0;
                assert(eligible(active, prefix, j as int));
                lemma_chain_shape(lists, active, keys, prefix, j as int);
                let rest = transition_chain(lists, active, keys, prefix, j as int);
                assert(ch == seq![c as usize] + rest);
                assert forall|t2: int| 0 <= t2 < ch.len() implies {
                    &&& eligible(active, prefix, #[trigger] ch[t2] as int)
                    &&& c <= ch[t2]
                } by {
                    if t2 > 0 {
                        assert(ch[t2] == rest[t2 - 1]);
                    }
                }
            }
        },
        None => {},
    }
}

/// Under a complete table, every eligible point after `c` that is not a
/// transition site is ranked behind some earlier transition site.
pub proof fn lemma_chain_dominates(
    lists: Seq<Seq<usize>>,
    active: Seq<bool>,
    keys: Seq<u64>,
    prefix: int,
    c: int,
    x: int,
) -> (y: usize)
    requires
        query_inputs(lists, active, keys, prefix),
        complete_on(lists, active, prefix),
        eligible(active, prefix, c),
        eligible(active, prefix, x),
        c < x,
        !transition_chain(lists, active, keys, prefix, c).contains(x as usize),
    ensures
        transition_chain(lists, active, keys, prefix, c).contains(y),
        y < x,
        precedes(candidate(keys, y as int), candidate(keys, x)),
    decreases prefix - c,
{
    let ch = transition_chain(lists, active, keys, prefix, c);
    lemma_first_improving(lists, active, keys, prefix, c, 0);
    assert(ch[0] == c as usize);
    assert(ch.contains(c as usize));
    assert(valid_list(lists[c], c, lists.len() as int));
    // `x` is a successor of `c`.
    assert(lists[c].contains(x as usize));
    let tx = choose|tx: int| 0 <= tx < lists[c].len() && lists[c][tx] == x as usize;
    lemma_precedes_total(candidate(keys, c), candidate(keys, x));
    match first_improving(lists, active, keys, prefix, c, 0) {
        None => {
            assert(!improves(lists, active, keys, prefix, c, tx));
            c as usize
        },
        Some(t) => {
            let j = lists[c][t];
            assert(c < j);
            assert(j < prefix);
            let rest = transition_chain(lists, active, keys, prefix, j as int);
            assert(ch == seq![c as usize] + rest);
            if (x as usize) < j {
                // `x` comes before `j` in the sorted list, so it did not improve on `c`.
                if tx >= t {
                    if tx > t {
                        assert(lists[c][t] < lists[c][tx]);
                    }
                }
                assert(!improves(lists, active, keys, prefix, c, tx));
                c as usize
            } else {
                assert(x != j) by {
                    if x == j {
                        assert(ch[1] == rest[0]);
                        lemma_chain_shape(lists, active, keys, prefix, j as int);
                    }
                }
                assert(!rest.contains(x as usize)) by {
                    if rest.contains(x as usize) {
                        let u = choose|u: int| 0 <= u < rest.len() && rest[u] == x as usize;
                        assert(ch[u + 1] == x as usize);
                    }
                }
                assert(eligible(active, prefix, j as int));
                let y = lemma_chain_dominates(lists, active, keys, prefix, j as int, x);
                let u = choose|u: int| 0 <= u < rest.len() && rest[u] == y;
                assert(ch[u + 1] == y);
                y
            }
        },
    }
}

/// The neighbor records of a finite index list form a finite set, and
/// extending the list adds one record.
pub proof fn lemma_neighbors_of(keys: Seq<u64>, idxs: Seq<usize>)
    ensures
        neighbors_of(keys, idxs).finite(),
        forall|j: usize|
            #[trigger] neighbors_of(keys, idxs.push(j)) == neighbors_of(keys, idxs).insert(
                candidate(keys, j as int),
            ),
    decreases idxs.len(),
{
    assert forall|j: usize|
        #[trigger] neighbors_of(keys, idxs.push(j)) == neighbors_of(keys, idxs).insert(
            candidate(keys, j as int),
        ) by {
        crate::sorted::lemma_contains_push(idxs, j);
        assert(neighbors_of(keys, idxs.push(j)) =~= neighbors_of(keys, idxs).insert(
            candidate(keys, j as int),
        ));
    }
    if idxs.len() == 0 {
        assert(neighbors_of(keys, idxs) =~= Set::<Neighbor>::empty());
    } else {
        let d = idxs.drop_last();
        lemma_neighbors_of(keys, d);
        assert(d.push(idxs.last()) =~= idxs);
    }
}

/// The eligible records of a prefix form a finite set.
pub proof fn lemma_prefix_candidates_finite(keys: Seq<u64>, active: Seq<bool>, prefix: int)
    ensures
        prefix_candidates(keys, active, prefix).finite(),
    decreases prefix,
{
    if prefix <= 0 {
        assert(prefix_candidates(keys, active, prefix) =~= Set::<Neighbor>::empty());
    } else {
        lemma_prefix_candidates_finite(keys, active, prefix - 1);
        let smaller = prefix_candidates(keys, active, prefix - 1);
        assert(prefix_candidates(keys, active, prefix).subset_of(smaller.insert(
            candidate(keys, prefix - 1),
        )));
        vstd::set_lib::lemma_len_subset(
            prefix_candidates(keys, active, prefix),
            smaller.insert(candidate(keys, prefix - 1)),
        );
    }
}

/// With a complete successor table, the k-NN expansion is exact: it reports
/// the `k` best eligible points, as a brute-force scan does.
pub proof fn lemma_complete_table_is_exact(
    lists: Seq<Seq<usize>>,
    active: Seq<bool>,
    keys: Seq<u64>,
    prefix: int,
    k: nat,
    v: Seq<Neighbor>,
    d: Set<Neighbor>,
)
    requires
        query_inputs(lists, active, keys, prefix),
        complete_on(lists, active, prefix),
        explored_result(lists, active, keys, prefix, k, v, d),
    ensures
        is_best(v, prefix_candidates(keys, active, prefix), k),
{
    let s = prefix_candidates(keys, active, prefix);
    lemma_prefix_candidates_finite(keys, active, prefix);
    assert(d.finite());
    if k == 0 {
        assert(v.len() == 0);
        return;
    }
    // Every eligible record outside `d` ranks behind all of `v`, and then `v` is full.
    assert forall|x: Neighbor| #[trigger] s.contains(x) && !d.contains(x) implies v.len() == k
        && forall|m: Neighbor| #[trigger] v.contains(m) ==> precedes(m, x) by {
        let xi = x.index as int;
        assert(x == candidate(keys, xi));
        lemma_first_active(active, prefix, 0);
        let f = first_active_from(active, prefix, 0)->Some_0;
        let ch = transition_chain(lists, active, keys, prefix, f);
        lemma_chain_shape(lists, active, keys, prefix, f);
        lemma_neighbors_of(keys, ch);
        assert(!ch.contains(x.index)) by {
            if ch.contains(x.index) {
                assert(neighbors_of(keys, ch).contains(x));
            }
        }
        assert(f != xi) by {
            if f == xi {
                assert(ch[0] == x.index);
            }
        }
        let y = lemma_chain_dominates(lists, active, keys, prefix, f, xi);
        let cy = candidate(keys, y as int);
        assert(neighbors_of(keys, ch).contains(cy));
        assert(d.contains(cy));
        assert(valid_list(lists[y as int], y as int, lists.len() as int));
        assert(!v.contains(cy)) by {
            if v.contains(cy) {
                let t = choose|t: int| 0 <= t < ch.len() && ch[t] == y;
                assert(eligible(active, prefix, y as int));
                assert(lists[y as int].contains(x.index));
            }
        }
        assert(v.len() == k) by {
            if v.len() < k {
                assert(v.len() == d.len());
                assert(v.to_set().subset_of(d));
                lemma_sorted_no_duplicates(v);
                vstd::set_lib::lemma_subset_equality(v.to_set(), d);
                assert(v.to_set().contains(cy));
            }
        }
    }
    assert forall|m: Neighbor, x: Neighbor|
        #[trigger] v.contains(m) && #[trigger] s.contains(x) && !v.contains(x) implies precedes(m, x) by {
        if !d.contains(x) {
        }
    }
    assert(v.len() == min_nat(k, s.len())) by {
        vstd::set_lib::lemma_len_subset(d, s);
        if exists|x: Neighbor| s.contains(x) && !d.contains(x) {
            let x = choose|x: Neighbor| s.contains(x) && !d.contains(x);
            assert(v.len() == k);
        } else {
            assert(d =~= s);
        }
    }
}


/// The best `k` records of the finite set `d`, in rank order: the one list
/// that `is_best` describes.
pub open spec fn best_of(d: Set<Neighbor>, k: nat) -> Seq<Neighbor> {
    choose|v: Seq<Neighbor>| is_best(v, d, k)
}

/// A list that is the best `k` of `d` is `best_of(d, k)`.
pub proof fn lemma_best_of(v: Seq<Neighbor>, d: Set<Neighbor>, k: nat)
    requires
        is_best(v, d, k),
    ensures
        best_of(d, k) == v,
{
    let w = best_of(d, k);
    assert(is_best(w, d, k));
    lemma_best_is_unique(v, w, d, k);
}

/// The first record of `v`, from position `t` on, whose index is not in `done`.
pub open spec fn first_not_done(v: Seq<Neighbor>, done: Set<usize>, t: int) -> Option<Neighbor>
    decreases v.len() - t,
{
    if t < 0 || t >= v.len() {
        None
    } else if !done.contains(v[t].index) {
        Some(v[t])
    } else {
        first_not_done(v, done, t + 1)
    }
}

/// The records of the eligible successors of point `i`.
pub open spec fn successor_records(
    lists: Seq<Seq<usize>>,
    active: Seq<bool>,
    keys: Seq<u64>,
    prefix: int,
    i: int,
) -> Set<Neighbor> {
    Set::new(
        |m: Neighbor|
            0 <= i < lists.len() && lists[i].contains(m.index) && eligible(active, prefix, m.index as int)
                && m.distance_key == keys[m.index as int],
    )
}

/// The records discovered by expanding, at most `fuel` times, the best
/// record among the best `k` of `d` whose successors were not expanded yet:
/// each expansion adds the records of that point's eligible successors.
pub open spec fn expansion(
    lists: Seq<Seq<usize>>,
    active: Seq<bool>,
    keys: Seq<u64>,
    prefix: int,
    k: nat,
    d: Set<Neighbor>,
    done: Set<usize>,
    fuel: nat,
) -> Set<Neighbor>
    decreases fuel,
{
    if fuel == 0 {
        d
    } else {
        match first_not_done(best_of(d, k), done, 0) {
            None => d,
            Some(x) => expansion(
                lists,
                active,
                keys,
                prefix,
                k,
                d.union(successor_records(lists, active, keys, prefix, x.index as int)),
                done.insert(x.index),
                (fuel - 1) as nat,
            ),
        }
    }
}

/// One step of the expansion: the best unexpanded record is expanded.
pub proof fn lemma_expansion_step(
    lists: Seq<Seq<usize>>,
    active: Seq<bool>,
    keys: Seq<u64>,
    prefix: int,
    k: nat,
    d: Set<Neighbor>,
    done: Set<usize>,
    fuel: nat,
    i: usize,
)
    requires
        fuel > 0,
        first_not_done(best_of(d, k), done, 0) matches Some(x) && x.index == i,
    ensures
        expansion(lists, active, keys, prefix, k, d, done, fuel) == expansion(
            lists,
            active,
            keys,
            prefix,
            k,
            d.union(successor_records(lists, active, keys, prefix, i as int)),
            done.insert(i),
            (fuel - 1) as nat,
        ),
{
}

/// The expansion stops once the best records are all expanded.
pub proof fn lemma_expansion_stops(
    lists: Seq<Seq<usize>>,
    active: Seq<bool>,
    keys: Seq<u64>,
    prefix: int,
    k: nat,
    d: Set<Neighbor>,
    done: Set<usize>,
    fuel: nat,
)
    requires
        first_not_done(best_of(d, k), done, 0) is None,
    ensures
        expansion(lists, active, keys, prefix, k, d, done, fuel) == d,
{
}

/// The answer of a k-NN query below `prefix`: starting from the transition
/// sites, the best unexpanded record among the best `k` discovered is expanded
/// until all of the best `k` are expanded; the answer is the best `k`
/// discovered.
pub open spec fn knn_answer(
    lists: Seq<Seq<usize>>,
    active: Seq<bool>,
    keys: Seq<u64>,
    prefix: int,
    k: nat,
) -> Seq<Neighbor> {
    best_of(
        expansion(
            lists,
            active,
            keys,
            prefix,
            k,
            transition_sites_of(lists, active, keys, prefix),
            Set::empty(),
            (prefix + 1) as nat,
        ),
        k,
    )
}

/// The transition sites are eligible records.
pub proof fn lemma_sites_within(lists: Seq<Seq<usize>>, active: Seq<bool>, keys: Seq<u64>, prefix: int)
    requires
        query_inputs(lists, active, keys, prefix),
    ensures
        transition_sites_of(lists, active, keys, prefix).subset_of(prefix_candidates(keys, active, prefix)),
{
    lemma_first_active(active, prefix, 0);
    if let Some(f) = first_active_from(active, prefix, 0) {
        lemma_chain_shape(lists, active, keys, prefix, f);
        let chain = transition_chain(lists, active, keys, prefix, f);
        assert forall|m: Neighbor| #[trigger]
            transition_sites_of(lists, active, keys, prefix).contains(m) implies prefix_candidates(
            keys,
            active,
            prefix,
        ).contains(m) by {
            let t = choose|t: int| 0 <= t < chain.len() && chain[t] == m.index;
            assert(eligible(active, prefix, chain[t] as int));
        }
    }
}

/// Two query inputs agree below `prefix`: the same active flags and keys for
/// the points before `prefix`, and the same successor edges among them.
pub open spec fn agree_below(
    lists1: Seq<Seq<usize>>,
    active1: Seq<bool>,
    keys1: Seq<u64>,
    lists2: Seq<Seq<usize>>,
    active2: Seq<bool>,
    keys2: Seq<u64>,
    prefix: int,
) -> bool {
    &&& forall|i: int| #![trigger active1[i]] #![trigger active2[i]] 0 <= i < prefix ==> active1[i] == active2[i]
    &&& forall|i: int| #![trigger keys1[i]] #![trigger keys2[i]] 0 <= i < prefix ==> keys1[i] == keys2[i]
    &&& forall|i: int, j: usize|
        #![trigger lists1[i].contains(j)]
        #![trigger lists2[i].contains(j)]
        0 <= i < prefix && j < prefix ==> (lists1[i].contains(j) <==> lists2[i].contains(j))
}

proof fn lemma_first_active_agree(active1: Seq<bool>, active2: Seq<bool>, prefix: int, i: int)
    requires
        prefix <= active1.len(),
        prefix <= active2.len(),
        forall|x: int| #![trigger active1[x]] #![trigger active2[x]] 0 <= x < prefix ==> active1[x] == active2[x],
    ensures
        first_active_from(active1, prefix, i) == first_active_from(active2, prefix, i),
    decreases prefix - i,
{
    if 0 <= i < prefix {
        assert(active1[i] == active2[i]);
        lemma_first_active_agree(active1, active2, prefix, i + 1);
    }
}

proof fn lemma_improving_transfer(
    lists1: Seq<Seq<usize>>,
    active1: Seq<bool>,
    keys1: Seq<u64>,
    lists2: Seq<Seq<usize>>,
    active2: Seq<bool>,
    keys2: Seq<u64>,
    prefix: int,
    c: int,
    t: int,
) -> (u: int)
    requires
        query_inputs(lists2, active2, keys2, prefix),
        prefix <= active1.len(),
        prefix <= keys1.len(),
        agree_below(lists1, active1, keys1, lists2, active2, keys2, prefix),
        0 <= c < prefix,
        improves(lists1, active1, keys1, prefix, c, t),
    ensures
        improves(lists2, active2, keys2, prefix, c, u),
        lists2[c][u] == lists1[c][t],
{
    let j = lists1[c][t];
    assert(lists1[c].contains(j));
    assert(active1[j as int] == active2[j as int]);
    assert(keys1[j as int] == keys2[j as int]);
    assert(keys1[c] == keys2[c]);
    assert(lists2[c].contains(j));
    choose|u: int| 0 <= u < lists2[c].len() && lists2[c][u] == j
}

proof fn lemma_next_site_agree(
    lists1: Seq<Seq<usize>>,
    active1: Seq<bool>,
    keys1: Seq<u64>,
    lists2: Seq<Seq<usize>>,
    active2: Seq<bool>,
    keys2: Seq<u64>,
    prefix: int,
    c: int,
)
    requires
        query_inputs(lists1, active1, keys1, prefix),
        query_inputs(lists2, active2, keys2, prefix),
        agree_below(lists1, active1, keys1, lists2, active2, keys2, prefix),
        0 <= c < prefix,
    ensures
        next_site(lists1, active1, keys1, prefix, c) == next_site(lists2, active2, keys2, prefix, c),
{
    lemma_first_improving(lists1, active1, keys1, prefix, c, 0);
    lemma_first_improving(lists2, active2, keys2, prefix, c, 0);
    assert(agree_below(lists2, active2, keys2, lists1, active1, keys1, prefix));
    let r1 = first_improving(lists1, active1, keys1, prefix, c, 0);
    let r2 = first_improving(lists2, active2, keys2, prefix, c, 0);
    if let Some(t1) = r1 {
        let u2 = lemma_improving_transfer(lists1, active1, keys1, lists2, active2, keys2, prefix, c, t1);
        let t2 = r2->Some_0;
        let u1 = lemma_improving_transfer(lists2, active2, keys2, lists1, active1, keys1, prefix, c, t2);
        assert(valid_list(lists1[c], c, lists1.len() as int));
        assert(valid_list(lists2[c], c, lists2.len() as int));
        if t2 < u2 {
            assert(lists2[c][t2] < lists2[c][u2]);
        }
        if t1 < u1 {
            assert(lists1[c][t1] < lists1[c][u1]);
        }
    } else if let Some(t2) = r2 {
        let u1 = lemma_improving_transfer(lists2, active2, keys2, lists1, active1, keys1, prefix, c, t2);
    }
}

proof fn lemma_chain_agree(
    lists1: Seq<Seq<usize>>,
    active1: Seq<bool>,
    keys1: Seq<u64>,
    lists2: Seq<Seq<usize>>,
    active2: Seq<bool>,
    keys2: Seq<u64>,
    prefix: int,
    c: int,
)
    requires
        query_inputs(lists1, active1, keys1, prefix),
        query_inputs(lists2, active2, keys2, prefix),
        agree_below(lists1, active1, keys1, lists2, active2, keys2, prefix),
        0 <= c < prefix,
    ensures
        transition_chain(lists1, active1, keys1, prefix, c) == transition_chain(lists2, active2, keys2, prefix, c),
    decreases prefix - c,
{
    lemma_next_site_agree(lists1, active1, keys1, lists2, active2, keys2, prefix, c);
    if let Some(j) = next_site(lists1, active1, keys1, prefix, c) {
        if c < j && j < prefix {
            lemma_chain_agree(lists1, active1, keys1, lists2, active2, keys2, prefix, j as int);
        }
    }
}

proof fn lemma_sites_agree(
    lists1: Seq<Seq<usize>>,
    active1: Seq<bool>,
    keys1: Seq<u64>,
    lists2: Seq<Seq<usize>>,
    active2: Seq<bool>,
    keys2: Seq<u64>,
    prefix: int,
)
    requires
        query_inputs(lists1, active1, keys1, prefix),
        query_inputs(lists2, active2, keys2, prefix),
        agree_below(lists1, active1, keys1, lists2, active2, keys2, prefix),
    ensures
        transition_sites_of(lists1, active1, keys1, prefix) == transition_sites_of(lists2, active2, keys2, prefix),
{
    lemma_first_active_agree(active1, active2, prefix, 0);
    lemma_first_active(active1, prefix, 0);
    if let Some(f) = first_active_from(active1, prefix, 0) {
        lemma_chain_agree(lists1, active1, keys1, lists2, active2, keys2, prefix, f);
        lemma_chain_shape(lists1, active1, keys1, prefix, f);
        let chain = transition_chain(lists1, active1, keys1, prefix, f);
        assert forall|m: Neighbor| #[trigger] neighbors_of(keys1, chain).contains(m) <==> neighbors_of(
            keys2,
            chain,
        ).contains(m) by {
            if chain.contains(m.index) {
                let t = choose|t: int| 0 <= t < chain.len() && chain[t] == m.index;
                assert(eligible(active1, prefix, chain[t] as int));
                assert(keys1[m.index as int] == keys2[m.index as int]);
            }
        }
        assert(neighbors_of(keys1, chain) =~= neighbors_of(keys2, chain));
    }
}

proof fn lemma_expansion_agree(
    lists1: Seq<Seq<usize>>,
    active1: Seq<bool>,
    keys1: Seq<u64>,
    lists2: Seq<Seq<usize>>,
    active2: Seq<bool>,
    keys2: Seq<u64>,
    prefix: int,
    k: nat,
    d: Set<Neighbor>,
    done: Set<usize>,
    fuel: nat,
)
    requires
        query_inputs(lists1, active1, keys1, prefix),
        query_inputs(lists2, active2, keys2, prefix),
        agree_below(lists1, active1, keys1, lists2, active2, keys2, prefix),
    ensures
        expansion(lists1, active1, keys1, prefix, k, d, done, fuel) == expansion(
            lists2,
            active2,
            keys2,
            prefix,
            k,
            d,
            done,
            fuel,
        ),
    decreases fuel,
{
    if fuel > 0 {
        if let Some(x) = first_not_done(best_of(d, k), done, 0) {
            let i = x.index as int;
            assert forall|m: Neighbor| #[trigger] successor_records(lists1, active1, keys1, prefix, i).contains(m)
                <==> successor_records(lists2, active2, keys2, prefix, i).contains(m) by {
                if successor_records(lists1, active1, keys1, prefix, i).contains(m) && i >= prefix {
                    assert(valid_list(lists1[i], i, lists1.len() as int));
                    let t = choose|t: int| 0 <= t < lists1[i].len() && lists1[i][t] == m.index;
                }
                if successor_records(lists2, active2, keys2, prefix, i).contains(m) && i >= prefix {
                    assert(valid_list(lists2[i], i, lists2.len() as int));
                    let t = choose|t: int| 0 <= t < lists2[i].len() && lists2[i][t] == m.index;
                }
                if eligible(active1, prefix, m.index as int) || eligible(active2, prefix, m.index as int) {
                    assert(active1[m.index as int] == active2[m.index as int]);
                    assert(keys1[m.index as int] == keys2[m.index as int]);
                }
            }
            assert(successor_records(lists1, active1, keys1, prefix, i) =~= successor_records(
                lists2,
                active2,
                keys2,
                prefix,
                i,
            ));
            lemma_expansion_agree(
                lists1,
                active1,
                keys1,
                lists2,
                active2,
                keys2,
                prefix,
                k,
                d.union(successor_records(lists1, active1, keys1, prefix, i)),
                done.insert(x.index),
                (fuel - 1) as nat,
            );
        }
    }
}

/// A query below `prefix` sees only the points before `prefix`: two query
/// inputs that agree on those points, their flags, keys and the successor
/// edges among them give the same answer.
pub proof fn lemma_answer_ignores_later_points(
    lists1: Seq<Seq<usize>>,
    active1: Seq<bool>,
    keys1: Seq<u64>,
    lists2: Seq<Seq<usize>>,
    active2: Seq<bool>,
    keys2: Seq<u64>,
    prefix: int,
    k: nat,
)
    requires
        query_inputs(lists1, active1, keys1, prefix),
        query_inputs(lists2, active2, keys2, prefix),
        agree_below(lists1, active1, keys1, lists2, active2, keys2, prefix),
    ensures
        knn_answer(lists1, active1, keys1, prefix, k) == knn_answer(lists2, active2, keys2, prefix, k),
{
    lemma_sites_agree(lists1, active1, keys1, lists2, active2, keys2, prefix);
    lemma_expansion_agree(
        lists1,
        active1,
        keys1,
        lists2,
        active2,
        keys2,
        prefix,
        k,
        transition_sites_of(lists1, active1, keys1, prefix),
        Set::empty(),
        (prefix + 1) as nat,
    );
}

} // verus!
