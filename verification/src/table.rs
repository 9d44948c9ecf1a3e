//! The successor table: for every birth index `i`, the sorted list of later
//! birth indices `j > i` whose insertion pruned the Voronoi cell of `i`.
//!
//! Lists are stored in a compressed layout: one flat array of successors and
//! an offset array marking where each list starts.
use vstd::prelude::*;

use crate::error::Error;
use crate::sorted::{
    is_sorted_set_of, lemma_contains_push, lemma_increasing_unique, search_range, sorted_set,
    strictly_increasing,
};

verus! {

/// `s` is a valid successor list for `owner` in a table of `n` lists: strictly
/// increasing, and every entry lies strictly between `owner` and `n`.
pub open spec fn valid_list(s: Seq<usize>, owner: int, n: int) -> bool {
    &&& strictly_increasing(s)
    &&& forall|k: int| 0 <= k < s.len() ==> owner < #[trigger] s[k] < n
}

/// Every list of `ls` is a valid successor list.
pub open spec fn valid_lists(ls: Seq<Seq<usize>>) -> bool {
    forall|i: int| 0 <= i < ls.len() ==> valid_list(#[trigger] ls[i], i, ls.len() as int)
}

/// The abstract value of a vector of lists.
pub open spec fn lists_view(lists: &Vec<Vec<usize>>) -> Seq<Seq<usize>> {
    lists@.map_values(|l: Vec<usize>| l@)
}

/// `(o, k)` names an entry of `ls`.
pub open spec fn is_position(ls: Seq<Seq<usize>>, o: int, k: int) -> bool {
    0 <= o < ls.len() && 0 <= k < ls[o].len()
}

/// The error that validating entry `(o, k)` reports, if any. Entries are
/// checked list by list, and inside each list from front to back.
pub open spec fn entry_error(ls: Seq<Seq<usize>>, o: int, k: int) -> Option<Error> {
    let n = ls.len();
    let s = ls[o][k];
    if s <= o || s >= n {
        Some(Error::InvalidSuccessor { owner: o as usize, successor: s, len: n as usize })
    } else if k > 0 && s == ls[o][k - 1] {
        Some(Error::DuplicateSuccessor { owner: o as usize, successor: s })
    } else if k > 0 && s < ls[o][k - 1] {
        Some(Error::UnsortedSuccessorList { owner: o as usize, previous: ls[o][k - 1], current: s })
    } else {
        None
    }
}

/// No entry of `ls` fails validation.
pub open spec fn lists_without_error(ls: Seq<Seq<usize>>) -> bool {
    forall|o: int, k: int| is_position(ls, o, k) ==> (#[trigger] entry_error(ls, o, k)) is None
}

/// `e` is the error of the first failing entry of `ls`, in checking order.
pub open spec fn first_list_error(ls: Seq<Seq<usize>>, e: Error) -> bool {
    exists|o: int, k: int|
        #![trigger entry_error(ls, o, k)]
        {
            &&& is_position(ls, o, k)
            &&& entry_error(ls, o, k) == Some(e)
            &&& forall|o2: int, k2: int|
                is_position(ls, o2, k2) && (o2 < o || (o2 == o && k2 < k)) ==> (#[trigger] entry_error(
                    ls,
                    o2,
                    k2,
                )) is None
        }
}

/// Every element of list `i` lies strictly between `i` and the number of lists.
pub open spec fn elements_in_range(ls: Seq<Seq<usize>>) -> bool {
    forall|i: int, x: usize| 0 <= i < ls.len() && #[trigger] ls[i].contains(x) ==> i < x < ls.len()
}

/// `x` is the smallest out-of-range element of list `o`, and every earlier
/// list holds only in-range elements.
pub open spec fn first_out_of_range(ls: Seq<Seq<usize>>, o: int, x: usize) -> bool {
    &&& 0 <= o < ls.len()
    &&& ls[o].contains(x)
    &&& !(o < x < ls.len())
    &&& forall|y: usize| #[trigger] ls[o].contains(y) && y < x ==> o < y < ls.len()
    &&& forall|i: int, y: usize| 0 <= i < o && #[trigger] ls[i].contains(y) ==> i < y < ls.len()
}

/// `x` is the smallest element of `nb[j]` that is not earlier than `j`, and every
/// earlier insertion list holds only earlier indices.
pub open spec fn first_late_neighbor(nb: Seq<Seq<usize>>, j: int, x: usize) -> bool {
    &&& 0 <= j < nb.len()
    &&& nb[j].contains(x)
    &&& x >= j
    &&& forall|y: usize| #[trigger] nb[j].contains(y) && y < x ==> y < j
    &&& forall|i: int, y: usize| 0 <= i < j && #[trigger] nb[i].contains(y) ==> y < i
}

/// `e` reports the first out-of-range entry of `ls`, as `first_out_of_range` picks it.
pub open spec fn out_of_range_error(ls: Seq<Seq<usize>>, e: Error) -> bool {
    exists|o: int, x: usize|
        #[trigger] first_out_of_range(ls, o, x) && e == (Error::InvalidSuccessor {
            owner: o as usize,
            successor: x,
            len: ls.len() as usize,
        })
}

/// `e` reports the first late insertion neighbor of `nb`, as `first_late_neighbor` picks it.
pub open spec fn late_neighbor_error(nb: Seq<Seq<usize>>, e: Error) -> bool {
    exists|j: int, x: usize|
        #[trigger] first_late_neighbor(nb, j, x) && e == (Error::InvalidInsertionNeighbor {
            inserted: j as usize,
            neighbor: x,
        })
}

/// `e` is the error that building a table of `len` lists from the insertion
/// lists `nb` reports: a count mismatch, or else the first late neighbor.
pub open spec fn insertion_neighbors_error(len: nat, nb: Seq<Seq<usize>>, e: Error) -> bool {
    if nb.len() != len {
        e == (Error::TableLengthMismatch { points: len as usize, lists: nb.len() as usize })
    } else {
        late_neighbor_error(nb, e)
    }
}

/// Every insertion list `nb[j]` holds only earlier indices.
pub open spec fn neighbors_earlier(nb: Seq<Seq<usize>>) -> bool {
    forall|j: int, y: usize| 0 <= j < nb.len() && #[trigger] nb[j].contains(y) ==> y < j
}

/// Number of the first `m` lists of `ls` that contain `s`.
pub open spec fn count_lists_with(ls: Seq<Seq<usize>>, s: usize, m: nat) -> nat
    decreases m,
{
    if m == 0 {
        0
    } else {
        count_lists_with(ls, s, (m - 1) as nat) + if ls[m - 1].contains(s) {
            1nat
        } else {
            0nat
        }
    }
}

/// Total number of entries over all lists of `ls`.
pub open spec fn total_entries(ls: Seq<Seq<usize>>) -> nat
    decreases ls.len(),
{
    if ls.len() == 0 {
        0
    } else {
        total_entries(ls.drop_last()) + ls.last().len()
    }
}

/// Replacing one list changes the total by the difference in its length.
pub proof fn lemma_total_entries_update(ls: Seq<Seq<usize>>, o: int, l: Seq<usize>)
    requires
        0 <= o < ls.len(),
    ensures
        total_entries(ls.update(o, l)) + ls[o].len() == total_entries(ls) + l.len(),
    decreases ls.len(),
{
    let u = ls.update(o, l);
    if o == ls.len() - 1 {
        assert(u.drop_last() =~= ls.drop_last());
    } else {
        lemma_total_entries_update(ls.drop_last(), o, l);
        assert(u.drop_last() =~= ls.drop_last().update(o, l));
    }
}

/// The lists of the empty table hold no entries.
pub proof fn lemma_total_entries_empty(n: nat)
    ensures
        total_entries(Seq::new(n, |i: int| Seq::<usize>::empty())) == 0,
    decreases n,
{
    if n > 0 {
        lemma_total_entries_empty((n - 1) as nat);
        assert(Seq::new(n, |i: int| Seq::<usize>::empty()).drop_last() =~= Seq::new(
            (n - 1) as nat,
            |i: int| Seq::<usize>::empty(),
        ));
    }
}

proof fn lemma_total_entries(off: Seq<usize>, succ: Seq<usize>)
    requires
        off.len() >= 1,
        off[0] == 0,
        off.last() <= succ.len(),
        forall|i: int, j: int| 0 <= i <= j < off.len() ==> off[i] <= off[j],
    ensures
        total_entries(lists_of(off, succ)) == off.last(),
    decreases off.len(),
{
    if off.len() > 1 {
        let d = off.drop_last();
        assert(off[off.len() - 2] <= off.last());
        lemma_total_entries(d, succ);
        assert(lists_of(d, succ) =~= lists_of(off, succ).drop_last());
    } else {
        assert(lists_of(off, succ) =~= Seq::<Seq<usize>>::empty());
    }
}

spec fn offsets_ok(off: Seq<usize>, succ: Seq<usize>) -> bool {
    &&& off.len() >= 1
    &&& off[0] == 0
    &&& off.last() == succ.len()
    &&& forall|i: int, j: int| 0 <= i <= j < off.len() ==> off[i] <= off[j]
}

spec fn lists_of(off: Seq<usize>, succ: Seq<usize>) -> Seq<Seq<usize>> {
    Seq::new((off.len() - 1) as nat, |i: int| succ.subrange(off[i] as int, off[i + 1] as int))
}

proof fn lemma_push_list(off: Seq<usize>, succ: Seq<usize>, l: Seq<usize>)
    requires
        offsets_ok(off, succ),
        succ.len() + l.len() <= usize::MAX,
    ensures
        offsets_ok(off.push((succ.len() + l.len()) as usize), succ + l),
        lists_of(off.push((succ.len() + l.len()) as usize), succ + l) =~= lists_of(off, succ).push(l),
{
    let off2 = off.push((succ.len() + l.len()) as usize);
    let succ2 = succ + l;
    assert forall|i: int| 0 <= i < off.len() - 1 implies #[trigger] lists_of(off2, succ2)[i]
        == lists_of(off, succ)[i] by {
        assert(off[i] <= off[i + 1] <= off.last());
        assert(succ2.subrange(off2[i] as int, off2[i + 1] as int) =~= succ.subrange(
            off[i] as int,
            off[i + 1] as int,
        ));
    }
    assert(succ2.subrange(off2[off.len() - 1] as int, off2[off.len() as int] as int) =~= l);
}

proof fn lemma_replace_list(
    off: Seq<usize>,
    succ: Seq<usize>,
    o: int,
    l: Seq<usize>,
    off2: Seq<usize>,
    succ2: Seq<usize>,
)
    requires
        offsets_ok(off, succ),
        0 <= o < off.len() - 1,
        succ2 == succ.subrange(0, off[o] as int) + l + succ.subrange(
            off[o + 1] as int,
            succ.len() as int,
        ),
        off2.len() == off.len(),
        forall|i: int| 0 <= i <= o ==> off2[i] == off[i],
        forall|i: int|
            o < i < off.len() ==> off2[i] == off[i] - (off[o + 1] - off[o]) + l.len(),
    ensures
        offsets_ok(off2, succ2),
        lists_of(off2, succ2) =~= lists_of(off, succ).update(o, l),
{
    let start = off[o] as int;
    let end = off[o + 1] as int;
    assert(off[o] <= off[o + 1] <= off.last());
    assert forall|i: int, j: int| 0 <= i <= j < off2.len() implies off2[i] <= off2[j] by {
        assert(off[i] <= off[j]);
        if i <= o && j > o {
            assert(off[i] <= off[o]);
            assert(off[o + 1] <= off[j]);
        }
    }
    assert forall|i: int| 0 <= i < off.len() - 1 implies #[trigger] lists_of(off2, succ2)[i]
        == lists_of(off, succ).update(o, l)[i] by {
        assert(off[i] <= off[i + 1]);
        if i < o {
            assert(off[i + 1] <= off[o]);
            assert(succ2.subrange(off2[i] as int, off2[i + 1] as int) =~= succ.subrange(
                off[i] as int,
                off[i + 1] as int,
            ));
        } else if i == o {
            assert(succ2.subrange(off2[i] as int, off2[i + 1] as int) =~= l);
        } else {
            assert(off[o + 1] <= off[i]);
            assert(off[i + 1] <= off.last());
            assert(succ2.subrange(off2[i] as int, off2[i + 1] as int) =~= succ.subrange(
                off[i] as int,
                off[i + 1] as int,
            ));
        }
    }
}

proof fn lemma_adjacent_increasing(s: Seq<usize>)
    requires
        forall|k: int| 0 < k < s.len() ==> s[k - 1] < #[trigger] s[k],
    ensures
        strictly_increasing(s),
{
    assert forall|a: int, b: int| 0 <= a < b < s.len() implies s[a] < s[b] by {
        lemma_adjacent_increasing_from(s, a, b);
    }
}

proof fn lemma_adjacent_increasing_from(s: Seq<usize>, a: int, b: int)
    requires
        forall|k: int| 0 < k < s.len() ==> s[k - 1] < #[trigger] s[k],
        0 <= a < b < s.len(),
    ensures
        s[a] < s[b],
    decreases b - a,
{
    if b > a + 1 {
        lemma_adjacent_increasing_from(s, a, b - 1);
    }
}

proof fn lemma_no_error_is_valid(ls: Seq<Seq<usize>>)
    ensures
        lists_without_error(ls) <==> valid_lists(ls),
{
    if lists_without_error(ls) {
        assert forall|i: int| 0 <= i < ls.len() implies valid_list(
            #[trigger] ls[i],
            i,
            ls.len() as int,
        ) by {
            assert forall|k: int| 0 < k < ls[i].len() implies ls[i][k - 1] < #[trigger] ls[i][k] by {
                assert(entry_error(ls, i, k) is None);
            }
            lemma_adjacent_increasing(ls[i]);
            assert forall|k: int| 0 <= k < ls[i].len() implies i < #[trigger] ls[i][k] < ls.len() by {
                assert(entry_error(ls, i, k) is None);
            }
        }
    }
    if valid_lists(ls) {
        assert forall|o: int, k: int| is_position(ls, o, k) implies (#[trigger] entry_error(
            ls,
            o,
            k,
        )) is None by {
            assert(valid_list(ls[o], o, ls.len() as int));
            if k > 0 {
                assert(ls[o][k - 1] < ls[o][k]);
            }
        }
    }
}

/// Successor table used by the dynamic-programming k-NN query.
///
/// List `i` holds later birth indices `j > i` whose insertion pruned the
/// Voronoi cell of point `i`. Lists are kept sorted and duplicate-free.
#[derive(Clone, Debug, PartialEq, Eq)]
pub struct SuccessorTable {
    offsets: Vec<usize>,
    successors: Vec<usize>,
}

impl View for SuccessorTable {
    type V = Seq<Seq<usize>>;

    closed spec fn view(&self) -> Seq<Seq<usize>> {
        lists_of(self.offsets@, self.successors@)
    }
}

/// Appends `list` as a new last list of the table under construction.
fn append_list(offsets: &mut Vec<usize>, successors: &mut Vec<usize>, list: &[usize])
    requires
        offsets_ok(old(offsets)@, old(successors)@),
    ensures
        offsets_ok(final(offsets)@, final(successors)@),
        lists_of(final(offsets)@, final(successors)@) == lists_of(old(offsets)@, old(successors)@).push(
            list@,
        ),
{
    let ghost off0 = offsets@;
    let ghost succ0 = successors@;
    let mut k: usize = 0;
    while k < list.len()
        invariant
            k <= list@.len(),
            offsets@ == off0,
            successors@ == succ0 + list@.take(k as int),
        decreases list@.len() - k,
    {
        successors.push(list[k]);
        proof {
            assert(list@.take(k + 1) =~= list@.take(k as int).push(list@[k as int]));
        }
        k += 1;
    }
    let total = successors.len();
    proof {
        assert(list@.take(list@.len() as int) =~= list@);
        lemma_push_list(off0, succ0, list@);
    }
    offsets.push(total);
}

/// Checks every entry of `lists` in order and reports the first failure.
fn check_lists(lists: &Vec<Vec<usize>>) -> (r: Result<(), Error>)
    ensures
        r is Ok <==> lists_without_error(lists_view(lists)),
        r matches Err(e) ==> first_list_error(lists_view(lists), e),
{
    let ghost ls = lists_view(lists);
    let n = lists.len();
    let mut o: usize = 0;
    while o < n
        invariant
            ls == lists_view(lists),
            n == ls.len(),
            o <= n,
            forall|o2: int, k2: int|
                is_position(ls, o2, k2) && o2 < o ==> (#[trigger] entry_error(ls, o2, k2)) is None,
        decreases n - o,
    {
        let list = &lists[o];
        assert(list@ == ls[o as int]);
        let mut k: usize = 0;
        while k < list.len()
            invariant
                ls == lists_view(lists),
                n == ls.len(),
                o < n,
                list@ == ls[o as int],
                k <= list@.len(),
                forall|o2: int, k2: int|
                    is_position(ls, o2, k2) && (o2 < o || (o2 == o && k2 < k)) ==> (
                    #[trigger] entry_error(ls, o2, k2)) is None,
            decreases list@.len() - k,
        {
            let s = list[k];
            if s <= o || s >= n {
                let e = Error::InvalidSuccessor { owner: o, successor: s, len: n };
                assert(entry_error(ls, o as int, k as int) == Some(e));
                return Err(e);
            }
            if k > 0 {
                let prev = list[k - 1];
                if s == prev {
                    let e = Error::DuplicateSuccessor { owner: o, successor: s };
                    assert(entry_error(ls, o as int, k as int) == Some(e));
                    return Err(e);
                }
                if s < prev {
                    let e = Error::UnsortedSuccessorList { owner: o, previous: prev, current: s };
                    assert(entry_error(ls, o as int, k as int) == Some(e));
                    return Err(e);
                }
            }
            assert(entry_error(ls, o as int, k as int) is None);
            k += 1;
        }
        o += 1;
    }
    Ok(())
}

impl SuccessorTable {
    /// Internal consistency of the compressed layout, together with the
    /// validity of every list. Every constructor establishes it and every
    /// operation preserves it.
    pub closed spec fn wf(&self) -> bool {
        &&& offsets_ok(self.offsets@, self.successors@)
        &&& valid_lists(self@)
    }

    /// Every list of a well-formed table is valid.
    pub proof fn lemma_valid(&self)
        requires
            self.wf(),
        ensures
            valid_lists(self@),
    {
    }

    /// The entries of all lists together fit in memory.
    pub proof fn lemma_entries_fit(&self)
        requires
            self.wf(),
        ensures
            total_entries(self@) <= usize::MAX,
    {
        lemma_total_entries(self.offsets@, self.successors@);
    }

    /// Builds a table whose lists are already known to be valid.
    fn from_valid_lists(lists: &Vec<Vec<usize>>) -> (table: Self)
        requires
            valid_lists(lists_view(lists)),
        ensures
            table.wf(),
            table@ == lists_view(lists),
    {
        let mut offsets: Vec<usize> = Vec::new();
        let mut successors: Vec<usize> = Vec::new();
        offsets.push(0);
        proof {
            assert(lists_of(offsets@, successors@) =~= lists_view(lists).take(0));
        }
        let mut i: usize = 0;
        while i < lists.len()
            invariant
                i <= lists@.len(),
                offsets_ok(offsets@, successors@),
                lists_of(offsets@, successors@) == lists_view(lists).take(i as int),
            decreases lists@.len() - i,
        {
            append_list(&mut offsets, &mut successors, lists[i].as_slice());
            proof {
                assert(lists_view(lists).take(i + 1) =~= lists_view(lists).take(i as int).push(
                    lists@[i as int]@,
                ));
            }
            i += 1;
        }
        proof {
            assert(lists_view(lists).take(lists@.len() as int) =~= lists_view(lists));
        }
        SuccessorTable { offsets, successors }
    }

    /// Creates an empty successor table with `len` lists.
    pub fn empty(len: usize) -> (table: Self)
        ensures
            table.wf(),
            table@ == Seq::new(len as nat, |i: int| Seq::<usize>::empty()),
    {
        let mut offsets: Vec<usize> = Vec::new();
        let successors: Vec<usize> = Vec::new();
        offsets.push(0);
        let mut i: usize = 0;
        while i < len
            invariant
                i <= len,
                offsets@.len() == i + 1,
                forall|k: int| 0 <= k < offsets@.len() ==> offsets@[k] == 0,
                successors@.len() == 0,
            decreases len - i,
        {
            offsets.push(0);
            i += 1;
        }
        let table = SuccessorTable { offsets, successors };
        proof {
            assert forall|i: int| 0 <= i < len implies #[trigger] table@[i] =~= Seq::<usize>::empty() by {
                assert(table.offsets@[i] == 0 && table.offsets@[i + 1] == 0);
            }
            assert(table@ =~= Seq::new(len as nat, |i: int| Seq::<usize>::empty()));
        }
        table
    }

    /// Creates a successor table from already sorted, duplicate-free lists.
    ///
    /// Succeeds exactly when every list `i` is strictly increasing with all
    /// entries in `i + 1 .. lists.len()`; otherwise reports the first failing
    /// entry, scanning lists in order and each list from front to back.
    pub fn try_from_lists(lists: Vec<Vec<usize>>) -> (r: Result<Self, Error>)
        ensures
            r is Ok <==> valid_lists(lists_view(&lists)),
            r matches Ok(table) ==> table.wf() && table@ == lists_view(&lists),
            r matches Err(e) ==> first_list_error(lists_view(&lists), e),
    {
        proof {
            lemma_no_error_is_valid(lists_view(&lists));
        }
        match check_lists(&lists) {
            Ok(()) => Ok(Self::from_valid_lists(&lists)),
            Err(e) => Err(e),
        }
    }

    /// Creates a successor table from lists that may be unsorted or contain
    /// duplicate entries.
    ///
    /// Entries are sorted and deduplicated first. The only possible failure is
    /// then an out-of-range entry: the smallest such entry of the first list
    /// that has one.
    pub fn from_lists_normalized(lists: Vec<Vec<usize>>) -> (r: Result<Self, Error>)
        ensures
            r is Ok <==> elements_in_range(lists_view(&lists)),
            r matches Ok(table) ==> {
                &&& table.wf()
                &&& table@.len() == lists@.len()
                &&& forall|i: int|
                    0 <= i < lists@.len() ==> is_sorted_set_of(
                        #[trigger] table@[i],
                        lists@[i]@,
                    )
            },
            r matches Err(e) ==> out_of_range_error(lists_view(&lists), e),
    {
        let ghost ls = lists_view(&lists);
        let mut normalized: Vec<Vec<usize>> = Vec::new();
        let mut i: usize = 0;
        while i < lists.len()
            invariant
                ls == lists_view(&lists),
                i <= lists@.len(),
                normalized@.len() == i,
                forall|k: int| 0 <= k < i ==> is_sorted_set_of(#[trigger] normalized@[k]@, ls[k]),
            decreases lists@.len() - i,
        {
            let list = sorted_set(&lists[i]);
            normalized.push(list);
            i += 1;
        }
        let ghost ns = lists_view(&normalized);
        assert(ns.len() == ls.len());
        assert forall|k: int| 0 <= k < ns.len() implies is_sorted_set_of(#[trigger] ns[k], ls[k]) by {
            assert(ns[k] == normalized@[k]@);
        }
        let r = Self::try_from_lists(normalized);
        proof {
            lemma_no_error_is_valid(ns);
            if elements_in_range(ls) {
                assert forall|o: int, k: int| is_position(ns, o, k) implies (#[trigger] entry_error(
                    ns,
                    o,
                    k,
                )) is None by {
                    assert(ns[o].contains(ns[o][k]));
                    assert(ls[o].contains(ns[o][k]));
                    if k > 0 {
                        assert(ns[o][k - 1] < ns[o][k]);
                    }
                }
            }
            if valid_lists(ns) {
                assert forall|o: int, x: usize| 0 <= o < ls.len() && #[trigger] ls[o].contains(
                    x,
                ) implies o < x < ls.len() by {
                    assert(ns[o].contains(x));
                    let k = choose|k: int| 0 <= k < ns[o].len() && ns[o][k] == x;
                    assert(valid_list(ns[o], o, ns.len() as int));
                }
            }
        }
        match r {
            Ok(table) => {
                proof {
                    assert forall|k: int| 0 <= k < lists@.len() implies is_sorted_set_of(
                        #[trigger] table@[k],
                        lists@[k]@,
                    ) by {
                        assert(ls[k] == lists@[k]@);
                    }
                }
                Ok(table)
            },
            Err(e) => {
                proof {
                    let (o, k) = choose|o: int, k: int|
                        #![trigger entry_error(ns, o, k)]
                        {
                            &&& is_position(ns, o, k)
                            &&& entry_error(ns, o, k) == Some(e)
                            &&& forall|o2: int, k2: int|
                                is_position(ns, o2, k2) && (o2 < o || (o2 == o && k2 < k)) ==> (
                                #[trigger] entry_error(ns, o2, k2)) is None
                        };
                    let x = ns[o][k];
                    if k > 0 {
                        assert(ns[o][k - 1] < ns[o][k]);
                    }
                    assert(ns[o].contains(x));
                    assert forall|y: usize| #[trigger] ls[o].contains(y) && y < x implies o < y
                        < ls.len() by {
                        assert(ns[o].contains(y));
                        let k2 = choose|k2: int| 0 <= k2 < ns[o].len() && ns[o][k2] == y;
                        if k2 >= k {
                            if k2 > k {
                                assert(ns[o][k] < ns[o][k2]);
                            }
                        }
                        assert(entry_error(ns, o, k2) is None);
                    }
                    assert forall|i2: int, y: usize|
                        0 <= i2 < o && #[trigger] ls[i2].contains(y) implies i2 < y < ls.len() by {
                        assert(ns[i2].contains(y));
                        let k2 = choose|k2: int| 0 <= k2 < ns[i2].len() && ns[i2][k2] == y;
                        assert(entry_error(ns, i2, k2) is None);
                    }
                    assert(first_out_of_range(ls, o, x));
                }
                Err(e)
            },
        }
    }

    /// Builds a complete quadratic successor table containing every edge
    /// `i -> j` for `i < j`.
    ///
    /// This table makes the query algorithm exact for arbitrary point sets, but
    /// it costs `O(n^2)` memory and query work in the worst case.
    pub fn complete(len: usize) -> (table: Self)
        ensures
            table.wf(),
            table@ == complete_lists(len as nat),
    {
        let mut offsets: Vec<usize> = Vec::new();
        let mut successors: Vec<usize> = Vec::new();
        offsets.push(0);
        proof {
            assert(lists_of(offsets@, successors@) =~= complete_lists(len as nat).take(0));
        }
        let mut owner: usize = 0;
        while owner < len
            invariant
                owner <= len,
                offsets_ok(offsets@, successors@),
                lists_of(offsets@, successors@) == complete_lists(len as nat).take(owner as int),
            decreases len - owner,
        {
            let ghost off0 = offsets@;
            let ghost succ0 = successors@;
            let ghost target = complete_lists(len as nat)[owner as int];
            let mut successor = owner + 1;
            while successor < len
                invariant
                    owner < len,
                    owner + 1 <= successor <= len,
                    offsets@ == off0,
                    target == Seq::new((len - owner - 1) as nat, |k: int| (owner + 1 + k) as usize),
                    successors@ == succ0 + target.take(successor - owner - 1),
                decreases len - successor,
            {
                successors.push(successor);
                proof {
                    assert(target.take(successor + 1 - owner - 1) =~= target.take(
                        successor - owner - 1,
                    ).push(successor));
                }
                successor += 1;
            }
            let total = successors.len();
            proof {
                assert(target.take(len - owner - 1) =~= target);
                lemma_push_list(off0, succ0, target);
                assert(complete_lists(len as nat).take(owner + 1) =~= complete_lists(
                    len as nat,
                ).take(owner as int).push(target));
            }
            offsets.push(total);
            owner += 1;
        }
        proof {
            assert(complete_lists(len as nat).take(len as int) =~= complete_lists(len as nat));
            assert forall|i: int| 0 <= i < len implies valid_list(
                #[trigger] complete_lists(len as nat)[i],
                i,
                len as int,
            ) by {}
        }
        SuccessorTable { offsets, successors }
    }

    /// Builds a successor table from insertion-time neighbor lists.
    ///
    /// `neighbors_at_insertion[j]` contains earlier indices `i < j` adjacent to
    /// `j` at insertion time. This constructor appends `j` to each list `i`.
    /// Each neighbor list is sorted and deduplicated first; the first neighbor
    /// that is not earlier than its inserted point is reported.
    pub fn from_insertion_neighbors(len: usize, neighbors_at_insertion: Vec<Vec<usize>>) -> (r:
        Result<Self, Error>)
        ensures
            neighbors_at_insertion@.len() != len ==> r == Err::<Self, Error>(
                (Error::TableLengthMismatch { points: len, lists: neighbors_at_insertion.len() }),
            ),
            neighbors_at_insertion@.len() == len ==> (r is Ok <==> neighbors_earlier(
                lists_view(&neighbors_at_insertion),
            )),
            r matches Ok(table) ==> {
                &&& table.wf()
                &&& table@.len() == len
                &&& forall|i: int, j: usize|
                    0 <= i < len ==> (#[trigger] table@[i].contains(j) <==> (j < len
                        && neighbors_at_insertion@[j as int]@.contains(i as usize)))
            },
            r matches Err(e) ==> insertion_neighbors_error(
                len as nat,
                lists_view(&neighbors_at_insertion),
                e,
            ),
    {
        let nb = &neighbors_at_insertion;
        let ghost ls = lists_view(nb);
        if nb.len() != len {
            return Err(Error::TableLengthMismatch { points: len, lists: nb.len() });
        }
        let mut out: Vec<Vec<usize>> = Vec::new();
        let mut i: usize = 0;
        while i < len
            invariant
                i <= len,
                out@.len() == i,
                forall|k: int| 0 <= k < i ==> (#[trigger] out@[k])@.len() == 0,
            decreases len - i,
        {
            out.push(Vec::new());
            i += 1;
        }
        let mut j: usize = 0;
        while j < len
            invariant
                ls == lists_view(nb),
                ls == lists_view(&neighbors_at_insertion),
                ls.len() == len,
                nb@.len() == len,
                neighbors_at_insertion@.len() == len,
                j <= len,
                out@.len() == len,
                forall|i2: int, y: usize| 0 <= i2 < j && #[trigger] ls[i2].contains(y) ==> y < i2,
                forall|i2: int|
                    0 <= i2 < len ==> {
                        &&& strictly_increasing(#[trigger] out@[i2]@)
                        &&& forall|y: usize| out@[i2]@.contains(y) ==> y < j
                        &&& forall|y: usize|
                            out@[i2]@.contains(y) <==> (y < j && ls[y as int].contains(
                                i2 as usize,
                            ))
                    },
            decreases len - j,
        {
            let s = sorted_set(&nb[j]);
            assert(nb@[j as int]@ == ls[j as int]);
            let mut k: usize = 0;
            while k < s.len()
                invariant
                    ls == lists_view(nb),
                    ls == lists_view(&neighbors_at_insertion),
                    ls.len() == len,
                    nb@.len() == len,
                    neighbors_at_insertion@.len() == len,
                    j < len,
                    is_sorted_set_of(s@, ls[j as int]),
                    k <= s@.len(),
                    forall|t: int| 0 <= t < k ==> #[trigger] s@[t] < j,
                    out@.len() == len,
                    forall|i2: int, y: usize|
                        0 <= i2 < j && #[trigger] ls[i2].contains(y) ==> y < i2,
                    forall|i2: int|
                        0 <= i2 < len ==> {
                            &&& strictly_increasing(#[trigger] out@[i2]@)
                            &&& forall|y: usize| out@[i2]@.contains(y) ==> y <= j
                            &&& forall|y: usize|
                                out@[i2]@.contains(y) <==> ((y < j && ls[y as int].contains(
                                    i2 as usize,
                                )) || (y == j && s@.take(k as int).contains(i2 as usize)))
                        },
                decreases s@.len() - k,
            {
                let x = s[k];
                if x >= j {
                    proof {
                        assert(ls[j as int].contains(x));
                        assert forall|y: usize| #[trigger] ls[j as int].contains(y) && y < x implies y
                            < j by {
                            assert(s@.contains(y));
                            let t = choose|t: int| 0 <= t < s@.len() && s@[t] == y;
                            if t >= k {
                                if t > k {
                                    assert(s@[k as int] < s@[t]);
                                }
                            }
                        }
                        assert(first_late_neighbor(ls, j as int, x));
                        assert(!neighbors_earlier(ls));
                        assert(late_neighbor_error(ls, Error::InvalidInsertionNeighbor { inserted: j, neighbor: x }));
                    }
                    return Err(Error::InvalidInsertionNeighbor { inserted: j, neighbor: x });
                }
                let ghost before = out@;
                out[x].push(j);
                proof {
                    let s0 = s@.take(k as int);
                    let s1 = s@.take(k + 1);
                    assert(s1 =~= s0.push(x));
                    lemma_contains_push(s0, x);
                    assert(!s0.contains(x)) by {
                        if s0.contains(x) {
                            let t = choose|t: int| 0 <= t < s0.len() && s0[t] == x;
                            assert(s@[t] < s@[k as int]);
                        }
                    }
                    assert forall|i2: int| 0 <= i2 < len implies {
                        &&& strictly_increasing(#[trigger] out@[i2]@)
                        &&& forall|y: usize| out@[i2]@.contains(y) ==> y <= j
                        &&& forall|y: usize|
                            out@[i2]@.contains(y) <==> ((y < j && ls[y as int].contains(
                                i2 as usize,
                            )) || (y == j && s@.take(k + 1).contains(i2 as usize)))
                    } by {
                        if i2 == x {
                            let b = before[i2]@;
                            assert(!b.contains(j));
                            assert(out@[i2]@ == b.push(j));
                            lemma_contains_push(b, j);
                            assert forall|a: int, c: int|
                                0 <= a < c < b.push(j).len() implies b.push(j)[a] < b.push(j)[c] by {
                                if c == b.len() {
                                    assert(b.contains(b[a]));
                                }
                            }
                        } else {
                            assert(out@[i2] == before[i2]);
                        }
                    }
                }
                k += 1;
            }
            proof {
                assert(s@.take(s@.len() as int) =~= s@);
                assert forall|y: usize| #[trigger] ls[j as int].contains(y) implies y < j by {
                    assert(s@.contains(y));
                }
            }
            j += 1;
        }
        let ghost ov = lists_view(&out);
        proof {
            assert forall|i2: int| 0 <= i2 < len implies valid_list(#[trigger] ov[i2], i2, len as int) by {
                assert(ov[i2] == out@[i2]@);
                assert forall|t: int| 0 <= t < ov[i2].len() implies i2 < #[trigger] ov[i2][t] < len by {
                    let y = ov[i2][t];
                    assert(out@[i2]@.contains(y));
                }
            }
            assert forall|j2: int, y: usize| 0 <= j2 < ls.len() && #[trigger] ls[j2].contains(y) implies y
                < j2 by {}
        }
        let table = Self::from_valid_lists(&out);
        proof {
            assert forall|i2: int, j2: usize| 0 <= i2 < len implies (#[trigger] table@[i2].contains(j2)
                <==> (j2 < len && neighbors_at_insertion@[j2 as int]@.contains(i2 as usize))) by {
                assert(table@[i2] == out@[i2]@);
                if j2 < len {
                    assert(ls[j2 as int] == neighbors_at_insertion@[j2 as int]@);
                }
            }
        }
        Ok(table)
    }

    /// Returns the number of successor lists.
    pub fn len(&self) -> (n: usize)
        requires
            self.wf(),
        ensures
            n == self@.len(),
    {
        self.offsets.len() - 1
    }

    /// Returns `true` when there are no successor lists.
    pub fn is_empty(&self) -> (b: bool)
        requires
            self.wf(),
        ensures
            b == (self@.len() == 0),
    {
        self.len() == 0
    }

    /// Returns a copy of every successor list, in owner order.
    pub fn lists(&self) -> (r: Vec<Vec<usize>>)
        requires
            self.wf(),
        ensures
            lists_view(&r) == self@,
    {
        let n = self.len();
        let mut r: Vec<Vec<usize>> = Vec::new();
        let mut owner: usize = 0;
        while owner < n
            invariant
                self.wf(),
                n == self@.len(),
                owner <= n,
                r@.len() == owner,
                lists_view(&r) == self@.take(owner as int),
            decreases n - owner,
        {
            let list = vstd::slice::slice_to_vec(self.list(owner));
            let ghost r0 = r@;
            r.push(list);
            proof {
                assert forall|i: int| 0 <= i < owner + 1 implies #[trigger] lists_view(&r)[i]
                    == self@.take(owner + 1)[i] by {
                    if i < owner {
                        assert(r@[i] == r0[i]);
                        assert(lists_view(&r)[i] == r0[i]@);
                    }
                }
                assert(lists_view(&r) =~= self@.take(owner + 1));
            }
            owner += 1;
        }
        proof {
            assert(self@.take(n as int) =~= self@);
        }
        r
    }

    /// Returns a successor list by owner index.
    pub fn list(&self, owner: usize) -> (list: &[usize])
        requires
            self.wf(),
            owner < self@.len(),
        ensures
            list@ == self@[owner as int],
    {
        let _count = self.offsets.len();
        let start = self.offsets[owner];
        let end = self.offsets[owner + 1];
        proof {
            assert(self.offsets@[owner as int] <= self.offsets@[owner + 1] <= self.offsets@.last());
        }
        vstd::slice::slice_subrange(self.successors.as_slice(), start, end)
    }

    /// Appends a new empty list. This is used when inserting a new point.
    pub fn push_empty_list(&mut self)
        requires
            old(self).wf(),
        ensures
            final(self).wf(),
            final(self)@ == old(self)@.push(Seq::<usize>::empty()),
    {
        proof {
            lemma_push_list(self.offsets@, self.successors@, Seq::<usize>::empty());
            assert(self.successors@ + Seq::<usize>::empty() =~= self.successors@);
        }
        let len = self.successors.len();
        self.offsets.push(len);
        proof {
            let ls = self@;
            assert forall|i: int| 0 <= i < ls.len() implies valid_list(#[trigger] ls[i], i, ls.len() as int) by {
                if i < ls.len() - 1 {
                    assert(ls[i] == old(self)@[i]);
                    assert(valid_list(old(self)@[i], i, old(self)@.len() as int));
                }
            }
        }
    }

    /// Checks that `owner -> successor` is a well-formed edge of this table.
    fn validate_successor(&self, owner: usize, successor: usize) -> (r: Result<(), Error>)
        requires
            self.wf(),
        ensures
            r == edge_check(self@.len(), owner, successor),
    {
        let len = self.len();
        if owner >= len {
            return Err(Error::InvalidIndex { index: owner, len });
        }
        if successor <= owner || successor >= len {
            return Err(Error::InvalidSuccessor { owner, successor, len });
        }
        Ok(())
    }

    /// Inserts successor edge `owner -> successor` while preserving sorted order.
    ///
    /// Returns `true` if an edge was inserted and `false` if it was already
    /// present.
    pub fn insert_successor(&mut self, owner: usize, successor: usize) -> (r: Result<bool, Error>)
        requires
            old(self).wf(),
        ensures
            final(self).wf(),
            edge_check(old(self)@.len(), owner, successor) matches Err(e) ==> r == Err::<bool, Error>(e)
                && final(self)@ == old(self)@,
            edge_check(old(self)@.len(), owner, successor) is Ok ==> {
                &&& r == Ok::<bool, Error>(!old(self)@[owner as int].contains(successor))
                &&& final(self)@.len() == old(self)@.len()
                &&& forall|i: int|
                    0 <= i < old(self)@.len() && i != owner ==> #[trigger] final(self)@[i]
                        == old(self)@[i]
                &&& is_sorted_set_of(final(self)@[owner as int], old(self)@[owner as int].push(successor))
                &&& final(self)@[owner as int].len() == old(self)@[owner as int].len() + if old(
                    self,
                )@[owner as int].contains(successor) {
                    0int
                } else {
                    1int
                }
            },
    {
        match self.validate_successor(owner, successor) {
            Err(e) => return Err(e),
            Ok(()) => {},
        }
        let ghost old_view = self@;
        let ghost off0 = self.offsets@;
        let ghost succ0 = self.successors@;
        let start = self.offsets[owner];
        let end = self.offsets[owner + 1];
        proof {
            assert(off0[owner as int] <= off0[owner + 1] <= off0.last());
            assert(succ0.subrange(start as int, end as int) == old_view[owner as int]);
            assert(valid_list(old_view[owner as int], owner as int, old_view.len() as int));
        }
        match search_range(&self.successors, start, end, successor) {
            Ok(pos) => {
                proof {
                    assert(old_view[owner as int][pos - start] == successor);
                    assert(old_view[owner as int].contains(successor));
                    assert(old_view[owner as int].push(successor)[old_view[owner as int].len() as int] == successor);
                    assert(old_view[owner as int].push(successor).contains(successor));
                    assert forall|y: usize| old_view[owner as int].contains(y) <==> old_view[
                        owner as int].push(successor).contains(y) by {
                        if old_view[owner as int].push(successor).contains(y) {
                            let t = choose|t: int|
                                0 <= t < old_view[owner as int].push(successor).len() && old_view[
                                    owner as int].push(successor)[t] == y;
                            if t < old_view[owner as int].len() {
                                assert(old_view[owner as int][t] == y);
                            }
                        }
                        if old_view[owner as int].contains(y) {
                            let t = choose|t: int|
                                0 <= t < old_view[owner as int].len() && old_view[owner as int][t] == y;
                            assert(old_view[owner as int].push(successor)[t] == y);
                        }
                    }
                }
                Ok(false)
            },
            Err(pos) => {
                let ghost l = old_view[owner as int];
                let ghost nl = l.insert(pos - start, successor);
                self.successors.insert(pos, successor);
                let _total = self.successors.len();
                assert(self.successors@.len() == succ0.len() + 1);
                let mut i = owner + 1;
                while i < self.offsets.len()
                    invariant
                        owner + 1 <= i <= self.offsets@.len(),
                        self.offsets@.len() == off0.len(),
                        self.successors@ == succ0.insert(pos as int, successor),
                        offsets_ok(off0, succ0),
                        off0.last() < usize::MAX,
                        forall|k: int| 0 <= k < i ==> self.offsets@[k] == if k > owner {
                            off0[k] + 1
                        } else {
                            off0[k] as int
                        },
                        forall|k: int| i <= k < off0.len() ==> self.offsets@[k] == off0[k],
                    decreases self.offsets@.len() - i,
                {
                    proof {
                        assert(off0[i as int] <= off0.last());
                    }
                    let v = self.offsets[i];
                    self.offsets.set(i, v + 1);
                    i += 1;
                }
                proof {
                    assert(succ0.insert(pos as int, successor) =~= succ0.subrange(0, start as int) + nl
                        + succ0.subrange(end as int, succ0.len() as int));
                    lemma_replace_list(off0, succ0, owner as int, nl, self.offsets@, self.successors@);
                    assert(self@ == old_view.update(owner as int, nl));
                    assert(!l.contains(successor)) by {
                        if l.contains(successor) {
                            let t = choose|t: int| 0 <= t < l.len() && l[t] == successor;
                            assert(succ0[start + t] == successor);
                        }
                    }
                    assert forall|a: int, b: int| 0 <= a < b < nl.len() implies nl[a] < nl[b] by {
                        let p = pos - start;
                        if a < p && b == p {
                            assert(succ0[start + a] < successor);
                        } else if a == p && b > p {
                            assert(succ0[start + b - 1] > successor);
                        } else if a < p && b > p {
                            assert(succ0[start + b - 1] > successor);
                            assert(succ0[start + a] < successor);
                        } else if a > p {
                            assert(l[a - 1] < l[b - 1]);
                        } else {
                            assert(l[a] < l[b]);
                        }
                    }
                    assert forall|y: usize| nl.contains(y) <==> l.push(successor).contains(y) by {
                        let p = pos - start;
                        if nl.contains(y) {
                            let t = choose|t: int| 0 <= t < nl.len() && nl[t] == y;
                            if t < p {
                                assert(l.push(successor)[t] == y);
                            } else if t > p {
                                assert(l.push(successor)[t - 1] == y);
                            } else {
                                assert(l.push(successor)[l.len() as int] == y);
                            }
                        }
                        if l.push(successor).contains(y) {
                            let t = choose|t: int| 0 <= t < l.len() + 1 && l.push(successor)[t] == y;
                            if t == l.len() {
                                assert(nl[p] == y);
                            } else if t < p {
                                assert(nl[t] == y);
                            } else {
                                assert(nl[t + 1] == y);
                            }
                        }
                    }
                    let ls = self@;
                    assert forall|i2: int| 0 <= i2 < ls.len() implies valid_list(
                        #[trigger] ls[i2],
                        i2,
                        ls.len() as int,
                    ) by {
                        if i2 == owner {
                            assert forall|t: int| 0 <= t < nl.len() implies i2 < #[trigger] nl[t]
                                < ls.len() by {
                                assert(nl.contains(nl[t]));
                                assert(l.push(successor).contains(nl[t]));
                                let t2 = choose|t2: int|
                                    0 <= t2 < l.len() + 1 && l.push(successor)[t2] == nl[t];
                                if t2 < l.len() {
                                    assert(l[t2] == nl[t]);
                                }
                            }
                        } else {
                            assert(valid_list(old_view[i2], i2, old_view.len() as int));
                        }
                    }
                }
                Ok(true)
            },
        }
    }

    /// Removes all occurrences of `successor` from every list.
    ///
    /// Returns the number of removed references.
    pub fn remove_references_to(&mut self, successor: usize) -> (removed: usize)
        requires
            old(self).wf(),
        ensures
            final(self).wf(),
            final(self)@.len() == old(self)@.len(),
            forall|i: int|
                0 <= i < old(self)@.len() ==> strictly_increasing(#[trigger] final(self)@[i]),
            forall|i: int, y: usize|
                0 <= i < old(self)@.len() ==> (#[trigger] final(self)@[i].contains(y) <==> (old(
                    self,
                )@[i].contains(y) && y != successor)),
            removed == count_lists_with(old(self)@, successor, old(self)@.len()),
    {
        let ghost old_view = self@;
        let n = self.len();
        let mut offsets: Vec<usize> = Vec::new();
        let mut successors: Vec<usize> = Vec::new();
        offsets.push(0);
        let mut removed: usize = 0;
        let mut owner: usize = 0;
        while owner < n
            invariant
                self.wf(),
                self@ == old_view,
                n == old_view.len(),
                owner <= n,
                offsets_ok(offsets@, successors@),
                lists_of(offsets@, successors@).len() == owner,
                forall|i: int|
                    0 <= i < owner ==> #[trigger] lists_of(offsets@, successors@)[i]
                        == without(old_view[i], successor),
                removed == count_lists_with(old_view, successor, owner as nat),
                removed <= owner,
            decreases n - owner,
        {
            let ghost off0 = offsets@;
            let ghost succ0 = successors@;
            let list = self.list(owner);
            let ghost l = old_view[owner as int];
            let mut k: usize = 0;
            let mut found = false;
            while k < list.len()
                invariant
                    list@ == l,
                    k <= l.len(),
                    offsets@ == off0,
                    successors@ == succ0 + without(l.take(k as int), successor),
                    found == l.take(k as int).contains(successor),
                decreases l.len() - k,
            {
                let v = list[k];
                proof {
                    assert(l.take(k + 1).drop_last() =~= l.take(k as int));
                    assert(l.take(k + 1).last() == v);
                }
                if v != successor {
                    successors.push(v);
                    proof {
                        assert(without(l.take(k + 1), successor) == without(l.take(k as int), successor).push(v));
                        assert(successors@ =~= succ0 + without(l.take(k + 1), successor));
                    }
                } else {
                    found = true;
                    proof {
                        assert(without(l.take(k + 1), successor) == without(l.take(k as int), successor));
                    }
                }
                proof {
                    let l1 = l.take(k + 1);
                    let l0 = l.take(k as int);
                    if l1.contains(successor) && !l0.contains(successor) {
                        let t = choose|t: int| 0 <= t < l1.len() && l1[t] == successor;
                        if t < k {
                            assert(l0[t] == successor);
                        }
                    }
                    if l0.contains(successor) {
                        let t = choose|t: int| 0 <= t < l0.len() && l0[t] == successor;
                        assert(l1[t] == successor);
                    }
                    if v == successor {
                        assert(l1[k as int] == successor);
                    }
                }
                k += 1;
            }
            let total = successors.len();
            proof {
                assert(l.take(l.len() as int) =~= l);
                let fl = without(l, successor);
                lemma_push_list(off0, succ0, fl);
                assert(succ0 + fl =~= successors@);
            }
            offsets.push(total);
            if found {
                removed += 1;
            }
            owner += 1;
        }
        proof {
            let nv = lists_of(offsets@, successors@);
            assert forall|i: int| 0 <= i < nv.len() implies valid_list(#[trigger] nv[i], i, nv.len() as int) by {
                let l = old_view[i];
                assert(valid_list(l, i, n as int));
                lemma_without(l, successor);
                assert forall|t: int| 0 <= t < nv[i].len() implies i < #[trigger] nv[i][t] < n by {
                    assert(nv[i].contains(nv[i][t]));
                    let t2 = choose|t2: int| 0 <= t2 < l.len() && l[t2] == nv[i][t];
                }
            }
            assert forall|i: int| 0 <= i < n implies strictly_increasing(#[trigger] nv[i]) by {
                lemma_without(old_view[i], successor);
            }
            assert forall|i: int, y: usize| 0 <= i < n implies (#[trigger] nv[i].contains(y) <==> (
                old_view[i].contains(y) && y != successor)) by {
                lemma_without(old_view[i], successor);
            }
        }
        self.offsets = offsets;
        self.successors = successors;
        removed
    }

    /// Clears one successor list.
    pub fn clear_list(&mut self, owner: usize) -> (r: Result<(), Error>)
        requires
            old(self).wf(),
        ensures
            final(self).wf(),
            owner >= old(self)@.len() ==> r == Err::<(), Error>(
                (Error::InvalidIndex { index: owner, len: old(self)@.len() as usize }),
            ) && final(self)@ == old(self)@,
            owner < old(self)@.len() ==> r is Ok && final(self)@ == old(self)@.update(
                owner as int,
                Seq::<usize>::empty(),
            ),
    {
        let len = self.len();
        if owner >= len {
            return Err(Error::InvalidIndex { index: owner, len });
        }
        let ghost old_view = self@;
        let ghost off0 = self.offsets@;
        let ghost succ0 = self.successors@;
        let start = self.offsets[owner];
        let end = self.offsets[owner + 1];
        proof {
            assert(off0[owner as int] <= off0[owner + 1] <= off0.last());
        }
        let len_to_remove = end - start;
        if len_to_remove > 0 {
            let mut tail = self.successors.split_off(end);
            assert(self.successors@ == succ0.subrange(0, end as int));
            self.successors.truncate(start);
            assert(self.successors@ =~= succ0.subrange(0, start as int));
            self.successors.append(&mut tail);
            assert(self.successors@ == succ0.subrange(0, start as int) + succ0.subrange(end as int, succ0.len() as int));
            let mut i = owner + 1;
            while i < self.offsets.len()
                invariant
                    owner + 1 <= i <= self.offsets@.len(),
                    self.offsets@.len() == off0.len(),
                    self.successors@ == succ0.subrange(0, start as int) + succ0.subrange(
                        end as int,
                        succ0.len() as int,
                    ),
                    offsets_ok(off0, succ0),
                    start == off0[owner as int],
                    end == off0[owner + 1],
                    len_to_remove == end - start,
                    forall|k: int| 0 <= k < i ==> self.offsets@[k] == if k > owner {
                        off0[k] - len_to_remove
                    } else {
                        off0[k] as int
                    },
                    forall|k: int| i <= k < off0.len() ==> self.offsets@[k] == off0[k],
                decreases self.offsets@.len() - i,
            {
                proof {
                    assert(off0[owner + 1] <= off0[i as int]);
                }
                let v = self.offsets[i];
                self.offsets.set(i, v - len_to_remove);
                i += 1;
            }
            proof {
                assert(self.successors@ =~= succ0.subrange(0, start as int) + Seq::<usize>::empty()
                    + succ0.subrange(end as int, succ0.len() as int));
                lemma_replace_list(
                    off0,
                    succ0,
                    owner as int,
                    Seq::<usize>::empty(),
                    self.offsets@,
                    self.successors@,
                );
            }
        } else {
            proof {
                assert(old_view[owner as int] =~= Seq::<usize>::empty());
                assert(old_view.update(owner as int, Seq::<usize>::empty()) =~= old_view);
            }
        }
        proof {
            let ls = self@;
            assert forall|i2: int| 0 <= i2 < ls.len() implies valid_list(#[trigger] ls[i2], i2, ls.len() as int) by {
                if i2 != owner {
                    assert(valid_list(old_view[i2], i2, old_view.len() as int));
                }
            }
        }
        Ok(())
    }

    /// Clears every successor list while preserving table length.
    pub fn clear_all(&mut self)
        requires
            old(self).wf(),
        ensures
            final(self).wf(),
            final(self)@ == Seq::new(old(self)@.len(), |i: int| Seq::<usize>::empty()),
    {
        let ghost n = self@.len();
        self.successors.clear();
        let mut i: usize = 0;
        while i < self.offsets.len()
            invariant
                i <= self.offsets@.len(),
                self.offsets@.len() == n + 1,
                self.successors@.len() == 0,
                forall|k: int| 0 <= k < i ==> self.offsets@[k] == 0,
            decreases self.offsets@.len() - i,
        {
            self.offsets.set(i, 0);
            i += 1;
        }
        proof {
            assert forall|i: int| 0 <= i < n implies #[trigger] self@[i] =~= Seq::<usize>::empty() by {
                assert(self.offsets@[i] == 0 && self.offsets@[i + 1] == 0);
            }
            assert(self@ =~= Seq::new(n, |i: int| Seq::<usize>::empty()));
        }
    }

    /// Validates the table against its own length.
    ///
    /// Every table is valid by construction, so this always succeeds.
    pub fn validate(&self) -> (r: Result<(), Error>)
        requires
            self.wf(),
        ensures
            r is Ok,
            valid_lists(self@),
    {
        self.validate_for_len(self.len())
    }

    /// Validates the table for a point array of length `len`: the table has
    /// `len` lists, and every list is sorted, duplicate-free and holds only
    /// indices above its owner and below `len`.
    ///
    /// Lists are kept valid by every operation, so after the length check the
    /// scan of the lists always succeeds.
    pub fn validate_for_len(&self, len: usize) -> (r: Result<(), Error>)
        requires
            self.wf(),
        ensures
            len == self@.len() ==> r is Ok,
            len != self@.len() ==> r == Err::<(), Error>(
                (Error::TableLengthMismatch { points: len, lists: self@.len() as usize }),
            ),
            valid_lists(self@),
    {
        let n = self.len();
        if n != len {
            return Err(Error::TableLengthMismatch { points: len, lists: n });
        }
        let mut owner: usize = 0;
        while owner < len
            invariant
                self.wf(),
                len == self@.len(),
                owner <= len,
            decreases len - owner,
        {
            let list = self.list(owner);
            proof {
                assert(valid_list(self@[owner as int], owner as int, len as int));
            }
            let mut previous: Option<usize> = None;
            let mut k: usize = 0;
            while k < list.len()
                invariant
                    self.wf(),
                    len == self@.len(),
                    owner < len,
                    list@ == self@[owner as int],
                    valid_list(list@, owner as int, len as int),
                    k <= list@.len(),
                    k == 0 ==> previous is None,
                    k > 0 ==> previous == Some(list@[k - 1]),
                decreases list@.len() - k,
            {
                let successor = list[k];
                if successor <= owner || successor >= len {
                    return Err(Error::InvalidSuccessor { owner, successor, len });
                }
                if let Some(prev) = previous {
                    proof {
                        assert(list@[k - 1] < list@[k as int]);
                    }
                    if successor == prev {
                        return Err(Error::DuplicateSuccessor { owner, successor });
                    }
                    if successor < prev {
                        return Err(Error::UnsortedSuccessorList { owner, previous: prev, current: successor });
                    }
                }
                previous = Some(successor);
                k += 1;
            }
            owner += 1;
        }
        Ok(())
    }
}

/// The result of checking edge `owner -> successor` in a table of `n` lists.
pub open spec fn edge_check(n: nat, owner: usize, successor: usize) -> Result<(), Error> {
    if owner >= n {
        Err(Error::InvalidIndex { index: owner, len: n as usize })
    } else if successor <= owner || successor >= n {
        Err(Error::InvalidSuccessor { owner, successor, len: n as usize })
    } else {
        Ok(())
    }
}

/// The lists of the complete table with `n` lists: list `i` is `i+1, ..., n-1`.
pub open spec fn complete_lists(n: nat) -> Seq<Seq<usize>> {
    Seq::new(n, |i: int| Seq::new((n - i - 1) as nat, |k: int| (i + 1 + k) as usize))
}

/// When every point lists all earlier points as its insertion neighbors, the
/// successor lists built from them form the complete table.
pub proof fn lemma_all_earlier_neighbors_complete(ls: Seq<Seq<usize>>, nb: Seq<Seq<usize>>, n: nat)
    requires
        n <= usize::MAX,
        valid_lists(ls),
        ls.len() == n,
        nb.len() == n,
        forall|i: int, j: usize| 0 <= i < n ==> (#[trigger] ls[i].contains(j) <==> (j < n && nb[j as int].contains(i as usize))),
        forall|j: int, i: usize| 0 <= j < n && i < j ==> #[trigger] nb[j].contains(i),
    ensures
        ls == complete_lists(n),
{
    let c = complete_lists(n);
    assert forall|i: int| 0 <= i < n implies #[trigger] ls[i] == c[i] by {
        assert(valid_list(ls[i], i, n as int));
        assert forall|x: usize| ls[i].contains(x) <==> c[i].contains(x) by {
            if c[i].contains(x) {
                let k = choose|k: int| 0 <= k < c[i].len() && c[i][k] == x;
                assert(x == i + 1 + k);
                assert(nb[x as int].contains(i as usize));
            }
            if ls[i].contains(x) {
                assert(c[i][x - i - 1] == x);
                let k = choose|k: int| 0 <= k < ls[i].len() && ls[i][k] == x;
                assert(i < ls[i][k]);
            }
        }
        assert(strictly_increasing(c[i])) by {
            assert forall|a: int, b: int| 0 <= a < b < c[i].len() implies c[i][a] < c[i][b] by {
                assert(c[i][a] == i + 1 + a);
                assert(c[i][b] == i + 1 + b);
            }
        }
        lemma_increasing_unique(ls[i], c[i]);
    }
    assert(ls =~= c);
}

/// `l` with every occurrence of `s` left out, order kept.
spec fn without(l: Seq<usize>, s: usize) -> Seq<usize>
    decreases l.len(),
{
    if l.len() == 0 {
        l
    } else {
        let d = without(l.drop_last(), s);
        if l.last() != s {
            d.push(l.last())
        } else {
            d
        }
    }
}

proof fn lemma_without(l: Seq<usize>, s: usize)
    ensures
        strictly_increasing(l) ==> strictly_increasing(without(l, s)),
        forall|y: usize| #[trigger] without(l, s).contains(y) <==> (l.contains(y) && y != s),
    decreases l.len(),
{
    if l.len() > 0 {
        let d = l.drop_last();
        lemma_without(d, s);
        let wd = without(d, s);
        assert forall|y: usize| #[trigger] without(l, s).contains(y) <==> (l.contains(y) && y != s) by {
            if l.contains(y) && y != s {
                let t = choose|t: int| 0 <= t < l.len() && l[t] == y;
                if t < l.len() - 1 {
                    assert(d[t] == y);
                    assert(d.contains(y));
                    assert(wd.contains(y));
                    let t2 = choose|t2: int| 0 <= t2 < wd.len() && wd[t2] == y;
                    if l.last() != s {
                        assert(wd.push(l.last())[t2] == y);
                    }
                } else {
                    assert(wd.push(l.last())[wd.len() as int] == y);
                }
            }
            if without(l, s).contains(y) {
                let t = choose|t: int| 0 <= t < without(l, s).len() && without(l, s)[t] == y;
                if l.last() != s && t == wd.len() {
                    assert(l[l.len() - 1] == y);
                } else {
                    assert(wd[t] == y);
                    assert(wd.contains(y));
                    let t2 = choose|t2: int| 0 <= t2 < d.len() && d[t2] == y;
                    assert(l[t2] == y);
                }
            }
        }
        if strictly_increasing(l) {
            assert(strictly_increasing(d));
            if l.last() != s {
                assert forall|a: int, b: int| 0 <= a < b < wd.push(l.last()).len() implies wd.push(
                    l.last(),
                )[a] < wd.push(l.last())[b] by {
                    if b == wd.len() {
                        assert(wd.contains(wd[a]));
                        let t = choose|t: int| 0 <= t < d.len() && d[t] == wd[a];
                        assert(l[t] < l[l.len() - 1]);
                    }
                }
            }
        }
    }
}

} // verus!
