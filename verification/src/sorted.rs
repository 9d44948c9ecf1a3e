//! Sorted, duplicate-free index sequences and the searches over them.
use vstd::prelude::*;

verus! {

/// Every element is strictly smaller than every later element.
pub open spec fn strictly_increasing(s: Seq<usize>) -> bool {
    forall|a: int, b: int| 0 <= a < b < s.len() ==> s[a] < s[b]
}

/// The sorted, duplicate-free sequence holding exactly the values of `s`.
pub open spec fn is_sorted_set_of(r: Seq<usize>, s: Seq<usize>) -> bool {
    &&& strictly_increasing(r)
    &&& forall|x: usize| r.contains(x) <==> s.contains(x)
}

/// Membership in a sequence extended by one element.
pub proof fn lemma_contains_push<A>(s: Seq<A>, x: A)
    ensures
        forall|y: A| #[trigger] s.push(x).contains(y) <==> (s.contains(y) || y == x),
{
    assert forall|y: A| #[trigger] s.push(x).contains(y) <==> (s.contains(y) || y == x) by {
        if s.push(x).contains(y) {
            let t = choose|t: int| 0 <= t < s.push(x).len() && s.push(x)[t] == y;
            if t < s.len() {
                assert(s[t] == y);
            }
        }
        if s.contains(y) {
            let t = choose|t: int| 0 <= t < s.len() && s[t] == y;
            assert(s.push(x)[t] == y);
        }
        if y == x {
            assert(s.push(x)[s.len() as int] == y);
        }
    }
}

/// Two strictly increasing sequences with the same elements are equal.
pub proof fn lemma_increasing_unique(a: Seq<usize>, b: Seq<usize>)
    requires
        strictly_increasing(a),
        strictly_increasing(b),
        forall|x: usize| a.contains(x) <==> b.contains(x),
    ensures
        a == b,
    decreases a.len(),
{
    if a.len() == 0 {
        if b.len() > 0 {
            assert(b.contains(b[0]));
        }
        assert(a =~= b);
    } else {
        assert(a.contains(a[0]));
        assert(b.contains(b[0]));
        let j = choose|j: int| 0 <= j < b.len() && b[j] == a[0];
        let i = choose|i: int| 0 <= i < a.len() && a[i] == b[0];
        if j > 0 && i > 0 {
            assert(b[0] < b[j]);
            assert(a[0] < a[i]);
        }
        assert(a[0] == b[0]);
        let a1 = a.drop_first();
        let b1 = b.drop_first();
        assert forall|x: usize| a1.contains(x) <==> b1.contains(x) by {
            if a1.contains(x) {
                let t = choose|t: int| 0 <= t < a1.len() && a1[t] == x;
                assert(a[t + 1] == x);
                assert(a.contains(x));
                let u = choose|u: int| 0 <= u < b.len() && b[u] == x;
                assert(u != 0);
                assert(b1[u - 1] == x);
            }
            if b1.contains(x) {
                let t = choose|t: int| 0 <= t < b1.len() && b1[t] == x;
                assert(b[t + 1] == x);
                assert(b.contains(x));
                let u = choose|u: int| 0 <= u < a.len() && a[u] == x;
                assert(u != 0);
                assert(a1[u - 1] == x);
            }
        }
        lemma_increasing_unique(a1, b1);
        assert forall|t: int| 0 <= t < a.len() implies a[t] == b[t] by {
            if t > 0 {
                assert(a1[t - 1] == b1[t - 1]);
            }
        }
        assert(a =~= b);
    }
}

/// A finite set of indices below `n` has at most `n` elements.
pub proof fn lemma_set_below(s: Set<usize>, n: nat)
    requires
        s.finite(),
        forall|i: usize| #[trigger] s.contains(i) ==> i < n,
    ensures
        s.len() <= n,
    decreases n,
{
    if n == 0 {
        if s.len() > 0 {
            let x = s.choose();
            assert(s.contains(x));
        }
    } else {
        let m = (n - 1) as usize;
        if s.contains(m) {
            lemma_set_below(s.remove(m), (n - 1) as nat);
        } else {
            lemma_set_below(s, (n - 1) as nat);
        }
    }
}

/// A duplicate-free sequence of indices below `n` has at most `n` elements.
pub proof fn lemma_distinct_below(s: Seq<usize>, n: nat)
    requires
        s.no_duplicates(),
        forall|i: int| 0 <= i < s.len() ==> s[i] < n,
    ensures
        s.len() <= n,
    decreases n,
{
    if n == 0 {
        if s.len() > 0 {
            assert(s[0] < 0);
        }
    } else {
        let m = (n - 1) as nat;
        if exists|k: int| 0 <= k < s.len() && s[k] == m {
            let k = choose|k: int| 0 <= k < s.len() && s[k] == m;
            let r = s.remove(k);
            s.remove_ensures(k);
            assert forall|i: int| 0 <= i < r.len() implies r[i] < m by {
                if i < k {
                    assert(r[i] == s[i]);
                } else {
                    assert(r[i] == s[i + 1]);
                }
            }
            assert forall|i: int, j: int| 0 <= i < r.len() && 0 <= j < r.len() && i != j implies r[i]
                != r[j] by {
                let si = if i < k { i } else { i + 1 };
                let sj = if j < k { j } else { j + 1 };
                assert(r[i] == s[si]);
                assert(r[j] == s[sj]);
            }
            lemma_distinct_below(r, m);
        } else {
            lemma_distinct_below(s, m);
        }
    }
}

/// Binary search for `x` inside `v[lo..hi]`, which must be strictly increasing.
///
/// Returns `Ok(i)` with `v[i] == x`, or `Err(p)` where `p` is the position at
/// which `x` would be inserted to keep the range sorted.
pub fn search_range(v: &Vec<usize>, lo: usize, hi: usize, x: usize) -> (r: Result<usize, usize>)
    requires
        lo <= hi <= v.len(),
        strictly_increasing(v@.subrange(lo as int, hi as int)),
    ensures
        match r {
            Ok(i) => lo <= i < hi && v[i as int] == x,
            Err(p) => {
                &&& lo <= p <= hi
                &&& forall|k: int| lo <= k < p ==> v[k] < x
                &&& forall|k: int| p <= k < hi ==> v[k] > x
            },
        },
{
    let mut a = lo;
    let mut b = hi;
    while a < b
        invariant
            lo <= a <= b <= hi <= v.len(),
            strictly_increasing(v@.subrange(lo as int, hi as int)),
            forall|k: int| lo <= k < a ==> v[k] < x,
            forall|k: int| b <= k < hi ==> v[k] > x,
        decreases b - a,
    {
        let mid = a + (b - a) / 2;
        let m = v[mid];
        proof {
            assert forall|k: int| lo <= k < mid implies v[k] < m by {
                assert(v@.subrange(lo as int, hi as int)[k - lo] == v[k]);
                assert(v@.subrange(lo as int, hi as int)[mid - lo] == v[mid as int]);
            }
            assert forall|k: int| mid < k < hi implies v[k] > m by {
                assert(v@.subrange(lo as int, hi as int)[k - lo] == v[k]);
                assert(v@.subrange(lo as int, hi as int)[mid - lo] == v[mid as int]);
            }
        }
        if m == x {
            return Ok(mid);
        } else if m < x {
            a = mid + 1;
        } else {
            b = mid;
        }
    }
    Err(a)
}

/// Inserts `x` into the strictly increasing vector `v`, unless it is present.
///
/// Returns `true` when `x` was inserted.
pub fn insert_unique(v: &mut Vec<usize>, x: usize) -> (inserted: bool)
    requires
        strictly_increasing(old(v)@),
    ensures
        strictly_increasing(final(v)@),
        inserted == !old(v)@.contains(x),
        forall|y: usize| final(v)@.contains(y) <==> (old(v)@.contains(y) || y == x),
        final(v)@.len() == old(v)@.len() + if inserted { 1int } else { 0int },
{
    let len = v.len();
    proof {
        assert(v@.subrange(0, len as int) =~= v@);
    }
    match search_range(v, 0, len, x) {
        Ok(_) => false,
        Err(p) => {
            let ghost pre = v@;
            v.insert(p, x);
            proof {
                assert(!pre.contains(x));
                assert forall|y: usize| v@.contains(y) <==> (pre.contains(y) || y == x) by {
                    if v@.contains(y) {
                        let k = choose|k: int| 0 <= k < v@.len() && v@[k] == y;
                        if k < p {
                            assert(pre[k] == y);
                        } else if k > p {
                            assert(pre[k - 1] == y);
                        }
                    }
                    if pre.contains(y) {
                        let k = choose|k: int| 0 <= k < pre.len() && pre[k] == y;
                        if k < p {
                            assert(v@[k] == y);
                        } else {
                            assert(v@[k + 1] == y);
                        }
                    }
                    if y == x {
                        assert(v@[p as int] == x);
                    }
                }
            }
            true
        },
    }
}

/// Returns the sorted, duplicate-free sequence of the values in `list`.
pub fn sorted_set(list: &Vec<usize>) -> (r: Vec<usize>)
    ensures
        is_sorted_set_of(r@, list@),
        r@.len() <= list@.len(),
{
    let mut r: Vec<usize> = Vec::new();
    let mut i: usize = 0;
    while i < list.len()
        invariant
            i <= list.len(),
            is_sorted_set_of(r@, list@.take(i as int)),
            r@.len() <= i,
        decreases list.len() - i,
    {
        let x = list[i];
        insert_unique(&mut r, x);
        proof {
            assert forall|y: usize| r@.contains(y) <==> list@.take(i + 1).contains(y) by {
                let t = list@.take(i + 1);
                if t.contains(y) {
                    let k = choose|k: int| 0 <= k < t.len() && t[k] == y;
                    if k < i {
                        assert(list@.take(i as int)[k] == y);
                    }
                }
                if list@.take(i as int).contains(y) {
                    let k = choose|k: int| 0 <= k < i && list@.take(i as int)[k] == y;
                    assert(t[k] == y);
                }
                assert(t[i as int] == x);
            }
        }
        i += 1;
    }
    proof {
        assert(list@.take(list.len() as int) =~= list@);
    }
    r
}


/// Lexicographic order on edges `(owner, successor)`.
pub open spec fn edge_lt(a: (usize, usize), b: (usize, usize)) -> bool {
    a.0 < b.0 || (a.0 == b.0 && a.1 < b.1)
}

/// Every edge is lexicographically smaller than every later edge.
pub open spec fn edges_increasing(s: Seq<(usize, usize)>) -> bool {
    forall|a: int, b: int| 0 <= a < b < s.len() ==> edge_lt(s[a], s[b])
}

/// Returns the lexicographically sorted, duplicate-free sequence of `edges`.
pub fn sorted_edge_set(edges: &Vec<(usize, usize)>) -> (r: Vec<(usize, usize)>)
    ensures
        edges_increasing(r@),
        forall|e: (usize, usize)| r@.contains(e) <==> edges@.contains(e),
{
    let mut r: Vec<(usize, usize)> = Vec::new();
    let mut i: usize = 0;
    while i < edges.len()
        invariant
            i <= edges@.len(),
            edges_increasing(r@),
            forall|e: (usize, usize)| r@.contains(e) <==> edges@.take(i as int).contains(e),
        decreases edges@.len() - i,
    {
        let e = edges[i];
        let mut p: usize = 0;
        while p < r.len() && (r[p].0 < e.0 || (r[p].0 == e.0 && r[p].1 < e.1))
            invariant
                p <= r@.len(),
                forall|t: int| 0 <= t < p ==> edge_lt(#[trigger] r@[t], e),
            decreases r@.len() - p,
        {
            p += 1;
        }
        let ghost before = r@;
        if p < r.len() && r[p].0 == e.0 && r[p].1 == e.1 {
            proof {
                assert(r@[p as int] == e);
            }
        } else {
            r.insert(p, e);
            proof {
                assert forall|a: int, b: int| 0 <= a < b < r@.len() implies edge_lt(r@[a], r@[b]) by {
                    if b < p {
                        assert(edge_lt(before[a], before[b]));
                    } else if b == p {
                    } else if a < p {
                        assert(edge_lt(before[a], e));
                        assert(!edge_lt(before[p as int], e));
                        if b - 1 > p {
                            assert(edge_lt(before[p as int], before[b - 1]));
                        }
                    } else if a == p {
                        assert(!edge_lt(before[p as int], e));
                        if b - 1 > p {
                            assert(edge_lt(before[p as int], before[b - 1]));
                        }
                    } else {
                        assert(edge_lt(before[a - 1], before[b - 1]));
                    }
                }
            }
        }
        proof {
            assert forall|x: (usize, usize)| r@.contains(x) <==> edges@.take(i + 1).contains(x) by {
                let t1 = edges@.take(i + 1);
                let t0 = edges@.take(i as int);
                assert(t1 =~= t0.push(e));
                if r@.contains(x) {
                    let k = choose|k: int| 0 <= k < r@.len() && r@[k] == x;
                    if r@.len() == before.len() {
                        assert(before.contains(x));
                    } else if k < p {
                        assert(before[k] == x);
                        assert(before.contains(x));
                    } else if k > p {
                        assert(before[k - 1] == x);
                        assert(before.contains(x));
                    } else {
                        assert(t1[i as int] == x);
                    }
                    if before.contains(x) {
                        let u = choose|u: int| 0 <= u < t0.len() && t0[u] == x;
                        assert(t1[u] == x);
                    }
                }
                if t1.contains(x) {
                    let u = choose|u: int| 0 <= u < t1.len() && t1[u] == x;
                    if u < i {
                        assert(t0[u] == x);
                        assert(before.contains(x));
                        let k = choose|k: int| 0 <= k < before.len() && before[k] == x;
                        if r@.len() == before.len() {
                            assert(r@[k] == x);
                        } else if k < p {
                            assert(r@[k] == x);
                        } else {
                            assert(r@[k + 1] == x);
                        }
                    } else {
                        assert(x == e);
                        assert(r@[p as int] == e);
                    }
                }
            }
        }
        i += 1;
    }
    proof {
        assert(edges@.take(edges@.len() as int) =~= edges@);
    }
    r
}
} // verus!
