//! Stable sorting of positions under a strict weak order.
//!
//! The items themselves stay where they are: a sort computes the order of
//! their positions `0..n`, comparing two positions with a caller's
//! comparison that decides a strict weak order `rel`.  Positions that the
//! order cannot tell apart keep their relative order.
use vstd::prelude::*;

verus! {

/// `rel` is a strict weak order on the positions below `n`.
pub open spec fn strict_weak(rel: spec_fn(int, int) -> bool, n: int) -> bool {
    &&& forall|a: int| 0 <= a < n ==> !#[trigger] rel(a, a)
    &&& forall|a: int, b: int, c: int|
        0 <= a < n && 0 <= b < n && 0 <= c < n && #[trigger] rel(a, b) && #[trigger] rel(b, c)
            ==> rel(a, c)
    &&& forall|a: int, b: int, c: int|
        0 <= a < n && 0 <= b < n && 0 <= c < n && #[trigger] rel(a, c) ==> #[trigger] rel(a, b)
            || #[trigger] rel(b, c)
}

/// `p` lists each position below `n` exactly once.
pub open spec fn is_perm(p: Seq<usize>, n: int) -> bool {
    &&& p.len() == n
    &&& p.no_duplicates()
    &&& forall|x: int| 0 <= x < p.len() ==> #[trigger] p[x] < n
}

/// No position is placed after one it must precede, and positions the
/// order cannot tell apart keep their original order.
pub open spec fn stably_sorted(p: Seq<usize>, rel: spec_fn(int, int) -> bool) -> bool {
    forall|x: int, y: int|
        0 <= x < y < p.len() ==> !rel(#[trigger] p[y] as int, #[trigger] p[x] as int) && (!rel(
            p[x] as int,
            p[y] as int,
        ) ==> p[x] < p[y])
}

/// A permutation of `0..n` contains every position below `n`.
pub proof fn lemma_perm_covers(p: Seq<usize>, n: int, v: int)
    requires
        is_perm(p, n),
        0 <= v < n,
        n <= usize::MAX + 1,
    ensures
        exists|x: int| 0 <= x < n && #[trigger] p[x] == v,
    decreases n,
{
    if !(exists|x: int| 0 <= x < n && #[trigger] p[x] == v) {
        // the values of `p` would then fit in `n - 1` slots
        let below = Set::new(|e: usize| e < n && e != v);
        assert forall|e: usize| #[trigger] p.to_set().contains(e) implies below.contains(e) by {
            let x = choose|x: int| 0 <= x < p.len() && p[x] == e;
        }
        lemma_usize_range_len(n, v);
        p.unique_seq_to_set();
        vstd::set_lib::lemma_len_subset(p.to_set(), below);
    }
}

/// The positions below `n` other than `v`, as a set of `usize`.
proof fn lemma_usize_range_len(n: int, v: int)
    requires
        0 <= v < n,
        n <= usize::MAX + 1,
    ensures
        Set::new(|e: usize| e < n && e != v).finite(),
        Set::new(|e: usize| e < n && e != v).len() == n - 1,
    decreases n,
{
    let s = Set::new(|e: usize| e < n && e != v);
    if n == 1 {
        assert(s =~= Set::empty());
    } else if v == n - 1 {
        lemma_usize_below(n - 1);
        assert(s =~= Set::new(|e: usize| e < n - 1));
    } else {
        lemma_usize_range_len(n - 1, v);
        let t = Set::new(|e: usize| e < n - 1 && e != v);
        assert(s =~= t.insert((n - 1) as usize));
    }
}

proof fn lemma_usize_below(n: int)
    requires
        0 <= n,
        n <= usize::MAX + 1,
    ensures
        Set::new(|e: usize| e < n).finite(),
        Set::new(|e: usize| e < n).len() == n,
    decreases n,
{
    let s = Set::new(|e: usize| e < n);
    if n == 0 {
        assert(s =~= Set::empty());
    } else {
        lemma_usize_below(n - 1);
        assert(s =~= Set::new(|e: usize| e < n - 1).insert((n - 1) as usize));
    }
}

/// Two stable sorts of the same positions under the same order agree.
pub proof fn lemma_stable_sort_unique(p: Seq<usize>, q: Seq<usize>, n: int, rel: spec_fn(int, int) -> bool)
    requires
        strict_weak(rel, n),
        is_perm(p, n),
        is_perm(q, n),
        stably_sorted(p, rel),
        stably_sorted(q, rel),
        n <= usize::MAX + 1,
    ensures
        p == q,
    decreases n,
{
    // the element before which nothing else must come, and that is the
    // lowest among those, leads both sequences
    if n > 0 {
        assert forall|x: int| 0 <= x < n implies p[x] == q[x] by {
            lemma_sorted_prefix_agree(p, q, n, rel, x);
        }
        assert(p =~= q);
    }
}

/// By induction on `x`: the first `x + 1` entries of two stable sorts agree.
proof fn lemma_sorted_prefix_agree(p: Seq<usize>, q: Seq<usize>, n: int, rel: spec_fn(int, int) -> bool, x: int)
    requires
        strict_weak(rel, n),
        is_perm(p, n),
        is_perm(q, n),
        stably_sorted(p, rel),
        stably_sorted(q, rel),
        0 <= x < n,
        n <= usize::MAX + 1,
    ensures
        forall|y: int| 0 <= y <= x ==> p[y] == q[y],
    decreases x,
{
    if x > 0 {
        lemma_sorted_prefix_agree(p, q, n, rel, x - 1);
    }
    if p[x] != q[x] {
        // p[x] stands in q at some later place y, q[x] in p at some later place z
        lemma_perm_covers(q, n, p[x] as int);
        let y = choose|y: int| 0 <= y < n && #[trigger] q[y] == p[x];
        lemma_perm_covers(p, n, q[x] as int);
        let z = choose|z: int| 0 <= z < n && #[trigger] p[z] == q[x];
        if y < x {
            assert(p[y] == q[y]);
            assert(p[y] == p[x]);
        }
        if z < x {
            assert(p[z] == q[z]);
            assert(q[z] == q[x]);
        }
        assert(y > x && z > x);
        let a = p[x] as int;
        let b = q[x] as int;
        // in p, a comes before b; in q, b comes before a
        assert(!rel(b, a));
        assert(!rel(a, b));
        assert(a < b);
        assert(b < a);
    }
}

/// The positions `0..n` in a stable order under `rel`, which `lt` decides.
pub fn stable_order<F: Fn(usize, usize) -> bool>(
    n: usize,
    lt: &F,
    Ghost(rel): Ghost<spec_fn(int, int) -> bool>,
) -> (p: Vec<usize>)
    requires
        strict_weak(rel, n as int),
        forall|a: usize, b: usize| a < n && b < n ==> #[trigger] lt.requires((a, b)),
        forall|a: usize, b: usize, r: bool| a < n && b < n && #[trigger] lt.ensures((a, b), r) ==> r == rel(
            a as int,
            b as int,
        ),
    ensures
        is_perm(p@, n as int),
        stably_sorted(p@, rel),
{
    let mut p: Vec<usize> = Vec::new();
    let mut i: usize = 0;
    while i < n
        invariant
            i <= n,
            strict_weak(rel, n as int),
            forall|a: usize, b: usize| a < n && b < n ==> #[trigger] lt.requires((a, b)),
            forall|a: usize, b: usize, r: bool|
                a < n && b < n && #[trigger] lt.ensures((a, b), r) ==> r == rel(a as int, b as int),
            is_perm(p@, i as int),
            stably_sorted(p@, rel),
        decreases n - i,
    {
        let mut k: usize = p.len();
        while k > 0 && lt(i, p[k - 1])
            invariant
                k <= p.len(),
                i < n,
                p.len() == i,
                forall|x: int| 0 <= x < p.len() ==> #[trigger] p@[x] < i,
                forall|a: usize, b: usize| a < n && b < n ==> #[trigger] lt.requires((a, b)),
                forall|a: usize, b: usize, r: bool|
                    a < n && b < n && #[trigger] lt.ensures((a, b), r) ==> r == rel(a as int, b as int),
                forall|x: int| k <= x < p.len() ==> rel(i as int, #[trigger] p@[x] as int),
            decreases k,
        {
            k -= 1;
        }
        let ghost old_p = p@;
        proof {
            // everything before k precedes i or ties with it
            assert forall|x: int| 0 <= x < k implies !rel(i as int, #[trigger] old_p[x] as int) by {
                if rel(i as int, old_p[x] as int) {
                    let w = old_p[k - 1] as int;
                    assert(!rel(i as int, w));
                    assert(rel(i as int, w) || rel(w, old_p[x] as int));
                    assert(!rel(old_p[k - 1] as int, old_p[x] as int));
                }
            }
        }
        p.insert(k, i);
        proof {
            assert forall|x: int, y: int| 0 <= x < y < p@.len() implies !rel(
                #[trigger] p@[y] as int,
                #[trigger] p@[x] as int,
            ) && (!rel(p@[x] as int, p@[y] as int) ==> p@[x] < p@[y]) by {
                if y < k {
                    assert(p@[x] == old_p[x] && p@[y] == old_p[y]);
                } else if y == k {
                    assert(p@[x] == old_p[x]);
                } else if x < k {
                    assert(p@[x] == old_p[x] && p@[y] == old_p[y - 1]);
                    assert(rel(i as int, old_p[y - 1] as int));
                    if rel(old_p[y - 1] as int, old_p[x] as int) {
                        assert(!rel(old_p[y - 1] as int, old_p[x] as int));
                    }
                } else if x == k {
                    assert(p@[y] == old_p[y - 1]);
                    assert(rel(i as int, old_p[y - 1] as int));
                    if rel(old_p[y - 1] as int, i as int) {
                        assert(rel(i as int, i as int));
                    }
                } else {
                    assert(p@[x] == old_p[x - 1] && p@[y] == old_p[y - 1]);
                }
            }
            assert forall|x: int, y: int| 0 <= x < y < p@.len() implies p@[x] != p@[y] by {
                if x < k && y > k {
                    assert(p@[x] == old_p[x] && p@[y] == old_p[y - 1]);
                } else if x > k {
                    assert(p@[x] == old_p[x - 1] && p@[y] == old_p[y - 1]);
                } else if y < k {
                    assert(p@[x] == old_p[x] && p@[y] == old_p[y]);
                } else if y == k {
                    assert(p@[x] == old_p[x]);
                } else {
                    assert(p@[y] == old_p[y - 1]);
                }
            }
            assert forall|x: int| 0 <= x < p@.len() implies #[trigger] p@[x] < i + 1 by {
                if x < k {
                    assert(p@[x] == old_p[x]);
                } else if x > k {
                    assert(p@[x] == old_p[x - 1]);
                }
            }
        }
        i += 1;
    }
    p
}

/// `r` holds the items of `s` stably sorted by `rel`.
pub open spec fn arranged<T>(r: Seq<T>, s: Seq<T>, rel: spec_fn(int, int) -> bool) -> bool {
    exists|p: Seq<usize>|
        #[trigger] is_perm(p, s.len() as int) && stably_sorted(p, rel) && r.len() == s.len() && forall|x: int|
            0 <= x < s.len() ==> #[trigger] r[x] == s[p[x] as int]
}

/// The items at the positions, in the positions' order.
pub fn gather<T: Copy>(v: &Vec<T>, p: &Vec<usize>) -> (r: Vec<T>)
    requires
        forall|x: int| 0 <= x < p@.len() ==> #[trigger] p@[x] < v@.len(),
    ensures
        r@.len() == p@.len(),
        forall|x: int| 0 <= x < p@.len() ==> #[trigger] r@[x] == v@[p@[x] as int],
{
    let mut r: Vec<T> = Vec::new();
    let mut x: usize = 0;
    while x < p.len()
        invariant
            x <= p.len(),
            forall|y: int| 0 <= y < p@.len() ==> #[trigger] p@[y] < v@.len(),
            r@.len() == x,
            forall|y: int| 0 <= y < x ==> #[trigger] r@[y] == v@[p@[y] as int],
        decreases p.len() - x,
    {
        r.push(v[p[x]]);
        x += 1;
    }
    r
}

/// A relation that agrees with a strict weak order on the positions below
/// `n` is one too.
pub proof fn lemma_strict_weak_agree(r1: spec_fn(int, int) -> bool, r2: spec_fn(int, int) -> bool, n: int)
    requires
        strict_weak(r1, n),
        forall|a: int, b: int| 0 <= a < n && 0 <= b < n ==> #[trigger] r2(a, b) == r1(a, b),
    ensures
        strict_weak(r2, n),
{
    assert forall|a: int| 0 <= a < n implies !#[trigger] r2(a, a) by {
        assert(!r1(a, a));
    }
    assert forall|a: int, b: int, c: int|
        0 <= a < n && 0 <= b < n && 0 <= c < n && #[trigger] r2(a, b) && #[trigger] r2(b, c) implies r2(a, c) by {
        assert(r1(a, b) && r1(b, c));
    }
    assert forall|a: int, b: int, c: int|
        0 <= a < n && 0 <= b < n && 0 <= c < n && #[trigger] r2(a, c) implies #[trigger] r2(a, b) || #[trigger] r2(b, c) by {
        assert(r1(a, c));
        assert(r1(a, b) || r1(b, c));
    }
}

} // verus!
