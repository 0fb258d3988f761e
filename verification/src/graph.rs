//! Directed graphs over node indices and Kahn's topological ordering.
//!
//! A graph is an adjacency list `g`: node `i` has an edge to `g[i][k]` for
//! every `k`.  Parallel edges are allowed.  A graph is acyclic when some
//! rank function strictly increases along every edge.
use vstd::prelude::*;
use vstd::set_lib::*;

verus! {

/// Every edge ends at a node of the graph.
pub open spec fn wf(g: Seq<Seq<usize>>) -> bool {
    forall|i: int, k: int| 0 <= i < g.len() && 0 <= k < g[i].len() ==> #[trigger] g[i][k] < g.len()
}

/// There is an edge from `i` to `j`.
pub open spec fn edge(g: Seq<Seq<usize>>, i: int, j: int) -> bool {
    0 <= i < g.len() && exists|k: int| 0 <= k < g[i].len() && g[i][k] == j
}

/// `f` strictly increases along every edge.
pub open spec fn is_rank(g: Seq<Seq<usize>>, f: spec_fn(int) -> nat) -> bool {
    forall|i: int, j: int| #[trigger] edge(g, i, j) ==> f(i) < f(j)
}

/// The graph has no directed cycle.
pub open spec fn acyclic(g: Seq<Seq<usize>>) -> bool {
    exists|f: spec_fn(int) -> nat| is_rank(g, f)
}

/// The adjacency model of an executable adjacency list.
pub open spec fn model(g: &Vec<Vec<usize>>) -> Seq<Seq<usize>> {
    g@.map_values(|v: Vec<usize>| v@)
}

/// Number of occurrences of `j` in `s`.
pub open spec fn occ(s: Seq<usize>, j: int) -> nat
    decreases s.len(),
{
    if s.len() == 0 {
        0
    } else {
        (if s[0] == j {
            1nat
        } else {
            0nat
        }) + occ(s.drop_first(), j)
    }
}

/// Edges into `j` from the nodes below `m` that are not yet `done`.
pub open spec fn cnt(g: Seq<Seq<usize>>, done: Seq<bool>, j: int, m: int) -> nat
    decreases m,
{
    if m <= 0 {
        0
    } else {
        cnt(g, done, j, m - 1) + if done[m - 1] {
            0nat
        } else {
            occ(g[m - 1], j)
        }
    }
}

/// No node has two edges to the same node.
pub open spec fn simple(g: Seq<Seq<usize>>) -> bool {
    forall|i: int| 0 <= i < g.len() ==> #[trigger] g[i].no_duplicates()
}

pub proof fn lemma_occ_unique(s: Seq<usize>, j: int)
    requires
        s.no_duplicates(),
    ensures
        occ(s, j) <= 1,
    decreases s.len(),
{
    if s.len() > 0 {
        lemma_occ_unique(s.drop_first(), j);
        if s[0] == j {
            lemma_occ_pos(s.drop_first(), j);
            if occ(s.drop_first(), j) > 0 {
                let k = choose|k: int| 0 <= k < s.drop_first().len() && s.drop_first()[k] == j;
                assert(s[k + 1] == s[0]);
            }
        }
    }
}

pub proof fn lemma_cnt_simple(g: Seq<Seq<usize>>, done: Seq<bool>, j: int, m: int)
    requires
        simple(g),
        m <= g.len(),
    ensures
        cnt(g, done, j, m) <= if m < 0 { 0 } else { m },
    decreases m,
{
    if m > 0 {
        lemma_cnt_simple(g, done, j, m - 1);
        lemma_occ_unique(g[m - 1], j);
    }
}

/// Number of edges of the nodes below `m`.
pub open spec fn total(g: Seq<Seq<usize>>, m: int) -> nat
    decreases m,
{
    if m <= 0 {
        0
    } else {
        total(g, m - 1) + g[m - 1].len()
    }
}

/// Number of edges of the graph.
pub open spec fn edge_count(g: Seq<Seq<usize>>) -> nat {
    total(g, g.len() as int)
}

pub proof fn lemma_occ_push(s: Seq<usize>, x: usize, j: int)
    ensures
        occ(s.push(x), j) == occ(s, j) + if x == j {
            1nat
        } else {
            0nat
        },
    decreases s.len(),
{
    if s.len() == 0 {
        assert(s.push(x).drop_first() =~= s);
    } else {
        assert(s.push(x).drop_first() =~= s.drop_first().push(x));
        lemma_occ_push(s.drop_first(), x, j);
    }
}

pub proof fn lemma_occ_bound(s: Seq<usize>, j: int)
    ensures
        occ(s, j) <= s.len(),
    decreases s.len(),
{
    if s.len() > 0 {
        lemma_occ_bound(s.drop_first(), j);
    }
}

pub proof fn lemma_occ_pos(s: Seq<usize>, j: int)
    ensures
        occ(s, j) > 0 <==> exists|k: int| 0 <= k < s.len() && s[k] == j,
    decreases s.len(),
{
    if s.len() > 0 {
        lemma_occ_pos(s.drop_first(), j);
        if occ(s.drop_first(), j) > 0 {
            let k = choose|k: int| 0 <= k < s.drop_first().len() && s.drop_first()[k] == j;
            assert(s[k + 1] == j);
        }
        if exists|k: int| 0 <= k < s.len() && s[k] == j {
            let k = choose|k: int| 0 <= k < s.len() && s[k] == j;
            if k > 0 {
                assert(s.drop_first()[k - 1] == j);
            }
        }
    }
}

pub proof fn lemma_cnt_bound(g: Seq<Seq<usize>>, done: Seq<bool>, j: int, m: int)
    ensures
        cnt(g, done, j, m) <= total(g, m),
    decreases m,
{
    if m > 0 {
        lemma_cnt_bound(g, done, j, m - 1);
        lemma_occ_bound(g[m - 1], j);
    }
}

pub proof fn lemma_total_mono(g: Seq<Seq<usize>>, a: int, b: int)
    requires
        a <= b,
    ensures
        total(g, a) <= total(g, b),
    decreases b - a,
{
    if a < b {
        lemma_total_mono(g, a, b - 1);
    }
}

/// Marking node `u` done removes its edges from every count.
pub proof fn lemma_cnt_flip(g: Seq<Seq<usize>>, done: Seq<bool>, u: int, j: int, m: int)
    requires
        0 <= u < done.len(),
        !done[u],
        m <= done.len(),
    ensures
        cnt(g, done, j, m) == cnt(g, done.update(u, true), j, m) + if 0 <= u < m {
            occ(g[u], j)
        } else {
            0nat
        },
    decreases m,
{
    if m > 0 {
        lemma_cnt_flip(g, done, u, j, m - 1);
    }
}

/// A positive count has a witness edge from a node that is not done.
pub proof fn lemma_cnt_pos(g: Seq<Seq<usize>>, done: Seq<bool>, j: int, m: int)
    requires
        cnt(g, done, j, m) > 0,
        m <= g.len(),
    ensures
        exists|i: int| 0 <= i < m && !done[i] && edge(g, i, j),
    decreases m,
{
    if m > 0 {
        if cnt(g, done, j, m - 1) > 0 {
            lemma_cnt_pos(g, done, j, m - 1);
            let i = choose|i: int| 0 <= i < m - 1 && !done[i] && edge(g, i, j);
            assert(0 <= i < m && !done[i] && edge(g, i, j));
        } else {
            lemma_occ_pos(g[m - 1], j);
            assert(edge(g, m - 1, j));
        }
    }
}

/// A zero count means every edge into `j` starts at a done node.
pub proof fn lemma_cnt_zero(g: Seq<Seq<usize>>, done: Seq<bool>, j: int, m: int, i: int)
    requires
        cnt(g, done, j, m) == 0,
        0 <= i < m,
        edge(g, i, j),
        m <= g.len(),
    ensures
        done[i],
    decreases m,
{
    if i < m - 1 {
        lemma_cnt_zero(g, done, j, m - 1, i);
    } else {
        if !done[i] {
            lemma_occ_pos(g[i], j);
        }
    }
}

/// A nonempty set of nodes in which every node has a predecessor inside
/// the set rules out every rank function.
pub proof fn lemma_closed_set_cyclic(g: Seq<Seq<usize>>, r: Set<int>, j0: int)
    requires
        r.contains(j0),
        forall|j: int| r.contains(j) ==> exists|i: int| r.contains(i) && edge(g, i, j),
    ensures
        !acyclic(g),
{
    if acyclic(g) {
        let f = choose|f: spec_fn(int) -> nat| is_rank(g, f);
        lemma_rank_unbounded(g, r, f, (f(j0) + 1) as nat);
    }
}

proof fn lemma_rank_unbounded(g: Seq<Seq<usize>>, r: Set<int>, f: spec_fn(int) -> nat, t: nat)
    requires
        is_rank(g, f),
        forall|j: int| r.contains(j) ==> exists|i: int| r.contains(i) && edge(g, i, j),
    ensures
        forall|j: int| r.contains(j) ==> f(j) >= t,
    decreases t,
{
    if t > 0 {
        lemma_rank_unbounded(g, r, f, (t - 1) as nat);
        assert forall|j: int| r.contains(j) implies f(j) >= t by {
            let i = choose|i: int| r.contains(i) && edge(g, i, j);
            assert(f(i) < f(j));
        }
    }
}

/// A sequence of distinct nodes that puts every edge forward is a rank.
pub proof fn lemma_order_rank(g: Seq<Seq<usize>>, order: Seq<usize>, pos: Seq<int>)
    requires
        pos.len() == g.len(),
        forall|p: int| 0 <= p < order.len() ==> order[p] < g.len(),
        forall|p: int| 0 <= p < order.len() ==> #[trigger] pos[order[p] as int] == p,
        forall|i: int| 0 <= i < g.len() ==> 0 <= #[trigger] pos[i] < order.len() && order[pos[i]] == i,
        forall|i: int, j: int| #[trigger] edge(g, i, j) ==> 0 <= j < g.len() && pos[i] < pos[j],
    ensures
        acyclic(g),
{
    let f = |i: int| if 0 <= i < g.len() { pos[i] as nat } else { 0nat };
    assert forall|i: int, j: int| #[trigger] edge(g, i, j) implies f(i) < f(j) by {
        assert(0 <= i < g.len());
    }
    assert(is_rank(g, f));
}

/// Sums the edge counts; `None` when the sum does not fit in `usize`.
pub fn edge_total(g: &Vec<Vec<usize>>) -> (r: Option<usize>)
    ensures
        match r {
            Some(t) => t == edge_count(model(g)),
            None => edge_count(model(g)) > usize::MAX,
        },
{
    let ghost m = model(g);
    let mut t: usize = 0;
    let mut i: usize = 0;
    while i < g.len()
        invariant
            i <= g.len(),
            m == model(g),
            t == total(m, i as int),
        decreases g.len() - i,
    {
        let l = g[i].len();
        if t > usize::MAX - l {
            proof {
                lemma_total_mono(m, i + 1, m.len() as int);
            }
            return None;
        }
        t = t + l;
        i += 1;
    }
    Some(t)
}

/// Kahn's algorithm with a first-in first-out queue.  Returns the nodes in
/// the order they became free of unprocessed predecessors; every node is
/// returned exactly when the graph is acyclic.
pub fn kahn_order(g: &Vec<Vec<usize>>) -> (order: Vec<usize>)
    requires
        wf(model(g)),
        simple(model(g)),
    ensures
        order@.no_duplicates(),
        order.len() <= g.len(),
        forall|p: int| 0 <= p < order.len() ==> order[p] < g.len(),
        forall|p: int, i: int|
            0 <= p < order.len() && #[trigger] edge(model(g), i, order[p] as int) ==> exists|q: int|
                0 <= q < p && order[q] == i,
        (order.len() == g.len()) == acyclic(model(g)),
        order.len() == g.len() ==> forall|i: usize| i < g.len() ==> #[trigger] order@.contains(i),
{
    let ghost m = model(g);
    let n = g.len();
    let mut indeg: Vec<usize> = Vec::new();
    let mut i: usize = 0;
    while i < n
        invariant
            i <= n,
            indeg.len() == i,
            forall|j: int| 0 <= j < i ==> indeg[j] == 0,
        decreases n - i,
    {
        indeg.push(0);
        i += 1;
    }
    let ghost nodone = Seq::new(n as nat, |x: int| false);
    let mut i: usize = 0;
    while i < n
        invariant
            i <= n,
            n == g.len(),
            m == model(g),
            wf(m),
            simple(m),
            nodone.len() == n,
            forall|x: int| 0 <= x < n ==> !nodone[x],
            indeg.len() == n,
            forall|j: int| 0 <= j < n ==> indeg[j] == cnt(m, nodone, j, i as int),
        decreases n - i,
    {
        let row = &g[i];
        let mut k: usize = 0;
        proof {
            assert(row@ == m[i as int]);
            assert(m[i as int].take(0) =~= Seq::<usize>::empty());
        }
        while k < row.len()
            invariant
                i < n,
                k <= row.len(),
                n == g.len(),
                m == model(g),
                wf(m),
                simple(m),
                row@ == m[i as int],
                nodone.len() == n,
                forall|x: int| 0 <= x < n ==> !nodone[x],
                indeg.len() == n,
                forall|j: int|
                    0 <= j < n ==> indeg[j] == cnt(m, nodone, j, i as int) + occ(
                        m[i as int].take(k as int),
                        j,
                    ),
            decreases row.len() - k,
        {
            let v = row[k];
            proof {
                assert(m[i as int][k as int] == v);
                assert(m[i as int].take(k + 1) =~= m[i as int].take(k as int).push(v));
                assert forall|j: int| 0 <= j < n implies occ(m[i as int].take(k + 1), j) == occ(
                    m[i as int].take(k as int),
                    j,
                ) + if v == j {
                    1nat
                } else {
                    0nat
                } by {
                    lemma_occ_push(m[i as int].take(k as int), v, j);
                }
                assert(m[i as int].take(k + 1).no_duplicates()) by {
                    assert(m[i as int].no_duplicates());
                }
                lemma_occ_unique(m[i as int].take(k + 1), v as int);
                lemma_cnt_simple(m, nodone, v as int, i as int);
            }
            let d = indeg[v];
            indeg.set(v, d + 1);
            k += 1;
        }
        proof {
            assert(m[i as int].take(k as int) =~= m[i as int]);
        }
        i += 1;
    }
    // Queue of free nodes; `queue[..cursor]` are processed.
    let mut queue: Vec<usize> = Vec::new();
    let ghost mut pos: Seq<int> = Seq::new(n as nat, |x: int| -1);
    let mut i: usize = 0;
    while i < n
        invariant
            i <= n,
            n == g.len(),
            indeg.len() == n,
            m == model(g),
            forall|j: int| 0 <= j < n ==> indeg[j] == cnt(m, nodone, j, n as int),
            pos.len() == n,
            forall|p: int| 0 <= p < queue.len() ==> queue@[p] < i,
            forall|p: int| 0 <= p < queue.len() ==> #[trigger] pos[queue@[p] as int] == p,
            forall|x: int| 0 <= x < n ==> (#[trigger] pos[x] >= 0) == (x < i && indeg[x] == 0),
            forall|x: int| 0 <= x < n && pos[x] >= 0 ==> pos[x] < queue.len() && queue@[pos[x]] == x,
        decreases n - i,
    {
        if indeg[i] == 0 {
            proof {
                pos = pos.update(i as int, queue.len() as int);
            }
            queue.push(i);
        }
        i += 1;
    }
    let mut done: Vec<bool> = Vec::new();
    let mut i: usize = 0;
    while i < n
        invariant
            i <= n,
            n == g.len(),
            nodone.len() == n,
            forall|x: int| 0 <= x < n ==> !nodone[x],
            done.len() == i,
            forall|j: int| 0 <= j < i ==> !done[j],
        decreases n - i,
    {
        done.push(false);
        i += 1;
    }
    proof {
        assert(done@ =~= nodone);
        lemma_unique_positions(queue@, pos, n as int);
        lemma_len_bound(queue@, n as int);
        assert forall|p: int, i: int|
            0 <= p < queue.len() && #[trigger] edge(m, i, queue[p] as int) implies exists|q: int|
            0 <= q < p && queue[q] == i by {
            let j = queue@[p] as int;
            assert(pos[j] == p);
            lemma_cnt_zero(m, nodone, j, n as int, i);
        }
    }
    let mut cursor: usize = 0;
    while cursor < queue.len()
        invariant
            cursor <= queue.len() <= n,
            n == g.len(),
            m == model(g),
            wf(m),
            indeg.len() == n,
            done.len() == n,
            pos.len() == n,
            queue@.no_duplicates(),
            forall|p: int| 0 <= p < queue.len() ==> queue@[p] < n,
            forall|p: int| 0 <= p < queue.len() ==> #[trigger] pos[queue@[p] as int] == p,
            forall|x: int| 0 <= x < n ==> (#[trigger] pos[x] >= 0) == (indeg[x] == 0),
            forall|x: int| 0 <= x < n && pos[x] >= 0 ==> pos[x] < queue.len() && queue@[pos[x]] == x,
            forall|x: int| 0 <= x < n ==> done[x] == (pos[x] >= 0 && pos[x] < cursor),
            forall|j: int| 0 <= j < n ==> indeg[j] == cnt(m, done@, j, n as int),
            forall|p: int, i: int|
                0 <= p < queue.len() && #[trigger] edge(m, i, queue[p] as int) ==> exists|q: int|
                    0 <= q < p && queue[q] == i,
        decreases n - cursor,
    {
        let u = queue[cursor];
        proof {
            assert(pos[queue@[cursor as int] as int] == cursor);
            assert(!done[u as int]);
            lemma_unique_positions(queue@, pos, n as int);
        }
        let ghost before = done@;
        done.set(u, true);
        cursor += 1;
        proof {
            assert forall|j: int| 0 <= j < n implies indeg[j] == cnt(m, done@, j, n as int) + occ(
                m[u as int].skip(0),
                j,
            ) by {
                lemma_cnt_flip(m, before, u as int, j, n as int);
                assert(m[u as int].skip(0) =~= m[u as int]);
            }
        }
        let row = &g[u];
        let mut k: usize = 0;
        while k < row.len()
            invariant
                cursor <= queue.len() <= n,
                0 < cursor,
                u == queue[cursor - 1],
                u < n,
                k <= row.len(),
                n == g.len(),
                m == model(g),
                wf(m),
                row@ == m[u as int],
                indeg.len() == n,
                done.len() == n,
                pos.len() == n,
                done[u as int],
                queue@.no_duplicates(),
                forall|p: int| 0 <= p < queue.len() ==> queue@[p] < n,
            forall|p: int| 0 <= p < queue.len() ==> #[trigger] pos[queue@[p] as int] == p,
                forall|x: int| 0 <= x < n ==> (#[trigger] pos[x] >= 0) == (indeg[x] == 0),
                forall|x: int| 0 <= x < n && pos[x] >= 0 ==> pos[x] < queue.len() && queue@[pos[x]] == x,
                forall|x: int| 0 <= x < n ==> done[x] == (pos[x] >= 0 && pos[x] < cursor),
                forall|j: int|
                    0 <= j < n ==> indeg[j] == cnt(m, done@, j, n as int) + occ(
                        m[u as int].skip(k as int),
                        j,
                    ),
                forall|p: int, i: int|
                    0 <= p < queue.len() && #[trigger] edge(m, i, queue[p] as int) ==> exists|q: int|
                        0 <= q < p && queue[q] == i,
            decreases row.len() - k,
        {
            let v = row[k];
            proof {
                assert(m[u as int][k as int] == v);
                assert(m[u as int].skip(k as int).drop_first() =~= m[u as int].skip(k + 1));
                assert(m[u as int].skip(k as int)[0] == v);
                assert(indeg[v as int] > 0);
                assert(pos[v as int] < 0);
                assert forall|p: int| 0 <= p < queue.len() implies queue@[p] != v by {
                    assert(pos[queue@[p] as int] == p);
                }
            }
            let d = indeg[v];
            indeg.set(v, d - 1);
            if d == 1 {
                proof {
                    // every predecessor of `v` is done, so it sits before `cursor`
                    assert(indeg[v as int] == 0);
                    assert forall|i: int| #[trigger] edge(m, i, v as int) implies exists|q: int|
                        0 <= q < queue.len() && queue[q] == i by {
                        assert(cnt(m, done@, v as int, n as int) == 0);
                        lemma_cnt_zero(m, done@, v as int, n as int, i);
                        assert(0 <= i < n);
                        assert(queue[pos[i]] == i);
                    }
                    pos = pos.update(v as int, queue.len() as int);
                }
                let ghost oldq = queue@;
                queue.push(v);
                proof {
                    lemma_unique_positions(queue@, pos, n as int);
                    lemma_len_bound(queue@, n as int);
                    assert forall|p: int, i: int|
                        0 <= p < queue.len() && #[trigger] edge(m, i, queue[p] as int) implies exists|q: int|
                        0 <= q < p && queue[q] == i by {
                        if p == oldq.len() {
                            assert(queue[p] == v);
                            let q = choose|q: int| 0 <= q < oldq.len() && oldq[q] == i;
                            assert(queue[q] == i);
                        } else {
                            assert(queue[p] == oldq[p]);
                            assert(edge(m, i, oldq[p] as int));
                            let q = choose|q: int| 0 <= q < p && oldq[q] == i;
                            assert(queue[q] == i);
                        }
                    }
                }
            }
            k += 1;
        }
        proof {
            assert forall|j: int| 0 <= j < n implies occ(m[u as int].skip(k as int), j) == 0 by {
                assert(m[u as int].skip(k as int).len() == 0);
            }
        }
    }
    proof {
        lemma_unique_positions(queue@, pos, n as int);
        if queue.len() == n {
            assert forall|x: int| 0 <= x < n implies 0 <= #[trigger] pos[x] < queue.len()
                && queue[pos[x]] == x by {
                lemma_all_present(queue@, pos, n as int, x);
            }
            assert forall|i: int, j: int| #[trigger] edge(m, i, j) implies 0 <= j < m.len()
                && pos[i] < pos[j] by {
                let k = choose|k: int| 0 <= k < m[i].len() && m[i][k] == j;
                assert(m[i][k] < m.len());
                lemma_all_present(queue@, pos, n as int, j);
                let p = pos[j];
                assert(edge(m, i, queue[p] as int));
                let q = choose|q: int| 0 <= q < p && queue[q] == i;
                assert(pos[i] == q);
            }
            lemma_order_rank(m, queue@, pos);
            assert forall|i: usize| i < g.len() implies #[trigger] queue@.contains(i) by {
                lemma_all_present(queue@, pos, n as int, i as int);
            }
        } else {
            let j0 = lemma_missing(queue@, n as int);
            let r = Set::new(|x: int| 0 <= x < n && pos[x] < 0);
            assert forall|j: int| r.contains(j) implies exists|i: int| r.contains(i) && edge(m, i, j) by {
                assert(indeg[j] > 0);
                lemma_cnt_pos(m, done@, j, n as int);
                let i = choose|i: int| 0 <= i < n && !done@[i] && edge(m, i, j);
                assert(r.contains(i));
            }
            assert(pos[j0] < 0) by {
                if pos[j0] >= 0 {
                    assert(queue@.contains(j0 as usize));
                }
            }
            lemma_closed_set_cyclic(m, r, j0);
        }
    }
    queue
}

proof fn lemma_unique_positions(q: Seq<usize>, pos: Seq<int>, n: int)
    requires
        pos.len() == n,
        forall|p: int| 0 <= p < q.len() ==> q[p] < n,
        forall|p: int| 0 <= p < q.len() ==> #[trigger] pos[q[p] as int] == p,
    ensures
        q.no_duplicates(),
{
    assert forall|a: int, b: int| 0 <= a < q.len() && 0 <= b < q.len() && a != b implies q[a]
        != q[b] by {
        assert(pos[q[a] as int] == a);
        assert(pos[q[b] as int] == b);
    }
}

/// The nodes of a sequence, as a set of integers.
spec fn node_set(q: Seq<usize>) -> Set<int> {
    q.map_values(|v: usize| v as int).to_set()
}

proof fn lemma_node_set(q: Seq<usize>, n: int)
    requires
        0 <= n <= usize::MAX,
        q.no_duplicates(),
        forall|p: int| 0 <= p < q.len() ==> q[p] < n,
    ensures
        node_set(q).finite(),
        node_set(q).len() == q.len(),
        node_set(q).subset_of(set_int_range(0, n)),
        node_set(q).len() <= n,
        forall|x: usize| node_set(q).contains(x as int) <==> q.contains(x),
{
    let qs = q.map_values(|v: usize| v as int);
    assert(qs.no_duplicates()) by {
        assert forall|a: int, b: int| 0 <= a < qs.len() && 0 <= b < qs.len() && a != b implies qs[a]
            != qs[b] by {
            assert(q[a] != q[b]);
        }
    }
    qs.unique_seq_to_set();
    lemma_int_range(0, n);
    assert forall|x: usize| node_set(q).contains(x as int) <==> q.contains(x) by {
        if node_set(q).contains(x as int) {
            let p = choose|p: int| 0 <= p < qs.len() && qs[p] == x as int;
            assert(q[p] == x);
        }
        if q.contains(x) {
            let p = choose|p: int| 0 <= p < q.len() && q[p] == x;
            assert(qs[p] == x as int);
        }
    }
    assert(node_set(q).subset_of(set_int_range(0, n))) by {
        assert forall|y: int| node_set(q).contains(y) implies set_int_range(0, n).contains(y) by {
            let p = choose|p: int| 0 <= p < qs.len() && qs[p] == y;
            assert(q[p] < n);
        }
    }
    lemma_len_subset(node_set(q), set_int_range(0, n));
}

/// A duplicate-free sequence of nodes below `n` has at most `n` entries.
proof fn lemma_len_bound(q: Seq<usize>, n: int)
    requires
        0 <= n <= usize::MAX,
        q.no_duplicates(),
        forall|p: int| 0 <= p < q.len() ==> q[p] < n,
    ensures
        q.len() <= n,
{
    lemma_node_set(q, n);
}

/// A duplicate-free sequence of `n` nodes below `n` holds every node.
proof fn lemma_all_present(q: Seq<usize>, pos: Seq<int>, n: int, x: int)
    requires
        0 <= x < n <= usize::MAX,
        q.len() == n,
        pos.len() == n,
        q.no_duplicates(),
        forall|p: int| 0 <= p < q.len() ==> q[p] < n,
        forall|p: int| 0 <= p < q.len() ==> #[trigger] pos[q[p] as int] == p,
    ensures
        0 <= pos[x] < q.len(),
        q[pos[x]] == x,
{
    lemma_node_set(q, n);
    lemma_int_range(0, n);
    lemma_subset_equality(node_set(q), set_int_range(0, n));
    assert(set_int_range(0, n).contains(x));
    assert(node_set(q).contains((x as usize) as int));
    assert(q.contains(x as usize));
    let p = choose|p: int| 0 <= p < q.len() && q[p] == x as usize;
    assert(pos[q[p] as int] == p);
}

/// A duplicate-free sequence shorter than `n` of nodes below `n` misses one.
proof fn lemma_missing(q: Seq<usize>, n: int) -> (x: int)
    requires
        n <= usize::MAX,
        q.len() < n,
        q.no_duplicates(),
        forall|p: int| 0 <= p < q.len() ==> q[p] < n,
    ensures
        0 <= x < n,
        !q.contains(x as usize),
{
    lemma_node_set(q, n);
    lemma_int_range(0, n);
    if set_int_range(0, n).subset_of(node_set(q)) {
        lemma_len_subset(set_int_range(0, n), node_set(q));
    }
    let x = choose|x: int| set_int_range(0, n).contains(x) && !node_set(q).contains(x);
    assert(!q.contains(x as usize)) by {
        assert(node_set(q).contains((x as usize) as int) <==> q.contains(x as usize));
    }
    x
}

} // verus!
