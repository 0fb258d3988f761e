//! Kahn's topological ordering with a last-in first-out stack of ready
//! nodes, over a graph that may hold parallel edges: a node is ready when
//! every edge into it has been taken, and the most recently readied node is
//! taken next.
use vstd::prelude::*;
use crate::graph::{
    acyclic, cnt, edge, edge_count, lemma_cnt_bound, lemma_cnt_flip, lemma_cnt_pos, lemma_cnt_zero,
    lemma_closed_set_cyclic, lemma_occ_bound, lemma_occ_push, lemma_order_rank,
    lemma_total_mono, model, occ, total, wf,
};

verus! {

/// The number of edges into `j`.
pub open spec fn indeg0(g: Seq<Seq<usize>>, j: int) -> int {
    cnt(g, Seq::new(g.len(), |x: int| false), j, g.len() as int) as int
}

/// The nodes below `m` without incoming edges, in increasing order.
pub open spec fn ready0(g: Seq<Seq<usize>>, m: int) -> Seq<usize>
    decreases m,
{
    if m <= 0 {
        Seq::empty()
    } else if indeg0(g, m - 1) == 0 {
        ready0(g, m - 1).push((m - 1) as usize)
    } else {
        ready0(g, m - 1)
    }
}

/// Takes the first `k` edges out of `u`: each lowers its target's count of
/// edges still to take, and a target whose count reaches zero is pushed.
pub open spec fn relax(g: Seq<Seq<usize>>, u: int, k: int, stack: Seq<usize>, d: Seq<int>) -> (Seq<usize>, Seq<int>)
    decreases k,
{
    if k <= 0 {
        (stack, d)
    } else {
        let t = relax(g, u, k - 1, stack, d);
        let v = g[u][k - 1] as int;
        let d2 = t.1.update(v, t.1[v] - 1);
        if d2[v] == 0 {
            (t.0.push(v as usize), d2)
        } else {
            (t.0, d2)
        }
    }
}

/// Pops the stack `fuel` times at most: each popped node is appended to the
/// order and its edges are taken.
pub open spec fn stack_run(g: Seq<Seq<usize>>, stack: Seq<usize>, d: Seq<int>, order: Seq<usize>, fuel: nat) -> Seq<usize>
    decreases fuel,
{
    if fuel == 0 || stack.len() == 0 {
        order
    } else {
        let u = stack.last();
        let t = relax(g, u as int, g[u as int].len() as int, stack.drop_last(), d);
        stack_run(g, t.0, t.1, order.push(u), (fuel - 1) as nat)
    }
}

/// The order in which the stack-driven Kahn walk takes the nodes, starting
/// from the nodes without incoming edges pushed in increasing order.
pub open spec fn stack_order(g: Seq<Seq<usize>>) -> Seq<usize> {
    stack_run(g, ready0(g, g.len() as int), Seq::new(g.len(), |j: int| indeg0(g, j)), Seq::empty(), g.len())
}

pub open spec fn ints(s: Seq<usize>) -> Seq<int> {
    s.map_values(|x: usize| x as int)
}

proof fn lemma_seen_bound(s: Seq<usize>, n: int)
    requires
        0 <= n <= usize::MAX,
        s.no_duplicates(),
        forall|p: int| 0 <= p < s.len() ==> s[p] < n,
    ensures
        s.len() <= n,
{
    let xs = s.map_values(|v: usize| v as int);
    assert(xs.no_duplicates()) by {
        assert forall|a: int, b: int| 0 <= a < xs.len() && 0 <= b < xs.len() && a != b implies xs[a] != xs[b] by {
            assert(s[a] != s[b]);
        }
    }
    xs.unique_seq_to_set();
    vstd::set_lib::lemma_int_range(0, n);
    assert(xs.to_set().subset_of(vstd::set_lib::set_int_range(0, n))) by {
        assert forall|y: int| xs.to_set().contains(y) implies vstd::set_lib::set_int_range(0, n).contains(y) by {
            let p = choose|p: int| 0 <= p < xs.len() && xs[p] == y;
            assert(s[p] < n);
        }
    }
    vstd::set_lib::lemma_len_subset(xs.to_set(), vstd::set_lib::set_int_range(0, n));
}

proof fn lemma_all_in(order: Seq<usize>, pos: Seq<int>, n: int, x: int)
    requires
        0 <= x < n <= usize::MAX,
        order.len() == n,
        pos.len() == n,
        order.no_duplicates(),
        forall|p: int| 0 <= p < order.len() ==> order[p] < n,
        forall|p: int| 0 <= p < order.len() ==> #[trigger] pos[order[p] as int] == p,
        forall|y: int| 0 <= y < n && pos[y] >= 0 ==> pos[y] < order.len() && order[pos[y]] == y,
    ensures
        0 <= pos[x] < order.len(),
        order[pos[x]] == x,
{
    if pos[x] < 0 {
        let s = order.push(x as usize);
        assert(s.no_duplicates()) by {
            assert forall|a: int, b: int| 0 <= a < s.len() && 0 <= b < s.len() && a != b implies s[a] != s[b] by {
                if a == n {
                    assert(pos[s[b] as int] == b);
                } else if b == n {
                    assert(pos[s[a] as int] == a);
                }
            }
        }
        lemma_seen_bound(s, n);
    }
}

/// Kahn's algorithm with a stack: the nodes in the order of `stack_order`;
/// every edge leads from an earlier node to a later one, and every node is
/// taken exactly when the graph is acyclic.
pub fn kahn_stack(g: &Vec<Vec<usize>>) -> (order: Vec<usize>)
    requires
        wf(model(g)),
        edge_count(model(g)) <= usize::MAX,
    ensures
        order@ == stack_order(model(g)),
        order@.no_duplicates(),
        order.len() <= g.len(),
        forall|p: int| 0 <= p < order.len() ==> order[p] < g.len(),
        forall|p: int, i: int|
            0 <= p < order.len() && #[trigger] edge(model(g), i, order[p] as int) ==> exists|q: int|
                0 <= q < p && order[q] == i,
        (order.len() == g.len()) == acyclic(model(g)),
{
    let ghost m = model(g);
    let n = g.len();
    let mut indeg: Vec<usize> = Vec::new();
    let mut i: usize = 0;
    while i < n
        invariant
            i <= n,
            indeg.len() == i,
            forall|j: int| 0 <= j < i ==> indeg[j] == 0,
        decreases n - i,
    {
        indeg.push(0);
        i += 1;
    }
    let ghost nodone = Seq::new(n as nat, |x: int| false);
    proof {
        assert(nodone =~= Seq::new(m.len(), |x: int| false));
    }
    let mut i: usize = 0;
    while i < n
        invariant
            i <= n,
            n == g.len(),
            m == model(g),
            wf(m),
            edge_count(m) <= usize::MAX,
            nodone.len() == n,
            forall|x: int| 0 <= x < n ==> !nodone[x],
            indeg.len() == n,
            forall|j: int| 0 <= j < n ==> indeg[j] == cnt(m, nodone, j, i as int),
        decreases n - i,
    {
        let row = &g[i];
        let mut k: usize = 0;
        proof {
            assert(row@ == m[i as int]);
            assert(m[i as int].take(0) =~= Seq::<usize>::empty());
        }
        while k < row.len()
            invariant
                i < n,
                k <= row.len(),
                n == g.len(),
                m == model(g),
                wf(m),
                edge_count(m) <= usize::MAX,
                row@ == m[i as int],
                nodone.len() == n,
                forall|x: int| 0 <= x < n ==> !nodone[x],
                indeg.len() == n,
                forall|j: int|
                    0 <= j < n ==> indeg[j] == cnt(m, nodone, j, i as int) + occ(m[i as int].take(k as int), j),
            decreases row.len() - k,
        {
            let v = row[k];
            proof {
                assert(m[i as int][k as int] == v);
                assert(m[i as int].take(k + 1) =~= m[i as int].take(k as int).push(v));
                assert forall|j: int| 0 <= j < n implies occ(m[i as int].take(k + 1), j) == occ(
                    m[i as int].take(k as int),
                    j,
                ) + if v == j {
                    1nat
                } else {
                    0nat
                } by {
                    lemma_occ_push(m[i as int].take(k as int), v, j);
                }
                lemma_cnt_bound(m, nodone, v as int, i as int);
                lemma_occ_bound(m[i as int].take(k + 1), v as int);
                lemma_total_mono(m, i + 1, n as int);
                assert(total(m, i + 1) == total(m, i as int) + m[i as int].len());
            }
            let d = indeg[v];
            indeg.set(v, d + 1);
            k += 1;
        }
        proof {
            assert(m[i as int].take(k as int) =~= m[i as int]);
        }
        i += 1;
    }
    // the nodes without incoming edges, in increasing order
    let mut stack: Vec<usize> = Vec::new();
    let mut i: usize = 0;
    while i < n
        invariant
            i <= n,
            n == g.len(),
            m == model(g),
            nodone == Seq::new(m.len(), |x: int| false),
            indeg.len() == n,
            forall|j: int| 0 <= j < n ==> indeg[j] == cnt(m, nodone, j, n as int),
            stack@ == ready0(m, i as int),
            forall|p: int| 0 <= p < stack.len() ==> stack@[p] < i,
            stack@.no_duplicates(),
            forall|x: int| 0 <= x < n ==> (stack@.contains(x as usize) <==> (x < i && indeg[x] == 0)),
        decreases n - i,
    {
        let ghost s0 = stack@;
        if indeg[i] == 0 {
            stack.push(i);
            proof {
                assert forall|a: int, b: int| 0 <= a < stack.len() && 0 <= b < stack.len() && a != b implies stack@[a] != stack@[b] by {
                    if a == s0.len() {
                        assert(stack@[b] < i);
                    } else if b == s0.len() {
                        assert(stack@[a] < i);
                    }
                }
                assert forall|x: int| 0 <= x < n implies (stack@.contains(x as usize) <==> (x < i + 1 && indeg[x] == 0)) by {
                    if x == i {
                        assert(stack@[s0.len() as int] == x);
                    } else if stack@.contains(x as usize) {
                        let p = choose|p: int| 0 <= p < stack@.len() && stack@[p] == x as usize;
                        assert(s0[p] == x as usize);
                    } else if x < i && indeg[x] == 0 {
                        let p = choose|p: int| 0 <= p < s0.len() && s0[p] == x as usize;
                        assert(stack@[p] == x as usize);
                    }
                }
            }
        } else {
            proof {
                assert forall|x: int| 0 <= x < n implies (stack@.contains(x as usize) <==> (x < i + 1 && indeg[x] == 0)) by {
                    if stack@.contains(x as usize) {
                        let p = choose|p: int| 0 <= p < stack@.len() && stack@[p] == x as usize;
                        assert(stack@[p] < i);
                    }
                }
            }
        }
        i += 1;
    }
    let mut done: Vec<bool> = Vec::new();
    let mut i: usize = 0;
    while i < n
        invariant
            i <= n,
            n == g.len(),
            nodone.len() == n,
            forall|x: int| 0 <= x < n ==> !nodone[x],
            done.len() == i,
            forall|j: int| 0 <= j < i ==> !done[j],
        decreases n - i,
    {
        done.push(false);
        i += 1;
    }
    let mut order: Vec<usize> = Vec::new();
    let ghost mut pos: Seq<int> = Seq::new(n as nat, |x: int| -1);
    proof {
        assert(done@ =~= nodone);
        assert(ints(indeg@) =~= Seq::new(m.len(), |j: int| indeg0(m, j)));
        assert forall|p: int, i: int| 0 <= p < stack.len() && #[trigger] edge(m, i, stack@[p] as int) implies exists|q: int|
            0 <= q < order@.len() && order@[q] == i by {
            let j = stack@[p] as int;
            assert(stack@[p] < n);
            assert(stack@.contains(stack@[p]));
            assert(indeg[j] == 0);
            lemma_cnt_zero(m, nodone, j, n as int, i);
        }
        assert(order@ + stack@ =~= stack@);
    }
    while stack.len() > 0
        invariant
            n == g.len(),
            m == model(g),
            wf(m),
            indeg.len() == n,
            done.len() == n,
            pos.len() == n,
            (order@ + stack@).no_duplicates(),
            forall|p: int| 0 <= p < (order@ + stack@).len() ==> (order@ + stack@)[p] < n,
            forall|p: int| 0 <= p < order.len() ==> #[trigger] pos[order@[p] as int] == p,
            forall|x: int| 0 <= x < n && pos[x] >= 0 ==> pos[x] < order.len() && order@[pos[x]] == x,
            forall|x: int| 0 <= x < n ==> done[x] == (pos[x] >= 0),
            forall|x: int| 0 <= x < n ==> ((order@ + stack@).contains(x as usize) <==> indeg[x] == 0),
            forall|j: int| 0 <= j < n ==> indeg[j] == cnt(m, done@, j, n as int),
            forall|p: int, i: int|
                0 <= p < order.len() && #[trigger] edge(m, i, order@[p] as int) ==> exists|q: int|
                    0 <= q < p && order@[q] == i,
            forall|p: int, i: int|
                0 <= p < stack.len() && #[trigger] edge(m, i, stack@[p] as int) ==> exists|q: int|
                    0 <= q < order@.len() && order@[q] == i,
            order.len() <= n,
            stack_run(m, stack@, ints(indeg@), order@, (n - order.len()) as nat) == stack_order(m),
        decreases n - order.len(),
    {
        proof {
            lemma_seen_bound(order@ + stack@, n as int);
        }
        let ghost fuel = (n - order.len()) as nat;
        let ghost s_all = stack@;
        let ghost o0 = order@;
        let ghost d0 = ints(indeg@);
        let u = stack.pop().unwrap();
        proof {
            assert(s_all.last() == u);
            assert(stack@ =~= s_all.drop_last());
            assert((o0 + s_all)[o0.len() + s_all.len() - 1] == u);
            assert(u < n);
            // u is not yet in the order
            assert(pos[u as int] < 0) by {
                if pos[u as int] >= 0 {
                    let p = pos[u as int];
                    assert((o0 + s_all)[p] == u);
                }
            }
            assert(!done[u as int]);
        }
        let ghost before = done@;
        done.set(u, true);
        order.push(u);
        proof {
            pos = pos.update(u as int, o0.len() as int);
            let old_seen = o0 + s_all;
            let new_seen = order@ + stack@;
            let ol = o0.len() as int;
            let sl = old_seen.len() as int;
            assert(new_seen.len() == sl);
            assert forall|i: int| 0 <= i < sl implies #[trigger] new_seen[i] == old_seen[if i < ol {
                i
            } else if i == ol {
                sl - 1
            } else {
                i - 1
            }] by {
                if i < ol {
                    assert(new_seen[i] == o0[i]);
                } else if i == ol {
                    assert(new_seen[i] == u);
                } else {
                    assert(new_seen[i] == stack@[i - ol - 1]);
                    assert(stack@[i - ol - 1] == s_all[i - ol - 1]);
                }
            }
            assert forall|a: int, b: int| 0 <= a < sl && 0 <= b < sl && a != b implies new_seen[a] != new_seen[b] by {
                let fa = if a < ol { a } else if a == ol { sl - 1 } else { a - 1 };
                let fb = if b < ol { b } else if b == ol { sl - 1 } else { b - 1 };
                assert(new_seen[a] == old_seen[fa]);
                assert(new_seen[b] == old_seen[fb]);
            }
            assert forall|x: usize| new_seen.contains(x) <==> old_seen.contains(x) by {
                if new_seen.contains(x) {
                    let a = choose|a: int| 0 <= a < sl && new_seen[a] == x;
                    let fa = if a < ol { a } else if a == ol { sl - 1 } else { a - 1 };
                    assert(old_seen[fa] == x);
                }
                if old_seen.contains(x) {
                    let b = choose|b: int| 0 <= b < sl && old_seen[b] == x;
                    let a = if b < ol { b } else if b == sl - 1 { ol } else { b + 1 };
                    assert(new_seen[a] == old_seen[if a < ol { a } else if a == ol { sl - 1 } else { a - 1 }]);
                }
            }
            assert forall|p: int| 0 <= p < sl implies new_seen[p] < n by {
                let fp = if p < ol { p } else if p == ol { sl - 1 } else { p - 1 };
                assert(new_seen[p] == old_seen[fp]);
            }
            assert forall|p: int| 0 <= p < order.len() implies #[trigger] pos[order@[p] as int] == p by {
                if p < ol {
                    assert(order@[p] == old_seen[p]);
                    assert(old_seen[p] != old_seen[sl - 1]);
                }
            }
            assert forall|j: int| 0 <= j < n implies indeg[j] == cnt(m, done@, j, n as int) + occ(m[u as int].skip(0), j) by {
                lemma_cnt_flip(m, before, u as int, j, n as int);
                assert(m[u as int].skip(0) =~= m[u as int]);
            }
            assert forall|p: int, i: int|
                0 <= p < order.len() && #[trigger] edge(m, i, order@[p] as int) implies exists|q: int|
                    0 <= q < p && order@[q] == i by {
                if p == o0.len() {
                    assert(edge(m, i, s_all[s_all.len() - 1] as int));
                    let q = choose|q: int| 0 <= q < o0.len() && o0[q] == i;
                    assert(order@[q] == i);
                } else {
                    assert(order@[p] == o0[p]);
                    let q = choose|q: int| 0 <= q < p && o0[q] == i;
                    assert(order@[q] == i);
                }
            }
            assert forall|p: int, i: int|
                0 <= p < stack.len() && #[trigger] edge(m, i, stack@[p] as int) implies exists|q: int|
                    0 <= q < order@.len() && order@[q] == i by {
                assert(stack@[p] == s_all[p]);
                let q = choose|q: int| 0 <= q < o0.len() && o0[q] == i;
                assert(order@[q] == i);
            }
            assert(o0.len() + s_all.len() <= n);
            assert(stack@ == s_all.drop_last());
            assert(stack_run(m, s_all, d0, o0, fuel) == stack_run(
                m,
                relax(m, u as int, m[u as int].len() as int, s_all.drop_last(), d0).0,
                relax(m, u as int, m[u as int].len() as int, s_all.drop_last(), d0).1,
                o0.push(u),
                (fuel - 1) as nat,
            ));
        }
        let ghost st1 = stack@;
        proof {
            assert(order@ == o0.push(u));
            assert((n - order.len()) as nat == (fuel - 1) as nat);
        }
        let row = &g[u];
        let mut k: usize = 0;
        while k < row.len()
            invariant
                n == g.len(),
                m == model(g),
                wf(m),
                u < n,
                k <= row.len(),
                row@ == m[u as int],
                indeg.len() == n,
                done.len() == n,
                pos.len() == n,
                done[u as int],
                (order@ + stack@).no_duplicates(),
                forall|p: int| 0 <= p < (order@ + stack@).len() ==> (order@ + stack@)[p] < n,
                forall|p: int| 0 <= p < order.len() ==> #[trigger] pos[order@[p] as int] == p,
                forall|x: int| 0 <= x < n && pos[x] >= 0 ==> pos[x] < order.len() && order@[pos[x]] == x,
                forall|x: int| 0 <= x < n ==> done[x] == (pos[x] >= 0),
                forall|x: int| 0 <= x < n ==> ((order@ + stack@).contains(x as usize) <==> indeg[x] == 0),
                forall|j: int|
                    0 <= j < n ==> indeg[j] == cnt(m, done@, j, n as int) + occ(m[u as int].skip(k as int), j),
                forall|p: int, i: int|
                    0 <= p < order.len() && #[trigger] edge(m, i, order@[p] as int) ==> exists|q: int|
                        0 <= q < p && order@[q] == i,
                forall|p: int, i: int|
                    0 <= p < stack.len() && #[trigger] edge(m, i, stack@[p] as int) ==> exists|q: int|
                        0 <= q < order@.len() && order@[q] == i,
                relax(m, u as int, k as int, st1, d0) == (stack@, ints(indeg@)),
                order.len() <= n,
                stack_run(
                    m,
                    relax(m, u as int, m[u as int].len() as int, st1, d0).0,
                    relax(m, u as int, m[u as int].len() as int, st1, d0).1,
                    order@,
                    (n - order.len()) as nat,
                ) == stack_order(m),
            decreases row.len() - k,
        {
            let v = row[k];
            let ghost s_before = stack@;
            let ghost d_before = ints(indeg@);
            proof {
                assert(m[u as int][k as int] == v);
                assert(m[u as int].skip(k as int).drop_first() =~= m[u as int].skip(k + 1));
                assert(m[u as int].skip(k as int)[0] == v);
                assert(occ(m[u as int].skip(k as int), v as int) > 0);
                assert(indeg[v as int] > 0);
                assert forall|j: int| 0 <= j < n implies indeg[j] == cnt(m, done@, j, n as int) + occ(
                    m[u as int].skip(k + 1),
                    j,
                ) + if v == j {
                    1nat
                } else {
                    0nat
                } by {}
            }
            let d = indeg[v];
            indeg.set(v, d - 1);
            if d == 1 {
                proof {
                    assert(!(order@ + stack@).contains(v));
                    assert forall|i: int| #[trigger] edge(m, i, v as int) implies exists|q: int|
                        0 <= q < order@.len() && order@[q] == i by {
                        assert(cnt(m, done@, v as int, n as int) == 0);
                        lemma_cnt_zero(m, done@, v as int, n as int, i);
                        assert(0 <= i < n);
                        assert(order@[pos[i]] == i);
                    }
                }
                let ghost os = order@ + stack@;
                stack.push(v);
                proof {
                    assert(order@ + stack@ =~= os.push(v));
                    assert forall|a: int, b: int| 0 <= a < os.len() + 1 && 0 <= b < os.len() + 1 && a != b implies (order@ + stack@)[a] != (order@ + stack@)[b] by {
                        if a == os.len() {
                            assert(os[b] != v);
                        } else if b == os.len() {
                            assert(os[a] != v);
                        }
                    }
                    assert forall|x: int| 0 <= x < n implies ((order@ + stack@).contains(x as usize) <==> indeg[x] == 0) by {
                        if x == v {
                            assert((order@ + stack@)[os.len() as int] == v);
                        } else if (order@ + stack@).contains(x as usize) {
                            let p = choose|p: int| 0 <= p < os.len() + 1 && (order@ + stack@)[p] == x as usize;
                            assert(os[p] == x as usize);
                        } else if indeg[x] == 0 {
                            let p = choose|p: int| 0 <= p < os.len() && os[p] == x as usize;
                            assert((order@ + stack@)[p] == x as usize);
                        }
                    }
                    assert forall|p: int, i: int|
                        0 <= p < stack.len() && #[trigger] edge(m, i, stack@[p] as int) implies exists|q: int|
                            0 <= q < order@.len() && order@[q] == i by {
                        if p < s_before.len() {
                            assert(stack@[p] == s_before[p]);
                        }
                    }
                }
            } else {
                proof {
                    assert forall|x: int| 0 <= x < n implies ((order@ + stack@).contains(x as usize) <==> indeg[x] == 0) by {
                        if x == v {
                            if (order@ + stack@).contains(x as usize) {
                                assert(d_before[x] == 0);
                            }
                        }
                    }
                }
            }
            proof {
                assert(ints(indeg@) =~= d_before.update(v as int, d_before[v as int] - 1));
            }
            k += 1;
        }
        proof {
            assert forall|j: int| 0 <= j < n implies occ(m[u as int].skip(k as int), j) == 0 by {
                assert(m[u as int].skip(k as int).len() == 0);
            }
        }
    }
    proof {
        assert(order@ + stack@ =~= order@);
        if order.len() == n {
            assert forall|x: int| 0 <= x < n implies 0 <= #[trigger] pos[x] < order.len() && order@[pos[x]] == x by {
                lemma_all_in(order@, pos, n as int, x);
            }
            assert forall|i: int, j: int| #[trigger] edge(m, i, j) implies 0 <= j < m.len() && pos[i] < pos[j] by {
                let k = choose|k: int| 0 <= k < m[i].len() && m[i][k] == j;
                assert(m[i][k] < m.len());
                lemma_all_in(order@, pos, n as int, j);
                let p = pos[j];
                assert(edge(m, i, order@[p] as int));
                let q = choose|q: int| 0 <= q < p && order@[q] == i;
                assert(pos[order@[q] as int] == q);
            }
            lemma_order_rank(m, order@, pos);
        } else {
            let r = Set::new(|x: int| 0 <= x < n && pos[x] < 0);
            let j0 = choose|x: int| 0 <= x < n && pos[x] < 0;
            assert(exists|x: int| 0 <= x < n && pos[x] < 0) by {
                if forall|x: int| 0 <= x < n ==> pos[x] >= 0 {
                    // every node is in the order, so the order has n entries
                    let s = order@;
                    let xs = Seq::new(n as nat, |x: int| x as usize);
                    assert(xs.no_duplicates());
                    assert forall|p: int| 0 <= p < xs.len() implies s.contains(#[trigger] xs[p]) by {
                        assert(xs[p] == p as usize);
                        assert(s[pos[p]] == p);
                    }
                    lemma_len_covered(xs, s, n as int);
                }
            }
            assert forall|j: int| r.contains(j) implies exists|i: int| r.contains(i) && edge(m, i, j) by {
                assert(!(order@).contains(j as usize)) by {
                    if order@.contains(j as usize) {
                        let p = choose|p: int| 0 <= p < order@.len() && order@[p] == j as usize;
                        assert(pos[order@[p] as int] == p);
                    }
                }
                assert(indeg[j] > 0);
                lemma_cnt_pos(m, done@, j, n as int);
                let i = choose|i: int| 0 <= i < n && !done@[i] && edge(m, i, j);
                assert(r.contains(i));
            }
            lemma_closed_set_cyclic(m, r, j0);
        }
    }
    order
}

/// `xs` has no duplicates and everything in it is in `s`, which is also
/// duplicate-free: so `s` is at least as long.
proof fn lemma_len_covered(xs: Seq<usize>, s: Seq<usize>, n: int)
    requires
        0 <= n <= usize::MAX,
        xs.len() == n,
        xs.no_duplicates(),
        s.no_duplicates(),
        forall|p: int| 0 <= p < xs.len() ==> s.contains(#[trigger] xs[p]),
    ensures
        s.len() >= n,
{
    xs.unique_seq_to_set();
    s.unique_seq_to_set();
    vstd::seq_lib::seq_to_set_is_finite(s);
    assert(xs.to_set().subset_of(s.to_set())) by {
        assert forall|y: usize| xs.to_set().contains(y) implies s.to_set().contains(y) by {
            let p = choose|p: int| 0 <= p < xs.len() && xs[p] == y;
            assert(s.contains(xs[p]));
        }
    }
    vstd::set_lib::lemma_len_subset(xs.to_set(), s.to_set());
}

} // verus!
