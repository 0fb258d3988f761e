//! Plugin delay compensation over a single-destination routing graph.
//!
//! Every node routes to at most one destination: the first node whose id
//! equals its `dest_id`.  The path latency of a node is the slowest arrival
//! at it, and its compensation is the project latency minus that arrival.
use vstd::prelude::*;
use crate::graph::{acyclic, edge, edge_count, is_rank, kahn_order, model, total, wf};

verus! {

pub struct PdcNode {
    pub id: u32,
    pub latency: u32,
    pub dest_id: u32,
}

pub struct PdcOrchestrator {
    pub nodes: Vec<PdcNode>,
    pub has_cycle: bool,
}

/// Index of the first node at or after `j` whose id is `id`, or -1.
pub open spec fn find_from(nodes: Seq<PdcNode>, id: u32, j: int) -> int
    decreases nodes.len() - j,
{
    if j < 0 || j >= nodes.len() {
        -1
    } else if nodes[j].id == id {
        j
    } else {
        find_from(nodes, id, j + 1)
    }
}

/// Index of the destination of node `i` (`Iterator::position` on the ids),
/// or -1 when no node carries its `dest_id`.
pub open spec fn dest_index(nodes: Seq<PdcNode>, i: int) -> int {
    find_from(nodes, nodes[i].dest_id, 0)
}

/// The routing graph: one edge from each node to its destination.
pub open spec fn pdc_graph(nodes: Seq<PdcNode>) -> Seq<Seq<usize>> {
    Seq::new(
        nodes.len(),
        |i: int|
            if dest_index(nodes, i) >= 0 {
                seq![dest_index(nodes, i) as usize]
            } else {
                Seq::<usize>::empty()
            },
    )
}

/// `u32::saturating_add`.
pub open spec fn sat_add(a: u32, b: u32) -> u32 {
    if a + b > u32::MAX {
        u32::MAX
    } else {
        (a + b) as u32
    }
}

pub open spec fn max_u32(a: u32, b: u32) -> u32 {
    if a >= b {
        a
    } else {
        b
    }
}

/// Slowest arrival at `j` from the nodes below `m` that `dn` marks.
pub open spec fn inflow(nodes: Seq<PdcNode>, pl: Seq<u32>, dn: Seq<bool>, j: int, m: int) -> u32
    decreases m,
{
    if m <= 0 {
        0
    } else {
        let i = m - 1;
        let prev = inflow(nodes, pl, dn, j, i);
        if dn[i] && dest_index(nodes, i) == j {
            max_u32(prev, sat_add(pl[i], nodes[i].latency))
        } else {
            prev
        }
    }
}

/// All nodes marked.
pub open spec fn all_true(n: nat) -> Seq<bool> {
    Seq::new(n, |i: int| true)
}

/// `pl` gives every node the slowest arrival over its upstream nodes.
pub open spec fn is_path_latency(nodes: Seq<PdcNode>, pl: Seq<u32>) -> bool {
    &&& pl.len() == nodes.len()
    &&& forall|j: int|
        0 <= j < nodes.len() ==> #[trigger] pl[j] == inflow(
            nodes,
            pl,
            all_true(nodes.len()),
            j,
            nodes.len() as int,
        )
}

/// Largest value of a sequence (0 when empty).
pub open spec fn seq_max(s: Seq<u32>) -> u32
    decreases s.len(),
{
    if s.len() == 0 {
        0
    } else {
        max_u32(seq_max(s.drop_last()), s.last())
    }
}

/// The compensation of every node: the project latency minus its arrival.
pub open spec fn compensation(pl: Seq<u32>) -> Seq<u32> {
    pl.map_values(|x: u32| (seq_max(pl) - x) as u32)
}

/// Node ids are pairwise distinct.
pub open spec fn ids_unique(nodes: Seq<PdcNode>) -> bool {
    forall|a: int, b: int| 0 <= a < b < nodes.len() ==> nodes[a].id != nodes[b].id
}

/// What `audit_pdc` accepts: no recorded cycle, distinct ids, no node
/// routed to itself, every nonzero destination known, and an acyclic graph.
pub open spec fn pdc_audit_ok(o: &PdcOrchestrator) -> bool {
    &&& !o.has_cycle
    &&& ids_unique(o.nodes@)
    &&& forall|i: int| 0 <= i < o.nodes.len() ==> #[trigger] o.nodes@[i].id != o.nodes@[i].dest_id
    &&& forall|i: int|
        0 <= i < o.nodes.len() && #[trigger] o.nodes@[i].dest_id != 0 ==> dest_index(o.nodes@, i)
            >= 0
    &&& acyclic(pdc_graph(o.nodes@))
}

proof fn lemma_find_from(nodes: Seq<PdcNode>, id: u32, j: int)
    requires
        0 <= j,
    ensures
        find_from(nodes, id, j) == -1 || (j <= find_from(nodes, id, j) < nodes.len()
            && nodes[find_from(nodes, id, j)].id == id),
        find_from(nodes, id, j) == -1 ==> forall|k: int|
            j <= k < nodes.len() ==> #[trigger] nodes[k].id != id,
        find_from(nodes, id, j) >= 0 ==> forall|k: int|
            j <= k < find_from(nodes, id, j) ==> #[trigger] nodes[k].id != id,
    decreases nodes.len() - j,
{
    if j < nodes.len() && nodes[j].id != id {
        lemma_find_from(nodes, id, j + 1);
    }
}

/// Position of the first node with the given id.
fn find_index(nodes: &Vec<PdcNode>, id: u32) -> (r: Option<usize>)
    ensures
        match r {
            Some(k) => find_from(nodes@, id, 0) == k as int,
            None => find_from(nodes@, id, 0) == -1,
        },
{
    let mut k: usize = 0;
    while k < nodes.len()
        invariant
            k <= nodes.len(),
            find_from(nodes@, id, 0) == find_from(nodes@, id, k as int),
        decreases nodes.len() - k,
    {
        if nodes[k].id == id {
            return Some(k);
        }
        k += 1;
    }
    None
}

/// Destination index of every node.
fn destinations(nodes: &Vec<PdcNode>) -> (d: Vec<Option<usize>>)
    ensures
        d.len() == nodes.len(),
        forall|i: int|
            0 <= i < nodes.len() ==> match #[trigger] d@[i] {
                Some(k) => dest_index(nodes@, i) == k as int && k < nodes.len(),
                None => dest_index(nodes@, i) == -1,
            },
{
    let mut d: Vec<Option<usize>> = Vec::new();
    let mut i: usize = 0;
    while i < nodes.len()
        invariant
            i <= nodes.len(),
            d.len() == i,
            forall|x: int|
                0 <= x < i ==> match #[trigger] d@[x] {
                    Some(k) => dest_index(nodes@, x) == k as int && k < nodes.len(),
                    None => dest_index(nodes@, x) == -1,
                },
        decreases nodes.len() - i,
    {
        let r = find_index(nodes, nodes[i].dest_id);
        proof {
            lemma_find_from(nodes@, nodes@[i as int].dest_id, 0);
        }
        d.push(r);
        i += 1;
    }
    d
}

/// The adjacency list of `pdc_graph`.
fn routing_graph(nodes: &Vec<PdcNode>, d: &Vec<Option<usize>>) -> (g: Vec<Vec<usize>>)
    requires
        d.len() == nodes.len(),
        forall|i: int|
            0 <= i < nodes.len() ==> match #[trigger] d@[i] {
                Some(k) => dest_index(nodes@, i) == k as int && k < nodes.len(),
                None => dest_index(nodes@, i) == -1,
            },
    ensures
        model(&g) == pdc_graph(nodes@),
        wf(model(&g)),
        edge_count(model(&g)) <= nodes.len(),
{
    let mut g: Vec<Vec<usize>> = Vec::new();
    let mut i: usize = 0;
    while i < nodes.len()
        invariant
            i <= nodes.len(),
            d.len() == nodes.len(),
            forall|x: int|
                0 <= x < nodes.len() ==> match #[trigger] d@[x] {
                    Some(k) => dest_index(nodes@, x) == k as int && k < nodes.len(),
                    None => dest_index(nodes@, x) == -1,
                },
            g.len() == i,
            forall|x: int| 0 <= x < i ==> #[trigger] g@[x]@ == pdc_graph(nodes@)[x],
            total(model(&g), i as int) <= i,
        decreases nodes.len() - i,
    {
        let mut row: Vec<usize> = Vec::new();
        match d[i] {
            Some(k) => {
                row.push(k);
                proof {
                    assert(row@ =~= seq![k]);
                }
            },
            None => {
                proof {
                    assert(row@ =~= Seq::<usize>::empty());
                }
            },
        }
        let ghost before = model(&g);
        let ghost rv = row@;
        g.push(row);
        proof {
            assert(model(&g) =~= before.push(rv));
            lemma_total_prefix(model(&g), before, i as int);
        }
        i += 1;
    }
    proof {
        assert(model(&g) =~= pdc_graph(nodes@));
        assert forall|x: int, k: int|
            0 <= x < model(&g).len() && 0 <= k < model(&g)[x].len() implies #[trigger] model(&g)[x][k]
            < model(&g).len() by {
            lemma_find_from(nodes@, nodes@[x].dest_id, 0);
        }
    }
    g
}

proof fn lemma_total_prefix(a: Seq<Seq<usize>>, b: Seq<Seq<usize>>, m: int)
    requires
        0 <= m <= b.len(),
        m <= a.len(),
        forall|x: int| 0 <= x < m ==> a[x] == b[x],
    ensures
        total(a, m) == total(b, m),
    decreases m,
{
    if m > 0 {
        lemma_total_prefix(a, b, m - 1);
    }
}

proof fn lemma_inflow_add(nodes: Seq<PdcNode>, pl: Seq<u32>, dn: Seq<bool>, u: int, j: int, m: int)
    requires
        0 <= u < dn.len(),
        !dn[u],
        0 <= m <= dn.len(),
    ensures
        inflow(nodes, pl, dn.update(u, true), j, m) == if u < m && dest_index(nodes, u) == j {
            max_u32(inflow(nodes, pl, dn, j, m), sat_add(pl[u], nodes[u].latency))
        } else {
            inflow(nodes, pl, dn, j, m)
        },
    decreases m,
{
    if m > 0 {
        lemma_inflow_add(nodes, pl, dn, u, j, m - 1);
    }
}

proof fn lemma_inflow_frame(
    nodes: Seq<PdcNode>,
    pl: Seq<u32>,
    pl2: Seq<u32>,
    dn: Seq<bool>,
    j: int,
    m: int,
)
    requires
        0 <= m <= dn.len(),
        m <= pl.len(),
        m <= pl2.len(),
        forall|i: int| 0 <= i < m && dn[i] ==> pl[i] == pl2[i],
    ensures
        inflow(nodes, pl, dn, j, m) == inflow(nodes, pl2, dn, j, m),
    decreases m,
{
    if m > 0 {
        lemma_inflow_frame(nodes, pl, pl2, dn, j, m - 1);
    }
}

proof fn lemma_inflow_none(nodes: Seq<PdcNode>, pl: Seq<u32>, dn: Seq<bool>, j: int, m: int)
    requires
        forall|i: int| 0 <= i < m ==> !dn[i],
    ensures
        inflow(nodes, pl, dn, j, m) == 0,
    decreases m,
{
    if m > 0 {
        lemma_inflow_none(nodes, pl, dn, j, m - 1);
    }
}

proof fn lemma_inflow_preds(
    nodes: Seq<PdcNode>,
    pl: Seq<u32>,
    pl2: Seq<u32>,
    dn: Seq<bool>,
    j: int,
    m: int,
)
    requires
        0 <= m <= dn.len(),
        m <= pl.len(),
        m <= pl2.len(),
        forall|i: int| 0 <= i < m && dest_index(nodes, i) == j ==> pl[i] == pl2[i],
    ensures
        inflow(nodes, pl, dn, j, m) == inflow(nodes, pl2, dn, j, m),
    decreases m,
{
    if m > 0 {
        lemma_inflow_preds(nodes, pl, pl2, dn, j, m - 1);
    }
}

proof fn lemma_seq_max(s: Seq<u32>)
    ensures
        forall|i: int| 0 <= i < s.len() ==> s[i] <= seq_max(s),
    decreases s.len(),
{
    if s.len() > 0 {
        lemma_seq_max(s.drop_last());
        assert forall|i: int| 0 <= i < s.len() implies s[i] <= seq_max(s) by {
            if i < s.len() - 1 {
                assert(s[i] == s.drop_last()[i]);
            }
        }
    }
}

proof fn lemma_dest_edge(nodes: Seq<PdcNode>, i: int, j: int)
    requires
        0 <= i < nodes.len(),
        dest_index(nodes, i) == j,
        0 <= j <= usize::MAX,
    ensures
        edge(pdc_graph(nodes), i, j),
{
    let g = pdc_graph(nodes);
    assert(g[i] == seq![j as usize]);
    assert(g[i][0] == j);
}

/// Path latencies are unique on an acyclic routing graph, so the
/// compensation that `recalculate_pdc` returns is determined by the nodes.
pub proof fn lemma_path_latency_unique(nodes: Seq<PdcNode>, pl1: Seq<u32>, pl2: Seq<u32>)
    requires
        nodes.len() <= usize::MAX,
        acyclic(pdc_graph(nodes)),
        is_path_latency(nodes, pl1),
        is_path_latency(nodes, pl2),
    ensures
        pl1 == pl2,
{
    let f = choose|f: spec_fn(int) -> nat| is_rank(pdc_graph(nodes), f);
    assert forall|j: int| 0 <= j < nodes.len() implies pl1[j] == pl2[j] by {
        lemma_unique_below(nodes, pl1, pl2, f, (f(j) + 1) as nat);
    }
    assert(pl1 =~= pl2);
}

proof fn lemma_unique_below(
    nodes: Seq<PdcNode>,
    pl1: Seq<u32>,
    pl2: Seq<u32>,
    f: spec_fn(int) -> nat,
    t: nat,
)
    requires
        nodes.len() <= usize::MAX,
        is_rank(pdc_graph(nodes), f),
        is_path_latency(nodes, pl1),
        is_path_latency(nodes, pl2),
    ensures
        forall|j: int| 0 <= j < nodes.len() && f(j) < t ==> pl1[j] == pl2[j],
    decreases t,
{
    if t > 0 {
        lemma_unique_below(nodes, pl1, pl2, f, (t - 1) as nat);
        assert forall|j: int| 0 <= j < nodes.len() && f(j) < t implies pl1[j] == pl2[j] by {
            let n = nodes.len() as int;
            assert forall|i: int| 0 <= i < n && dest_index(nodes, i) == j implies pl1[i]
                == pl2[i] by {
                lemma_dest_edge(nodes, i, j);
                assert(f(i) < f(j));
            }
            lemma_inflow_preds(nodes, pl1, pl2, all_true(nodes.len()), j, n);
            assert(pl1[j] == inflow(nodes, pl1, all_true(nodes.len()), j, n));
            assert(pl2[j] == inflow(nodes, pl2, all_true(nodes.len()), j, n));
        }
    }
}

impl PdcOrchestrator {
    pub fn new() -> (r: Self)
        ensures
            r.nodes@.len() == 0,
            !r.has_cycle,
    {
        PdcOrchestrator { nodes: Vec::new(), has_cycle: false }
    }

    /// Computes the compensation delay of every node.  A low-latency monitor
    /// path and a cyclic graph both get zero compensation; a cycle is
    /// recorded in `has_cycle`.
    pub fn recalculate_pdc(&mut self, low_latency: bool) -> (r: Vec<u32>)
        ensures
            final(self).nodes@ == old(self).nodes@,
            r.len() == old(self).nodes.len(),
            low_latency ==> !final(self).has_cycle,
            !low_latency ==> final(self).has_cycle == !acyclic(pdc_graph(old(self).nodes@)),
            (low_latency || final(self).has_cycle) ==> forall|i: int| 0 <= i < r.len() ==> r@[i] == 0,
            !low_latency && !final(self).has_cycle ==> exists|pl: Seq<u32>|
                is_path_latency(old(self).nodes@, pl) && r@ == compensation(pl),
    {
        self.has_cycle = false;
        let n = self.nodes.len();
        if low_latency {
            return zeros(n);
        }
        let d = destinations(&self.nodes);
        let g = routing_graph(&self.nodes, &d);
        let order = kahn_order(&g);
        if order.len() != n {
            self.has_cycle = true;
            return zeros(n);
        }
        let ghost nodes = self.nodes@;
        let ghost gm = model(&g);
        let mut pl = zeros(n);
        let ghost mut dn: Seq<bool> = Seq::new(n as nat, |x: int| false);
        proof {
            assert forall|j: int| 0 <= j < n implies pl@[j] == inflow(nodes, pl@, dn, j, n as int) by {
                lemma_inflow_none(nodes, pl@, dn, j, n as int);
            }
        }
        let mut t: usize = 0;
        while t < n
            invariant
                t <= n,
                n == self.nodes.len(),
                nodes == self.nodes@,
                gm == model(&g),
                gm == pdc_graph(nodes),
                order.len() == n,
                order@.no_duplicates(),
                forall|p: int| 0 <= p < order.len() ==> order[p] < n,
                forall|p: int, i: int|
                    0 <= p < order.len() && #[trigger] edge(gm, i, order[p] as int) ==> exists|q: int|
                        0 <= q < p && order[q] == i,
                forall|i: usize| i < n ==> #[trigger] order@.contains(i),
                d.len() == n,
                forall|i: int|
                    0 <= i < n ==> match #[trigger] d@[i] {
                        Some(k) => dest_index(nodes, i) == k as int && k < n,
                        None => dest_index(nodes, i) == -1,
                    },
                pl.len() == n,
                dn.len() == n,
                forall|x: int| 0 <= x < n ==> dn[x] == order@.take(t as int).contains(x as usize),
                forall|j: int| 0 <= j < n ==> #[trigger] pl@[j] == inflow(nodes, pl@, dn, j, n as int),
            decreases n - t,
        {
            let u = order[t];
            proof {
                assert(!dn[u as int]) by {
                    if order@.take(t as int).contains(u) {
                        let q = choose|q: int| 0 <= q < t && order@.take(t as int)[q] == u;
                        assert(order[q] == order[t as int]);
                    }
                }
            }
            let ghost dn2 = dn.update(u as int, true);
            match d[u] {
                Some(k) => {
                    let s = sat_add_exec(pl[u], self.nodes[u].latency);
                    let cur = pl[k];
                    let ghost old_pl = pl@;
                    proof {
                        lemma_dest_edge(nodes, u as int, k as int);
                        // the destination comes later in the order, so it is not done
                        assert(!dn2[k as int]) by {
                            assert(order@.contains(k)) by {
                                lemma_in_order(order@, n as int, k as int);
                            }
                            let p = choose|p: int| 0 <= p < order.len() && order[p] == k;
                            assert(edge(gm, u as int, order[p] as int));
                            let q = choose|q: int| 0 <= q < p && order[q] == u;
                            assert(q == t) by {
                                assert(order[q] == order[t as int]);
                            }
                            if order@.take(t as int).contains(k) {
                                let r = choose|r: int| 0 <= r < t && order@.take(t as int)[r] == k;
                                assert(order[r] == order[p]);
                            }
                        }
                    }
                    pl.set(k, if cur >= s { cur } else { s });
                    proof {
                        assert forall|j: int| 0 <= j < n implies #[trigger] pl@[j] == inflow(
                            nodes,
                            pl@,
                            dn2,
                            j,
                            n as int,
                        ) by {
                            lemma_inflow_frame(nodes, old_pl, pl@, dn2, j, n as int);
                            lemma_inflow_add(nodes, old_pl, dn, u as int, j, n as int);
                        }
                    }
                },
                None => {
                    proof {
                        assert forall|j: int| 0 <= j < n implies #[trigger] pl@[j] == inflow(
                            nodes,
                            pl@,
                            dn2,
                            j,
                            n as int,
                        ) by {
                            lemma_inflow_add(nodes, pl@, dn, u as int, j, n as int);
                        }
                    }
                },
            }
            proof {
                let s0 = order@.take(t as int);
                let s1 = order@.take(t + 1);
                assert(s1 =~= s0.push(u));
                assert forall|x: int| 0 <= x < n implies dn2[x] == s1.contains(x as usize) by {
                    if x == u {
                        assert(s1[t as int] == u);
                    } else {
                        if s1.contains(x as usize) {
                            let q = choose|q: int| 0 <= q < s1.len() && s1[q] == x as usize;
                            assert(q < t);
                            assert(s0[q] == x as usize);
                        }
                        if s0.contains(x as usize) {
                            let q = choose|q: int| 0 <= q < s0.len() && s0[q] == x as usize;
                            assert(s1[q] == x as usize);
                        }
                    }
                }
                dn = dn2;
            }
            t += 1;
        }
        proof {
            assert(dn =~= all_true(n as nat)) by {
                assert forall|x: int| 0 <= x < n implies dn[x] by {
                    lemma_in_order(order@, n as int, x);
                    assert(order@.take(n as int) =~= order@);
                }
            }
            assert(is_path_latency(nodes, pl@));
        }
        let top = max_of(&pl);
        let mut r: Vec<u32> = Vec::new();
        let mut i: usize = 0;
        proof {
            lemma_seq_max(pl@);
        }
        while i < n
            invariant
                i <= n,
                pl.len() == n,
                top == seq_max(pl@),
                forall|x: int| 0 <= x < n ==> pl@[x] <= top,
                r.len() == i,
                forall|x: int| 0 <= x < i ==> r@[x] == compensation(pl@)[x],
            decreases n - i,
        {
            r.push(top - pl[i]);
            i += 1;
        }
        proof {
            assert(r@ =~= compensation(pl@));
        }
        r
    }

    /// Audits the graph: it must be free of cycles, use distinct ids, never
    /// route a node to itself and only route to known nodes (0 means none).
    pub fn audit_pdc(&self) -> (ok: bool)
        ensures
            ok == pdc_audit_ok(self),
    {
        if self.has_cycle {
            return false;
        }
        let n = self.nodes.len();
        let mut a: usize = 0;
        while a < n
            invariant
                a <= n,
                n == self.nodes.len(),
                forall|x: int, y: int| 0 <= x < y < n && x < a ==> self.nodes@[x].id != self.nodes@[y].id,
                forall|x: int| 0 <= x < a ==> #[trigger] self.nodes@[x].id != self.nodes@[x].dest_id,
            decreases n - a,
        {
            if self.nodes[a].id == self.nodes[a].dest_id {
                return false;
            }
            let mut b: usize = a + 1;
            while b < n
                invariant
                    a < b <= n,
                    n == self.nodes.len(),
                    forall|y: int| a < y < b ==> self.nodes@[a as int].id != self.nodes@[y].id,
                decreases n - b,
            {
                if self.nodes[a].id == self.nodes[b].id {
                    return false;
                }
                b += 1;
            }
            a += 1;
        }
        let d = destinations(&self.nodes);
        let mut i: usize = 0;
        while i < n
            invariant
                i <= n,
                n == self.nodes.len(),
                d.len() == n,
                forall|x: int|
                    0 <= x < n ==> match #[trigger] d@[x] {
                        Some(k) => dest_index(self.nodes@, x) == k as int && k < n,
                        None => dest_index(self.nodes@, x) == -1,
                    },
                forall|x: int|
                    0 <= x < i && #[trigger] self.nodes@[x].dest_id != 0 ==> dest_index(self.nodes@, x) >= 0,
            decreases n - i,
        {
            if self.nodes[i].dest_id != 0 && d[i].is_none() {
                return false;
            }
            i += 1;
        }
        let g = routing_graph(&self.nodes, &d);
        let order = kahn_order(&g);
        order.len() == n
    }
}

proof fn lemma_in_order(order: Seq<usize>, n: int, x: int)
    requires
        order.len() == n,
        order.no_duplicates(),
        0 <= x < n,
        forall|i: usize| i < n ==> #[trigger] order.contains(i),
    ensures
        order.contains(x as usize),
{
    assert(order.contains(x as usize));
}

fn sat_add_exec(a: u32, b: u32) -> (r: u32)
    ensures
        r == sat_add(a, b),
{
    if a > u32::MAX - b {
        u32::MAX
    } else {
        a + b
    }
}

fn zeros(n: usize) -> (r: Vec<u32>)
    ensures
        r.len() == n,
        forall|i: int| 0 <= i < n ==> r@[i] == 0,
{
    let mut r: Vec<u32> = Vec::new();
    let mut i: usize = 0;
    while i < n
        invariant
            i <= n,
            r.len() == i,
            forall|x: int| 0 <= x < i ==> r@[x] == 0,
        decreases n - i,
    {
        r.push(0);
        i += 1;
    }
    r
}

fn max_of(v: &Vec<u32>) -> (m: u32)
    ensures
        m == seq_max(v@),
{
    let mut m: u32 = 0;
    let mut i: usize = 0;
    while i < v.len()
        invariant
            i <= v.len(),
            m == seq_max(v@.take(i as int)),
        decreases v.len() - i,
    {
        proof {
            assert(v@.take(i + 1).drop_last() =~= v@.take(i as int));
        }
        if v[i] > m {
            m = v[i];
        }
        i += 1;
    }
    proof {
        assert(v@.take(v.len() as int) =~= v@);
    }
    m
}

} // verus!
