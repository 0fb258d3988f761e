//! Latency propagation over an id-keyed routing graph.
//!
//! Each node lists the ids of its downstream nodes.  Solving propagates the
//! slowest upstream arrival into every downstream node, and marks every node
//! dirty when the graph is cyclic or routes to an unknown id.
use std::collections::HashMap;
use vstd::prelude::*;
use crate::graph::{acyclic, edge, edge_count, is_rank, kahn_order, model, total, wf};
use crate::keys::map_keys;
use crate::idgraph::{
    downstream_indices, id_acyclic, id_all_known, id_link, id_rank, index_graph, key_list,
    lemma_acyclic_transfer, lemma_edge_link, lemma_key_index,
};
use crate::pdc::{max_u32, sat_add};

verus! {

broadcast use vstd::std_specs::hash::group_hash_axioms;

pub struct PdcNodeRust {
    pub id: u32,
    pub own_latency: u32,
    pub total_latency: u32,
    pub is_dirty: bool,
    pub downstream: Vec<u32>,
}

pub struct TopologyOrchestrator {
    pub nodes: HashMap<u32, PdcNodeRust>,
    pub has_cycle: bool,
}

/// The routes of a map of nodes: each id to its downstream ids.
pub open spec fn routes(m: Map<u32, PdcNodeRust>) -> Map<u32, Seq<u32>> {
    m.map_values(|n: PdcNodeRust| n.downstream@)
}

/// Node `a` routes to the known node `b`.
pub open spec fn link(m: Map<u32, PdcNodeRust>, a: u32, b: u32) -> bool {
    id_link(routes(m), a, b)
}

/// No chain of routes returns to its start.
pub open spec fn acyclic_map(m: Map<u32, PdcNodeRust>) -> bool {
    id_acyclic(routes(m))
}

/// Every downstream id names a node of the map.
pub open spec fn all_known(m: Map<u32, PdcNodeRust>) -> bool {
    id_all_known(routes(m))
}

/// `t` gives every node of `m` the larger of its stored total and the
/// slowest arrival from an upstream node plus its own latency.
pub open spec fn settled(m: Map<u32, PdcNodeRust>, t: Map<u32, u32>) -> bool {
    &&& t.dom() == m.dom()
    &&& forall|j: u32| m.contains_key(j) ==> #[trigger] t[j] >= m[j].total_latency
    &&& forall|i: u32, j: u32| #[trigger] link(m, i, j) ==> t[j] >= sat_add(t[i], m[j].own_latency)
    &&& forall|j: u32|
        m.contains_key(j) ==> #[trigger] t[j] == m[j].total_latency || exists|i: u32|
            link(m, i, j) && t[j] == sat_add(t[i], m[j].own_latency)
}

/// The total latencies of a map of nodes.
pub open spec fn totals(m: Map<u32, PdcNodeRust>) -> Map<u32, u32> {
    m.map_values(|n: PdcNodeRust| n.total_latency)
}

/// What `audit_pdc_graph_solver` accepts.
pub open spec fn topology_ok(o: &TopologyOrchestrator) -> bool {
    &&& !o.has_cycle
    &&& forall|k: u32| #[trigger] o.nodes@.contains_key(k) ==> node_ok(o.nodes@, k)
}

/// Settled totals are unique on an acyclic graph: `solve` computes the
/// one assignment that `settled` describes.
pub proof fn lemma_settled_unique(m: Map<u32, PdcNodeRust>, a: Map<u32, u32>, b: Map<u32, u32>)
    requires
        acyclic_map(m),
        settled(m, a),
        settled(m, b),
    ensures
        a == b,
{
    let f = choose|f: spec_fn(u32) -> nat| id_rank(routes(m), f);
    assert forall|j: u32| m.contains_key(j) implies a[j] == b[j] by {
        lemma_settled_below(m, a, b, f, (f(j) + 1) as nat);
    }
    assert(a =~= b);
}

proof fn lemma_settled_below(
    m: Map<u32, PdcNodeRust>,
    a: Map<u32, u32>,
    b: Map<u32, u32>,
    f: spec_fn(u32) -> nat,
    t: nat,
)
    requires
        id_rank(routes(m), f),
        settled(m, a),
        settled(m, b),
    ensures
        forall|j: u32| m.contains_key(j) && f(j) < t ==> a[j] == b[j],
    decreases t,
{
    if t > 0 {
        lemma_settled_below(m, a, b, f, (t - 1) as nat);
        assert forall|j: u32| m.contains_key(j) && f(j) < t implies a[j] == b[j] by {
            if a[j] != m[j].total_latency {
                let i = choose|i: u32| link(m, i, j) && a[j] == sat_add(a[i], m[j].own_latency);
                assert(f(i) < f(j));
            }
            if b[j] != m[j].total_latency {
                let i = choose|i: u32| link(m, i, j) && b[j] == sat_add(b[i], m[j].own_latency);
                assert(f(i) < f(j));
            }
        }
    }
}


/// Index-level form of `settled` over the nodes `order` lists first.
pub open spec fn relaxed(
    g: Seq<Seq<usize>>,
    own: Seq<u32>,
    tot0: Seq<u32>,
    tot: Seq<u32>,
    done: Seq<usize>,
) -> bool {
    &&& forall|j: int| 0 <= j < tot.len() ==> #[trigger] tot[j] >= tot0[j]
    &&& forall|i: int, j: int|
        0 <= j < tot.len() && done.contains(i as usize) && #[trigger] edge(g, i, j) ==> tot[j]
            >= sat_add(tot[i], own[j])
    &&& forall|j: int|
        0 <= j < tot.len() ==> #[trigger] tot[j] == tot0[j] || exists|i: int|
            done.contains(i as usize) && edge(g, i, j) && tot[j] == sat_add(tot[i], own[j])
}

proof fn lemma_settle_transfer(
    keys: Seq<u32>,
    m0: Map<u32, PdcNodeRust>,
    g: Seq<Seq<usize>>,
    own: Seq<u32>,
    tot0: Seq<u32>,
    tot: Seq<u32>,
    done: Seq<usize>,
    mf: Map<u32, PdcNodeRust>,
)
    requires
        key_list(keys, routes(m0)),
        index_graph(keys, routes(m0), g),
        keys.len() <= usize::MAX,
        own.len() == keys.len(),
        tot0.len() == keys.len(),
        tot.len() == keys.len(),
        forall|x: int| 0 <= x < keys.len() ==> #[trigger] own[x] == m0[keys[x]].own_latency,
        forall|x: int| 0 <= x < keys.len() ==> #[trigger] tot0[x] == m0[keys[x]].total_latency,
        relaxed(g, own, tot0, tot, done),
        forall|x: usize| x < keys.len() ==> #[trigger] done.contains(x),
        mf.dom() == m0.dom(),
        forall|x: int| 0 <= x < keys.len() ==> (#[trigger] mf[keys[x]]).total_latency == tot[x],
    ensures
        settled(m0, totals(mf)),
{
    let t = totals(mf);
    assert(t.dom() == m0.dom());
    assert forall|j: u32| m0.contains_key(j) implies #[trigger] t[j] >= m0[j].total_latency by {
        let x = lemma_key_index(keys, routes(m0), j);
        assert(tot[x] >= tot0[x]);
    }
    assert forall|i: u32, j: u32| #[trigger] link(m0, i, j) implies t[j] >= sat_add(t[i], m0[j].own_latency) by {
        let a = lemma_key_index(keys, routes(m0), i);
        let b = lemma_key_index(keys, routes(m0), j);
        lemma_edge_link(keys, routes(m0), g, a, b);
        assert(done.contains(a as usize));
    }
    assert forall|j: u32| m0.contains_key(j) implies #[trigger] t[j] == m0[j].total_latency || exists|i: u32|
        link(m0, i, j) && t[j] == sat_add(t[i], m0[j].own_latency) by {
        let b = lemma_key_index(keys, routes(m0), j);
        if tot[b] != tot0[b] {
            let a = choose|a: int| done.contains(a as usize) && edge(g, a, b) && tot[b] == sat_add(tot[a], own[b]);
            let k = choose|k: int| 0 <= k < g[a].len() && g[a][k] == b;
            lemma_edge_link(keys, routes(m0), g, a, b);
            assert(link(m0, keys[a], j));
        }
    }
}

impl TopologyOrchestrator {
    pub fn new() -> (r: Self)
        ensures
            r.nodes@ == Map::<u32, PdcNodeRust>::empty(),
            !r.has_cycle,
    {
        TopologyOrchestrator { nodes: HashMap::new(), has_cycle: false }
    }

    /// Propagates latency along the routes in topological order and marks
    /// every node dirty when a route is unknown or the routes form a cycle.
    pub fn solve(&mut self)
        ensures
            final(self).has_cycle == (!all_known(old(self).nodes@) || !acyclic_map(old(self).nodes@)),
            final(self).nodes@.dom() == old(self).nodes@.dom(),
            forall|k: u32|
                #[trigger] old(self).nodes@.contains_key(k) ==> {
                    let a = old(self).nodes@[k];
                    let b = final(self).nodes@[k];
                    &&& b.id == a.id
                    &&& b.own_latency == a.own_latency
                    &&& b.downstream@ == a.downstream@
                    &&& b.is_dirty == final(self).has_cycle
                },
            acyclic_map(old(self).nodes@) ==> settled(old(self).nodes@, totals(final(self).nodes@)),
    {
        let ghost m0 = self.nodes@;
        let keys = map_keys(&self.nodes);
        let n = keys.len();
        proof {
            assert(key_list(keys@, routes(m0)));
        }
        let mut own: Vec<u32> = Vec::new();
        let mut tot: Vec<u32> = Vec::new();
        let mut adj: Vec<Vec<usize>> = Vec::new();
        let mut missing = false;
        let mut i: usize = 0;
        while i < n
            invariant
                i <= n,
                n == keys.len(),
                self.nodes@ == m0,
                key_list(keys@, routes(m0)),
                own.len() == i,
                tot.len() == i,
                adj.len() == i,
                forall|x: int| 0 <= x < i ==> #[trigger] own@[x] == m0[keys@[x]].own_latency,
                forall|x: int| 0 <= x < i ==> #[trigger] tot@[x] == m0[keys@[x]].total_latency,
                forall|x: int, y: int|
                    0 <= x < i && 0 <= y < adj@[x].len() ==> #[trigger] adj@[x]@[y] < n,
                forall|x: int| 0 <= x < i ==> #[trigger] adj@[x]@.no_duplicates(),
                forall|x: int, j: int|
                    0 <= x < i && 0 <= j < n ==> (#[trigger] adj@[x]@.contains(j as usize)
                        == m0[keys@[x]].downstream@.contains(keys@[j])),
                missing == exists|x: int, y: int|
                    0 <= x < i && 0 <= y < m0[keys@[x]].downstream.len() && !keys@.contains(
                        #[trigger] m0[keys@[x]].downstream@[y],
                    ),
            decreases n - i,
        {
            let k = keys[i];
            proof {
                assert(keys@.contains(k));
            }
            let node = self.nodes.get(&k).unwrap();
            own.push(node.own_latency);
            tot.push(node.total_latency);
            let (row, miss) = downstream_indices(&keys, &node.downstream);
            adj.push(row);
            missing = missing || miss;
            i += 1;
        }
        let ghost g = model(&adj);
        proof {
            assert(index_graph(keys@, routes(m0), g)) by {
                assert forall|a: int, x: int| 0 <= a < g.len() && 0 <= x < g[a].len() implies #[trigger] g[a][x]
                    < keys.len() by {
                    assert(g[a] == adj@[a]@);
                }
                assert forall|a: int| 0 <= a < g.len() implies #[trigger] g[a].no_duplicates() by {
                    assert(g[a] == adj@[a]@);
                }
                assert forall|a: int, j: int| 0 <= a < keys.len() && 0 <= j < keys.len() implies (
                #[trigger] g[a].contains(j as usize) == routes(m0)[keys@[a]].contains(keys@[j])) by {
                    assert(g[a] == adj@[a]@);
                    assert(keys@.contains(keys@[a]));
                    assert(routes(m0)[keys@[a]] == m0[keys@[a]].downstream@);
                }
            }
            assert(missing == !all_known(m0)) by {
                if missing {
                    let (x, y) = choose|x: int, y: int|
                        0 <= x < n && 0 <= y < m0[keys@[x]].downstream.len() && !keys@.contains(
                            #[trigger] m0[keys@[x]].downstream@[y],
                        );
                    assert(keys@.contains(keys@[x]));
                    let a = keys@[x];
                    assert(routes(m0)[a] == m0[a].downstream@);
                    assert(!routes(m0).contains_key(routes(m0)[a][y]));
                }
                if !all_known(m0) {
                    let (a, y) = choose|a: u32, y: int|
                        routes(m0).contains_key(a) && 0 <= y < routes(m0)[a].len() && !routes(m0).contains_key(
                            #[trigger] routes(m0)[a][y],
                        );
                    let x = lemma_key_index(keys@, routes(m0), a);
                    assert(routes(m0)[a] == m0[a].downstream@);
                    assert(!keys@.contains(m0[keys@[x]].downstream@[y]));
                }
            }
            lemma_acyclic_transfer(keys@, routes(m0), g);
        }
        let order = kahn_order(&adj);
        let ghost tot0 = tot@;
        let mut t: usize = 0;
        proof {
            assert(order@.take(0) =~= Seq::<usize>::empty());
        }
        while t < order.len()
            invariant
                t <= order.len() <= n,
                n == keys.len(),
                g == model(&adj),
                adj.len() == n,
                index_graph(keys@, routes(m0), g),
                order@.no_duplicates(),
                forall|p: int| 0 <= p < order.len() ==> order[p] < n,
                forall|p: int, i: int|
                    0 <= p < order.len() && #[trigger] edge(g, i, order[p] as int) ==> exists|q: int|
                        0 <= q < p && order[q] == i,
                own.len() == n,
                tot.len() == n,
                tot0.len() == n,
                relaxed(g, own@, tot0, tot@, order@.take(t as int)),
            decreases order.len() - t,
        {
            let u = order[t];
            let ghost d0 = order@.take(t as int);
            let ghost d1 = order@.take(t + 1);
            proof {
                assert(d1 =~= d0.push(u));
                assert(!d0.contains(u)) by {
                    if d0.contains(u) {
                        let q = choose|q: int| 0 <= q < d0.len() && d0[q] == u;
                        assert(order[q] == order[t as int]);
                    }
                }
                assert forall|j: int| 0 <= j < tot.len() implies #[trigger] tot@[j] == tot0[j]
                    || exists|i: int| d1.contains(i as usize) && edge(g, i, j) && tot@[j] == sat_add(
                    tot@[i],
                    own@[j],
                ) by {
                    if tot@[j] != tot0[j] {
                        let i = choose|i: int|
                            d0.contains(i as usize) && edge(g, i, j) && tot@[j] == sat_add(tot@[i], own@[j]);
                        let q = choose|q: int| 0 <= q < d0.len() && d0[q] == i as usize;
                        assert(d1[q] == i as usize);
                    }
                }
            }
            let ghost start = tot@;
            let tu = tot[u];
            let row = &adj[u];
            let mut k: usize = 0;
            while k < row.len()
                invariant
                    k <= row.len(),
                    row@ == g[u as int],
                    u < n,
                    t < order.len() <= n,
                    u == order[t as int],
                    d0 == order@.take(t as int),
                    d1 == d0.push(u),
                    !d0.contains(u),
                    n == keys.len(),
                    g == model(&adj),
                    index_graph(keys@, routes(m0), g),
                    order@.no_duplicates(),
                    forall|p: int| 0 <= p < order.len() ==> order[p] < n,
                    forall|p: int, i: int|
                        0 <= p < order.len() && #[trigger] edge(g, i, order[p] as int) ==> exists|q: int|
                            0 <= q < p && order[q] == i,
                    own.len() == n,
                    tot.len() == n,
                    tot0.len() == n,
                    start.len() == n,
                    tu == tot@[u as int],
                    forall|i: int| 0 <= i < n && d1.contains(i as usize) ==> #[trigger] tot@[i] == start[i],
                    forall|j: int| 0 <= j < n ==> #[trigger] tot@[j] >= start[j],
                    forall|j: int| 0 <= j < n ==> #[trigger] start[j] >= tot0[j],
                    forall|i: int, j: int|
                        0 <= j < n && d0.contains(i as usize) && #[trigger] edge(g, i, j) ==> start[j]
                            >= sat_add(start[i], own@[j]),
                    forall|x: int| 0 <= x < k ==> #[trigger] tot@[g[u as int][x] as int] >= sat_add(tu, own@[g[u as int][x] as int]),
                    forall|j: int|
                        0 <= j < n ==> #[trigger] tot@[j] == tot0[j] || exists|i: int|
                            d1.contains(i as usize) && edge(g, i, j) && tot@[j] == sat_add(tot@[i], own@[j]),
                decreases row.len() - k,
            {
                let v = row[k];
                proof {
                    assert(g[u as int][k as int] == v);
                    assert(v < n);
                    assert(edge(g, u as int, v as int));
                    assert(!d1.contains(v)) by {
                        if d1.contains(v) {
                            let r = choose|r: int| 0 <= r < d1.len() && d1[r] == v;
                            assert(order[r] == v);
                            let q = choose|q: int| 0 <= q < r && order[q] == u;
                            assert(order[q] == order[t as int]);
                        }
                    }
                }
                let s = sat_add_exec(tu, own[v]);
                let cur = tot[v];
                let ghost before = tot@;
                if s > cur {
                    tot.set(v, s);
                }
                proof {
                    assert forall|j: int| 0 <= j < n implies #[trigger] tot@[j] == tot0[j] || exists|i: int|
                        d1.contains(i as usize) && edge(g, i, j) && tot@[j] == sat_add(tot@[i], own@[j]) by {
                        if j == v && s > cur {
                            assert(d1[t as int] == u);
                            assert(d1.contains(u));
                        } else if before[j] != tot0[j] {
                            let i = choose|i: int|
                                d1.contains(i as usize) && edge(g, i, j) && before[j] == sat_add(before[i], own@[j]);
                            assert(i != v);
                        }
                    }
                    assert forall|x: int| 0 <= x < k + 1 implies #[trigger] tot@[g[u as int][x] as int]
                        >= sat_add(tu, own@[g[u as int][x] as int]) by {
                    }
                }
                k += 1;
            }
            proof {
                assert(relaxed(g, own@, tot0, tot@, d1)) by {
                    assert forall|i: int, j: int|
                        0 <= j < tot.len() && d1.contains(i as usize) && #[trigger] edge(g, i, j) implies tot@[j]
                        >= sat_add(tot@[i], own@[j]) by {
                        let q = choose|q: int| 0 <= q < d1.len() && d1[q] == i as usize;
                        if q < t {
                            assert(d0[q] == i as usize);
                            assert(d0.contains(i as usize));
                            assert(i != u);
                            assert(tot@[i] == start[i]);
                        } else {
                            assert(i == u);
                            let x = choose|x: int| 0 <= x < g[i].len() && g[i][x] == j;
                            assert(tot@[g[u as int][x] as int] >= sat_add(tu, own@[g[u as int][x] as int]));
                        }
                    }
                }
                assert(order@.take(t + 1) == d1);
            }
            t += 1;
        }
        let cyc = missing || order.len() != n;
        self.has_cycle = cyc;
        let mut i: usize = 0;
        while i < n
            invariant
                i <= n,
                n == keys.len(),
                key_list(keys@, routes(m0)),
                tot.len() == n,
                self.has_cycle == cyc,
                self.nodes@.dom() == m0.dom(),
                forall|x: int|
                    0 <= x < i ==> {
                        let a = m0[keys@[x]];
                        let b = #[trigger] self.nodes@[keys@[x]];
                        &&& b.id == a.id
                        &&& b.own_latency == a.own_latency
                        &&& b.downstream@ == a.downstream@
                        &&& b.is_dirty == cyc
                        &&& b.total_latency == tot@[x]
                    },
                forall|x: int| i <= x < n ==> #[trigger] self.nodes@[keys@[x]] == m0[keys@[x]],
            decreases n - i,
        {
            let k = keys[i];
            proof {
                assert(keys@.contains(k));
            }
            let mut node = self.nodes.remove(&k).unwrap();
            node.total_latency = tot[i];
            node.is_dirty = cyc;
            self.nodes.insert(k, node);
            proof {
                assert forall|x: int| 0 <= x < n && x != i implies keys@[x] != k by {}
            }
            i += 1;
        }
        proof {
            let mf = self.nodes@;
            assert forall|k: u32| #[trigger] m0.contains_key(k) implies {
                let a = m0[k];
                let b = mf[k];
                &&& b.id == a.id
                &&& b.own_latency == a.own_latency
                &&& b.downstream@ == a.downstream@
                &&& b.is_dirty == cyc
            } by {
                let x = lemma_key_index(keys@, routes(m0), k);
            }
            if acyclic_map(m0) {
                assert(order.len() == n);
                assert forall|x: usize| x < n implies #[trigger] order@.take(n as int).contains(x) by {
                    assert(order@.take(n as int) =~= order@);
                }
                lemma_settle_transfer(keys@, m0, g, own@, tot0, tot@, order@.take(n as int), mf);
            }
        }
    }
}

impl TopologyOrchestrator {
    /// Audits the solved graph: no cycle, every node stored under its own
    /// id, totals at least the own latency, own latency below the maximum,
    /// and every route to another known node.
    pub fn audit_pdc_graph_solver(&self) -> (ok: bool)
        ensures
            ok == topology_ok(self),
    {
        if self.has_cycle {
            return false;
        }
        let keys = map_keys(&self.nodes);
        let mut i: usize = 0;
        while i < keys.len()
            invariant
                i <= keys.len(),
                !self.has_cycle,
                keys@.no_duplicates(),
                forall|k: u32| #[trigger] keys@.contains(k) <==> self.nodes@.contains_key(k),
                forall|x: int| 0 <= x < i ==> node_ok(self.nodes@, #[trigger] keys@[x]),
            decreases keys.len() - i,
        {
            let k = keys[i];
            proof {
                assert(keys@.contains(k));
            }
            let node = self.nodes.get(&k).unwrap();
            if node.id != k || node.total_latency < node.own_latency || node.own_latency == u32::MAX {
                return false;
            }
            let mut x: usize = 0;
            while x < node.downstream.len()
                invariant
                    x <= node.downstream.len(),
                    self.nodes@.contains_key(k),
                    self.nodes@[k] == *node,
                    forall|y: int|
                        0 <= y < x ==> self.nodes@.contains_key(#[trigger] node.downstream@[y])
                            && node.downstream@[y] != k,
                decreases node.downstream.len() - x,
            {
                let next = node.downstream[x];
                if !self.nodes.contains_key(&next) || next == k {
                    proof {
                        assert(node.downstream@[x as int] == next);
                        assert(!node_ok(self.nodes@, k));
                    }
                    return false;
                }
                x += 1;
            }
            i += 1;
        }
        proof {
            assert forall|k: u32| #[trigger] self.nodes@.contains_key(k) implies node_ok(self.nodes@, k) by {
                assert(keys@.contains(k));
                let x = choose|x: int| 0 <= x < keys.len() && keys@[x] == k;
                assert(node_ok(self.nodes@, keys@[x]));
            }
        }
        true
    }
}

/// The node stored under `k` passes the audit.
pub open spec fn node_ok(m: Map<u32, PdcNodeRust>, k: u32) -> bool {
    let n = m[k];
    &&& n.id == k
    &&& n.total_latency >= n.own_latency
    &&& n.own_latency < u32::MAX
    &&& forall|x: int|
        0 <= x < n.downstream.len() ==> m.contains_key(#[trigger] n.downstream@[x]) && n.downstream@[x] != k
}

fn sat_add_exec(a: u32, b: u32) -> (r: u32)
    ensures
        r == sat_add(a, b),
{
    if a > u32::MAX - b {
        u32::MAX
    } else {
        a + b
    }
}

} // verus!
