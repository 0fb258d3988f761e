//! Project latency solver over an id-keyed node map owned by the caller.
//!
//! A valid graph routes only to known ids and has no cycle.  Solving gives
//! every node its longest-path latency: its own latency raised to each
//! downstream node's solved total plus its own latency, worked from the
//! last nodes of the routing order back to the first, so that one solve
//! reaches the fixed point the latency audit checks.  The project latency is
//! the largest total.  An invalid graph, or a total that does not fit in
//! `u32`, zeroes every total and sets `has_cycle`.
use std::collections::HashMap;
use vstd::prelude::*;
use crate::graph::{acyclic, edge, kahn_order, model};
use crate::idgraph::{
    downstream_indices, id_acyclic, id_all_known, index_graph, key_list, lemma_acyclic_transfer,
    lemma_key_index,
};
use crate::keys::map_keys;
use crate::pdc::max_u32;

verus! {

broadcast use vstd::std_specs::hash::group_hash_axioms;

pub struct PdcNodeRust {
    pub id: u32,
    pub own_latency: u32,
    pub total_latency: u32,
    pub downstream: Vec<u32>,
}

pub struct PdcOrchestrator {
    pub global_project_latency: u32,
    pub has_cycle: bool,
}

/// The routes of a map of nodes: each id to its downstream ids.
pub open spec fn routes(m: Map<u32, PdcNodeRust>) -> Map<u32, Seq<u32>> {
    m.map_values(|n: PdcNodeRust| n.downstream@)
}

/// The totals of a map of nodes.
pub open spec fn totals(m: Map<u32, PdcNodeRust>) -> Map<u32, u32> {
    m.map_values(|n: PdcNodeRust| n.total_latency)
}

/// The value the totals `t` give a node `k` with latency `own` and
/// downstream ids `ds`: its own latency raised to each downstream total
/// plus its own latency; `None` when a route is to itself, to an id
/// without a total, or overflows.
pub open spec fn eq_value(t: Map<u32, u32>, k: u32, own: u32, ds: Seq<u32>) -> Option<u32>
    decreases ds.len(),
{
    if ds.len() == 0 {
        Some(own)
    } else {
        match eq_value(t, k, own, ds.drop_last()) {
            None => None,
            Some(c) => {
                let d = ds.last();
                if d == k || !t.contains_key(d) || t[d] + own > u32::MAX {
                    None
                } else {
                    Some(max_u32(c, (t[d] + own) as u32))
                }
            },
        }
    }
}

/// `t` gives every node of `m` a total that its downstream totals
/// reproduce: the longest-path latencies.
pub open spec fn fixed_point(m: Map<u32, PdcNodeRust>, t: Map<u32, u32>) -> bool {
    &&& t.dom() == m.dom()
    &&& forall|k: u32| #[trigger] m.contains_key(k) ==> eq_value(t, k, m[k].own_latency, m[k].downstream@) == Some(t[k])
}

/// The graph can be solved: known routes, no cycle, and longest-path
/// totals that fit in `u32`.
pub open spec fn solvable(m: Map<u32, PdcNodeRust>) -> bool {
    &&& id_all_known(routes(m))
    &&& id_acyclic(routes(m))
    &&& exists|t: Map<u32, u32>| fixed_point(m, t)
}

/// The recomputed value a node must hold to pass the audit (see
/// `eq_value`), over the stored totals.
pub open spec fn audit_value(m: Map<u32, PdcNodeRust>, k: u32, own: u32, ds: Seq<u32>) -> Option<u32> {
    eq_value(totals(m), k, own, ds)
}

/// The node stored under `k` is consistent with its neighbours.
pub open spec fn node_consistent(m: Map<u32, PdcNodeRust>, k: u32) -> bool {
    let n = m[k];
    &&& n.id == k
    &&& n.total_latency >= n.own_latency
    &&& audit_value(m, k, n.own_latency, n.downstream@) == Some(n.total_latency)
}

/// `g` is the largest total of the map (0 for an empty map).
pub open spec fn is_max_total(m: Map<u32, PdcNodeRust>, g: u32) -> bool {
    &&& forall|k: u32| #[trigger] m.contains_key(k) ==> m[k].total_latency <= g
    &&& (g == 0 || exists|k: u32| m.contains_key(k) && m[k].total_latency == g)
}

/// What `audit_pdc_graph_solver` accepts.
pub open spec fn solver_audit_ok(o: &PdcOrchestrator, m: Map<u32, PdcNodeRust>) -> bool {
    if o.has_cycle || m.dom().len() == 0 {
        m.dom().len() == 0 && !o.has_cycle && o.global_project_latency == 0
    } else {
        &&& is_max_total(m, o.global_project_latency)
        &&& forall|k: u32| #[trigger] m.contains_key(k) ==> node_consistent(m, k)
    }
}

/// The audit value of a node, computed from the map.
fn audit_value_exec(m: &HashMap<u32, PdcNodeRust>, k: u32, own: u32, ds: &Vec<u32>) -> (r: Option<u32>)
    ensures
        r == audit_value(m@, k, own, ds@),
{
    let mut c: u32 = own;
    let mut i: usize = 0;
    while i < ds.len()
        invariant
            i <= ds.len(),
            audit_value(m@, k, own, ds@.take(i as int)) == Some(c),
        decreases ds.len() - i,
    {
        proof {
            assert(ds@.take(i + 1).drop_last() =~= ds@.take(i as int));
        }
        let d = ds[i];
        if d == k {
            proof {
                lemma_audit_none(m@, k, own, ds@, i + 1);
            }
            return None;
        }
        match m.get(&d) {
            Some(node) => {
                let t = node.total_latency;
                if t > u32::MAX - own {
                    proof {
                        lemma_audit_none(m@, k, own, ds@, i + 1);
                    }
                    return None;
                }
                let s = t + own;
                if s > c {
                    c = s;
                }
            },
            None => {
                proof {
                    lemma_audit_none(m@, k, own, ds@, i + 1);
                }
                return None;
            },
        }
        i += 1;
    }
    proof {
        assert(ds@.take(ds.len() as int) =~= ds@);
    }
    Some(c)
}

proof fn lemma_audit_none(m: Map<u32, PdcNodeRust>, k: u32, own: u32, ds: Seq<u32>, i: int)
    requires
        0 <= i <= ds.len(),
        audit_value(m, k, own, ds.take(i)) is None,
    ensures
        audit_value(m, k, own, ds) is None,
    decreases ds.len() - i,
{
    if i < ds.len() {
        assert(ds.take(i + 1).drop_last() =~= ds.take(i));
        lemma_audit_none(m, k, own, ds, i + 1);
    } else {
        assert(ds.take(i) =~= ds);
    }
}

/// Stores `vals[x]` as the total of the node under `keys[x]`.
fn store_totals(m: &mut HashMap<u32, PdcNodeRust>, keys: &Vec<u32>, vals: &Vec<u32>)
    requires
        keys@.no_duplicates(),
        forall|k: u32| #[trigger] keys@.contains(k) <==> old(m)@.contains_key(k),
        vals.len() == keys.len(),
    ensures
        final(m)@.dom() == old(m)@.dom(),
        forall|x: int|
            0 <= x < keys.len() ==> {
                let a = old(m)@[keys@[x]];
                let b = #[trigger] final(m)@[keys@[x]];
                &&& b.id == a.id
                &&& b.own_latency == a.own_latency
                &&& b.downstream@ == a.downstream@
                &&& b.total_latency == vals@[x]
            },
{
    let ghost m0 = m@;
    let mut i: usize = 0;
    while i < keys.len()
        invariant
            i <= keys.len(),
            vals.len() == keys.len(),
            keys@.no_duplicates(),
            forall|k: u32| #[trigger] keys@.contains(k) <==> m0.contains_key(k),
            m@.dom() == m0.dom(),
            forall|x: int|
                0 <= x < i ==> {
                    let a = m0[keys@[x]];
                    let b = #[trigger] m@[keys@[x]];
                    &&& b.id == a.id
                    &&& b.own_latency == a.own_latency
                    &&& b.downstream@ == a.downstream@
                    &&& b.total_latency == vals@[x]
                },
            forall|x: int| i <= x < keys.len() ==> #[trigger] m@[keys@[x]] == m0[keys@[x]],
        decreases keys.len() - i,
    {
        let k = keys[i];
        proof {
            assert(keys@.contains(k));
        }
        let mut node = m.remove(&k).unwrap();
        node.total_latency = vals[i];
        m.insert(k, node);
        proof {
            assert forall|x: int| 0 <= x < keys.len() && x != i implies keys@[x] != k by {}
        }
        i += 1;
    }
}

fn zeros(n: usize) -> (r: Vec<u32>)
    ensures
        r.len() == n,
        forall|i: int| 0 <= i < n ==> r@[i] == 0,
{
    let mut r: Vec<u32> = Vec::new();
    let mut i: usize = 0;
    while i < n
        invariant
            i <= n,
            r.len() == i,
            forall|x: int| 0 <= x < i ==> r@[x] == 0,
        decreases n - i,
    {
        r.push(0);
        i += 1;
    }
    r
}

impl PdcOrchestrator {
    pub fn new() -> (r: Self)
        ensures
            r.global_project_latency == 0,
            !r.has_cycle,
    {
        PdcOrchestrator { global_project_latency: 0, has_cycle: false }
    }

    /// Solves the graph (see the module documentation): on a solvable
    /// graph every total becomes the node's longest-path latency, the only
    /// totals that reproduce themselves, and the audit then holds when each
    /// node is stored under its own id.
    pub fn solve(&mut self, nodes: &mut HashMap<u32, PdcNodeRust>)
        ensures
            final(self).has_cycle == !solvable(old(nodes)@),
            final(nodes)@.dom() == old(nodes)@.dom(),
            forall|k: u32|
                #[trigger] old(nodes)@.contains_key(k) ==> {
                    let a = old(nodes)@[k];
                    let b = final(nodes)@[k];
                    &&& b.id == a.id
                    &&& b.own_latency == a.own_latency
                    &&& b.downstream@ == a.downstream@
                    &&& !solvable(old(nodes)@) ==> b.total_latency == 0
                },
            !solvable(old(nodes)@) ==> final(self).global_project_latency == 0,
            solvable(old(nodes)@) ==> fixed_point(old(nodes)@, totals(final(nodes)@)),
            solvable(old(nodes)@) ==> forall|t: Map<u32, u32>|
                fixed_point(old(nodes)@, t) ==> t == totals(final(nodes)@),
            solvable(old(nodes)@) ==> is_max_total(final(nodes)@, final(self).global_project_latency),
            solvable(old(nodes)@) && (forall|k: u32| #[trigger] old(nodes)@.contains_key(k) ==> old(nodes)@[k].id
                == k) ==> solver_audit_ok(final(self), final(nodes)@),
    {
        let ghost m0 = nodes@;
        self.global_project_latency = 0;
        self.has_cycle = false;
        let keys = map_keys(nodes);
        let n = keys.len();
        proof {
            assert(key_list(keys@, routes(m0)));
        }
        let mut adj: Vec<Vec<usize>> = Vec::new();
        let mut missing = false;
        let mut i: usize = 0;
        while i < n
            invariant
                i <= n,
                n == keys.len(),
                nodes@ == m0,
                key_list(keys@, routes(m0)),
                adj.len() == i,
                forall|x: int, y: int|
                    0 <= x < i && 0 <= y < adj@[x].len() ==> #[trigger] adj@[x]@[y] < n,
                forall|x: int| 0 <= x < i ==> #[trigger] adj@[x]@.no_duplicates(),
                forall|x: int, j: int|
                    0 <= x < i && 0 <= j < n ==> (#[trigger] adj@[x]@.contains(j as usize)
                        == m0[keys@[x]].downstream@.contains(keys@[j])),
                missing == exists|x: int, y: int|
                    0 <= x < i && 0 <= y < m0[keys@[x]].downstream.len() && !keys@.contains(
                        #[trigger] m0[keys@[x]].downstream@[y],
                    ),
            decreases n - i,
        {
            let k = keys[i];
            proof {
                assert(keys@.contains(k));
            }
            let node = nodes.get(&k).unwrap();
            let (row, miss) = downstream_indices(&keys, &node.downstream);
            adj.push(row);
            missing = missing || miss;
            i += 1;
        }
        let ghost g = model(&adj);
        proof {
            assert(index_graph(keys@, routes(m0), g)) by {
                assert forall|a: int, x: int| 0 <= a < g.len() && 0 <= x < g[a].len() implies #[trigger] g[a][x]
                    < keys.len() by {
                    assert(g[a] == adj@[a]@);
                }
                assert forall|a: int| 0 <= a < g.len() implies #[trigger] g[a].no_duplicates() by {
                    assert(g[a] == adj@[a]@);
                }
                assert forall|a: int, j: int| 0 <= a < keys.len() && 0 <= j < keys.len() implies (
                #[trigger] g[a].contains(j as usize) == routes(m0)[keys@[a]].contains(keys@[j])) by {
                    assert(g[a] == adj@[a]@);
                    assert(keys@.contains(keys@[a]));
                    assert(routes(m0)[keys@[a]] == m0[keys@[a]].downstream@);
                }
            }
            assert(missing == !id_all_known(routes(m0))) by {
                if missing {
                    let (x, y) = choose|x: int, y: int|
                        0 <= x < n && 0 <= y < m0[keys@[x]].downstream.len() && !keys@.contains(
                            #[trigger] m0[keys@[x]].downstream@[y],
                        );
                    assert(keys@.contains(keys@[x]));
                    let a = keys@[x];
                    assert(routes(m0)[a] == m0[a].downstream@);
                    assert(!routes(m0).contains_key(routes(m0)[a][y]));
                }
                if !id_all_known(routes(m0)) {
                    let (a, y) = choose|a: u32, y: int|
                        routes(m0).contains_key(a) && 0 <= y < routes(m0)[a].len()
                            && !routes(m0).contains_key(#[trigger] routes(m0)[a][y]);
                    let x = lemma_key_index(keys@, routes(m0), a);
                    assert(routes(m0)[a] == m0[a].downstream@);
                    assert(!keys@.contains(m0[keys@[x]].downstream@[y]));
                }
            }
            lemma_acyclic_transfer(keys@, routes(m0), g);
        }
        if missing {
            self.has_cycle = true;
            let z = zeros(n);
            store_totals(nodes, &keys, &z);
            proof {
                lemma_zeroed(keys@, m0, nodes@, z@);
            }
            return;
        }
        let order = kahn_order(&adj);
        if order.len() != n {
            self.has_cycle = true;
            let z = zeros(n);
            store_totals(nodes, &keys, &z);
            proof {
                lemma_zeroed(keys@, m0, nodes@, z@);
            }
            return;
        }
        // longest-path totals, from the last node of the order back
        let mut vals: Vec<u32> = zeros(n);
        let ghost mut tv: Map<u32, u32> = Map::empty();
        let mut r: usize = 0;
        while r < n
            invariant
                r <= n,
                n == keys.len(),
                n == order.len(),
                nodes@ == m0,
                m0 == old(nodes)@,
                key_list(keys@, routes(m0)),
                index_graph(keys@, routes(m0), g),
                id_all_known(routes(m0)),
                g == model(&adj),
                order@.no_duplicates(),
                forall|q: int| 0 <= q < n ==> order@[q] < n,
                forall|q: int, i2: int|
                    0 <= q < n && #[trigger] edge(g, i2, order@[q] as int) ==> exists|q2: int|
                        0 <= q2 < q && order@[q2] == i2,
                vals.len() == n,
                forall|k: u32| #[trigger] tv.contains_key(k) ==> m0.contains_key(k),
                forall|q: int| n - r <= q < n ==> #[trigger] tv.contains_key(keys@[order@[q] as int]),
                forall|q: int| n - r <= q < n ==> tv[keys@[order@[q] as int]] == #[trigger] vals@[order@[q] as int],
                forall|k: u32| #[trigger] tv.contains_key(k) ==> exists|q: int|
                    n - r <= q < n && keys@[order@[q] as int] == k,
                forall|k: u32|
                    #[trigger] tv.contains_key(k) ==> eq_value(tv, k, m0[k].own_latency, m0[k].downstream@) == Some(
                        tv[k],
                    ),
                forall|t: Map<u32, u32>, k: u32|
                    #[trigger] fixed_point(m0, t) && #[trigger] tv.contains_key(k) ==> t[k] == tv[k],
                !self.has_cycle,
                self.global_project_latency == 0,
            decreases n - r,
        {
            let p = n - 1 - r;
            let x = order[p];
            let k = keys[x];
            proof {
                assert(keys@.contains(k));
                assert(!tv.contains_key(k)) by {
                    if tv.contains_key(k) {
                        let q = choose|q: int| n - r <= q < n && keys@[order@[q] as int] == k;
                        assert(keys@[order@[q] as int] == keys@[x as int]);
                        assert(order@[q] == order@[p as int]);
                    }
                }
            }
            let node = nodes.get(&k).unwrap();
            let own = node.own_latency;
            let ds = &node.downstream;
            let mut c: u32 = own;
            let mut i: usize = 0;
            while i < ds.len()
                invariant
                    i <= ds.len(),
                    n == keys.len(),
                    n == order.len(),
                    nodes@ == m0,
                    m0 == old(nodes)@,
                    !self.has_cycle,
                    self.global_project_latency == 0,
                    p < n,
                    x == order@[p as int],
                    x < n,
                    k == keys@[x as int],
                    m0.contains_key(k),
                    ds@ == m0[k].downstream@,
                    own == m0[k].own_latency,
                    key_list(keys@, routes(m0)),
                    index_graph(keys@, routes(m0), g),
                    id_all_known(routes(m0)),
                    order@.no_duplicates(),
                    forall|q: int| 0 <= q < n ==> order@[q] < n,
                    forall|q: int, i2: int|
                        0 <= q < n && #[trigger] edge(g, i2, order@[q] as int) ==> exists|q2: int|
                            0 <= q2 < q && order@[q2] == i2,
                    vals.len() == n,
                    p == n - 1 - r,
                    forall|q: int| n - r <= q < n ==> #[trigger] tv.contains_key(keys@[order@[q] as int]),
                    forall|q: int| n - r <= q < n ==> tv[keys@[order@[q] as int]] == #[trigger] vals@[order@[q] as int],
                    forall|t: Map<u32, u32>, k2: u32|
                        #[trigger] fixed_point(m0, t) && #[trigger] tv.contains_key(k2) ==> t[k2] == tv[k2],
                    eq_value(tv, k, own, ds@.take(i as int)) == Some(c),
                    forall|t: Map<u32, u32>|
                        fixed_point(m0, t) ==> eq_value(t, k, own, ds@.take(i as int)) == Some(c),
                decreases ds.len() - i,
            {
                let d = ds[i];
                proof {
                    assert(ds@.take(i + 1).drop_last() =~= ds@.take(i as int));
                    assert(ds@.take(i + 1).last() == d);
                    assert(routes(m0)[k] == m0[k].downstream@);
                    assert(routes(m0).contains_key(d));
                    assert(keys@.contains(d));
                }
                let j = key_position(&keys, d);
                proof {
                    // `d` comes after `k` in the order, so it is solved already
                    assert(routes(m0)[keys@[x as int]].contains(keys@[j as int]));
                    assert(g[x as int].contains(j as usize));
                    let e = choose|e: int| 0 <= e < g[x as int].len() && g[x as int][e] == j as usize;
                    assert(edge(g, x as int, j as int));
                    assert(order@.contains(j)) by {
                        lemma_all_in_order(order@, n as int, j as int);
                    }
                    let pj = choose|pj: int| 0 <= pj < n && order@[pj] == j;
                    assert(edge(g, x as int, order@[pj] as int));
                    let q2 = choose|q2: int| 0 <= q2 < pj && order@[q2] == x;
                    assert(q2 == p);
                    assert(tv.contains_key(keys@[order@[pj] as int]));
                    assert(d != k) by {
                        if d == k {
                            assert(j == x);
                            assert(order@[pj] == order@[p as int]);
                        }
                    }
                    assert(tv[d] == vals@[j as int]);
                }
                let v = vals[j];
                if v > u32::MAX - own {
                    proof {
                        lemma_eq_none(tv, k, own, ds@, i + 1);
                        assert forall|t: Map<u32, u32>| fixed_point(m0, t) implies false by {
                            assert(t[d] == tv[d]);
                            assert(eq_value(t, k, own, ds@.take(i + 1)) is None);
                            lemma_eq_none(t, k, own, ds@, i + 1);
                            assert(eq_value(t, k, m0[k].own_latency, m0[k].downstream@) is Some);
                        }
                    }
                    self.has_cycle = true;
                    let z = zeros(n);
                    store_totals(nodes, &keys, &z);
                    proof {
                        lemma_zeroed(keys@, m0, nodes@, z@);
                    }
                    return;
                }
                if v + own > c {
                    c = v + own;
                }
                proof {
                    assert forall|t: Map<u32, u32>| fixed_point(m0, t) implies eq_value(t, k, own, ds@.take(i + 1))
                        == Some(c) by {
                        assert(t.dom() == m0.dom());
                        assert(t[d] == tv[d]);
                    }
                }
                i += 1;
            }
            proof {
                assert(ds@.take(ds.len() as int) =~= ds@);
            }
            let ghost tv0 = tv;
            vals.set(x, c);
            proof {
                tv = tv.insert(k, c);
                assert forall|k2: u32| #[trigger] tv.contains_key(k2) implies eq_value(
                    tv,
                    k2,
                    m0[k2].own_latency,
                    m0[k2].downstream@,
                ) == Some(tv[k2]) by {
                    if k2 == k {
                        lemma_eq_extend(tv0, k, c, k2, own, ds@);
                    } else {
                        lemma_eq_extend(tv0, k, c, k2, m0[k2].own_latency, m0[k2].downstream@);
                    }
                }
                assert forall|q: int| n - (r + 1) <= q < n implies #[trigger] tv.contains_key(keys@[order@[q] as int]) by {}
                assert forall|q: int| n - (r + 1) <= q < n implies tv[keys@[order@[q] as int]] == #[trigger] vals@[order@[q] as int] by {
                    if q != p {
                        assert(order@[q] != order@[p as int]);
                        assert(keys@[order@[q] as int] != keys@[x as int]) by {
                            assert(keys@.no_duplicates());
                        }
                    }
                }
                assert forall|k2: u32| #[trigger] tv.contains_key(k2) implies exists|q: int|
                    n - (r + 1) <= q < n && keys@[order@[q] as int] == k2 by {
                    if k2 == k {
                        assert(keys@[order@[p as int] as int] == k2);
                    } else {
                        let q = choose|q: int| n - r <= q < n && keys@[order@[q] as int] == k2;
                    }
                }
                assert forall|t: Map<u32, u32>, k2: u32| #[trigger] fixed_point(m0, t) && #[trigger] tv.contains_key(k2) implies t[k2] == tv[k2] by {
                    if k2 == k {
                        assert(eq_value(t, k, m0[k].own_latency, m0[k].downstream@) == Some(t[k]));
                    }
                }
            }
            r += 1;
        }
        // every node is solved
        proof {
            assert forall|k: u32| #[trigger] m0.contains_key(k) implies tv.contains_key(k) by {
                let x = lemma_key_index(keys@, routes(m0), k);
                lemma_all_in_order(order@, n as int, x);
                let q = choose|q: int| 0 <= q < n && order@[q] == x as usize;
                assert(tv.contains_key(keys@[order@[q] as int]));
            }
            assert(tv.dom() =~= m0.dom());
            assert(fixed_point(m0, tv));
            assert forall|x: int| 0 <= x < n implies Some(#[trigger] vals@[x]) == tv.get(keys@[x]) by {
                lemma_all_in_order(order@, n as int, x);
                let q = choose|q: int| 0 <= q < n && order@[q] == x as usize;
                assert(tv[keys@[order@[q] as int]] == vals@[order@[q] as int]);
            }
        }
        let mut top: u32 = 0;
        let mut i: usize = 0;
        while i < n
            invariant
                i <= n,
                vals.len() == n,
                forall|x: int| 0 <= x < i ==> #[trigger] vals@[x] <= top,
                top == 0 || exists|x: int| 0 <= x < i && vals@[x] == top,
            decreases n - i,
        {
            if vals[i] > top {
                top = vals[i];
            }
            i += 1;
        }
        store_totals(nodes, &keys, &vals);
        self.global_project_latency = top;
        proof {
            let mf = nodes@;
            assert(solvable(m0));
            assert forall|k: u32| #[trigger] m0.contains_key(k) implies {
                let a = m0[k];
                let b = mf[k];
                &&& b.id == a.id
                &&& b.own_latency == a.own_latency
                &&& b.downstream@ == a.downstream@
                &&& b.total_latency == tv[k]
            } by {
                let x = lemma_key_index(keys@, routes(m0), k);
                assert(mf[keys@[x]].total_latency == vals@[x]);
                assert(Some(vals@[x]) == tv.get(keys@[x]));
            }
            assert(totals(mf) =~= tv);
            assert forall|t: Map<u32, u32>| fixed_point(m0, t) implies t == totals(mf) by {
                assert forall|k: u32| t.contains_key(k) <==> tv.contains_key(k) by {}
                assert forall|k: u32| #[trigger] t.contains_key(k) implies t[k] == tv[k] by {}
                assert(t =~= tv);
            }
            assert forall|k: u32| #[trigger] mf.contains_key(k) implies mf[k].total_latency <= top by {
                let x = lemma_key_index(keys@, routes(m0), k);
                assert(mf[keys@[x]].total_latency == vals@[x]);
            }
            if top != 0 {
                let x = choose|x: int| 0 <= x < n && vals@[x] == top;
                assert(keys@.contains(keys@[x]));
                assert(mf[keys@[x]].total_latency == top);
                assert(mf.contains_key(keys@[x]));
            }
            if forall|k: u32| #[trigger] m0.contains_key(k) ==> m0[k].id == k {
                assert forall|k: u32| #[trigger] mf.contains_key(k) implies node_consistent(mf, k) by {
                    assert(eq_value(tv, k, m0[k].own_latency, m0[k].downstream@) == Some(tv[k]));
                    lemma_eq_at_least(tv, k, m0[k].own_latency, m0[k].downstream@);
                }
                if mf.dom().len() == 0 {
                    assert(n == 0) by {
                        if n > 0 {
                            assert(keys@.contains(keys@[0]));
                            assert(mf.dom().contains(keys@[0]));
                        }
                    }
                }
            }
        }
    }

    /// Audits the solved nodes: a cycle or an empty map passes only as
    /// the empty, acyclic, zero-latency state; otherwise the project
    /// latency is the largest total and every node is consistent.
    pub fn audit_pdc_graph_solver(&self, nodes: &HashMap<u32, PdcNodeRust>) -> (ok: bool)
        ensures
            ok == solver_audit_ok(self, nodes@),
    {
        if self.has_cycle || nodes.is_empty() {
            proof {
                if nodes@.is_empty() {
                    assert(nodes@.dom() =~= Set::<u32>::empty());
                }
                if nodes@.dom().len() == 0 {
                    assert(nodes@.dom() =~= Set::<u32>::empty());
                }
            }
            return nodes.is_empty() && !self.has_cycle && self.global_project_latency == 0;
        }
        let keys = map_keys(nodes);
        let mut top: u32 = 0;
        let mut i: usize = 0;
        while i < keys.len()
            invariant
                i <= keys.len(),
                keys@.no_duplicates(),
                forall|k: u32| #[trigger] keys@.contains(k) <==> nodes@.contains_key(k),
                forall|x: int| 0 <= x < i ==> nodes@[keys@[x]].total_latency <= top,
                top == 0 || exists|x: int| 0 <= x < i && nodes@[keys@[x]].total_latency == top,
            decreases keys.len() - i,
        {
            let k = keys[i];
            proof {
                assert(keys@.contains(k));
            }
            let t = nodes.get(&k).unwrap().total_latency;
            if t > top {
                top = t;
            }
            i += 1;
        }
        proof {
            assert(nodes@.dom().len() > 0) by {
                if nodes@.dom().len() == 0 {
                    assert(nodes@.dom() =~= Set::<u32>::empty());
                }
            }
        }
        if top != self.global_project_latency {
            proof {
                if is_max_total(nodes@, self.global_project_latency) {
                    let g = self.global_project_latency;
                    if top != 0 {
                        let x = choose|x: int| 0 <= x < keys.len() && nodes@[keys@[x]].total_latency == top;
                        assert(keys@.contains(keys@[x]));
                    }
                    if g != 0 {
                        let k = choose|k: u32| nodes@.contains_key(k) && nodes@[k].total_latency == g;
                        assert(keys@.contains(k));
                        let x = choose|x: int| 0 <= x < keys.len() && keys@[x] == k;
                    }
                }
            }
            return false;
        }
        let mut i: usize = 0;
        while i < keys.len()
            invariant
                i <= keys.len(),
                keys@.no_duplicates(),
                forall|k: u32| #[trigger] keys@.contains(k) <==> nodes@.contains_key(k),
                forall|x: int| 0 <= x < i ==> node_consistent(nodes@, #[trigger] keys@[x]),
            decreases keys.len() - i,
        {
            let k = keys[i];
            proof {
                assert(keys@.contains(k));
            }
            let node = nodes.get(&k).unwrap();
            if node.id != k || node.total_latency < node.own_latency {
                return false;
            }
            match audit_value_exec(nodes, k, node.own_latency, &node.downstream) {
                Some(v) => {
                    if v != node.total_latency {
                        return false;
                    }
                },
                None => {
                    return false;
                },
            }
            i += 1;
        }
        proof {
            assert forall|k: u32| #[trigger] nodes@.contains_key(k) implies node_consistent(nodes@, k) by {
                assert(keys@.contains(k));
                let x = choose|x: int| 0 <= x < keys.len() && keys@[x] == k;
                assert(node_consistent(nodes@, keys@[x]));
            }
            assert forall|k: u32| #[trigger] nodes@.contains_key(k) implies nodes@[k].total_latency
                <= top by {
                assert(keys@.contains(k));
                let x = choose|x: int| 0 <= x < keys.len() && keys@[x] == k;
            }
            if top != 0 {
                let x = choose|x: int| 0 <= x < keys.len() && nodes@[keys@[x]].total_latency == top;
                assert(keys@.contains(keys@[x]));
            }
        }
        true
    }
}

proof fn lemma_zeroed(keys: Seq<u32>, m0: Map<u32, PdcNodeRust>, mf: Map<u32, PdcNodeRust>, vals: Seq<u32>)
    requires
        key_list(keys, routes(m0)),
        vals.len() == keys.len(),
        mf.dom() == m0.dom(),
        forall|x: int|
            0 <= x < keys.len() ==> {
                let a = m0[keys[x]];
                let b = #[trigger] mf[keys[x]];
                &&& b.id == a.id
                &&& b.own_latency == a.own_latency
                &&& b.downstream@ == a.downstream@
                &&& b.total_latency == vals[x]
            },
        forall|x: int| 0 <= x < keys.len() ==> vals[x] == 0,
    ensures
        forall|k: u32|
            #[trigger] m0.contains_key(k) ==> {
                let a = m0[k];
                let b = mf[k];
                &&& b.id == a.id
                &&& b.own_latency == a.own_latency
                &&& b.downstream@ == a.downstream@
                &&& b.total_latency == 0
            },
{
    assert forall|k: u32| #[trigger] m0.contains_key(k) implies {
        let a = m0[k];
        let b = mf[k];
        &&& b.id == a.id
        &&& b.own_latency == a.own_latency
        &&& b.downstream@ == a.downstream@
        &&& b.total_latency == 0
    } by {
        let x = lemma_key_index(keys, routes(m0), k);
        assert(mf[keys[x]].total_latency == vals[x]);
    }
}

proof fn lemma_eq_none(t: Map<u32, u32>, k: u32, own: u32, ds: Seq<u32>, i: int)
    requires
        0 <= i <= ds.len(),
        eq_value(t, k, own, ds.take(i)) is None,
    ensures
        eq_value(t, k, own, ds) is None,
    decreases ds.len() - i,
{
    if i < ds.len() {
        assert(ds.take(i + 1).drop_last() =~= ds.take(i));
        lemma_eq_none(t, k, own, ds, i + 1);
    } else {
        assert(ds.take(i) =~= ds);
    }
}

proof fn lemma_eq_at_least(t: Map<u32, u32>, k: u32, own: u32, ds: Seq<u32>)
    ensures
        eq_value(t, k, own, ds) matches Some(v) ==> v >= own,
    decreases ds.len(),
{
    if ds.len() > 0 {
        lemma_eq_at_least(t, k, own, ds.drop_last());
    }
}

/// A total stored for an id outside the downstream ids changes nothing.
proof fn lemma_eq_extend(t: Map<u32, u32>, a: u32, c: u32, k: u32, own: u32, ds: Seq<u32>)
    requires
        !t.contains_key(a),
        eq_value(t, k, own, ds) is Some,
    ensures
        eq_value(t.insert(a, c), k, own, ds) == eq_value(t, k, own, ds),
    decreases ds.len(),
{
    if ds.len() > 0 {
        lemma_eq_extend(t, a, c, k, own, ds.drop_last());
    }
}

/// Every position of a full order holds one of its indices.
proof fn lemma_all_in_order(order: Seq<usize>, n: int, x: int)
    requires
        0 <= x < n <= usize::MAX,
        order.len() == n,
        order.no_duplicates(),
        forall|q: int| 0 <= q < n ==> order[q] < n,
    ensures
        order.contains(x as usize),
{
    if !order.contains(x as usize) {
        let xs = order.map_values(|v: usize| v as int);
        assert(xs.no_duplicates()) by {
            assert forall|a: int, b: int| 0 <= a < xs.len() && 0 <= b < xs.len() && a != b implies xs[a] != xs[b] by {
                assert(order[a] != order[b]);
            }
        }
        xs.unique_seq_to_set();
        vstd::set_lib::lemma_int_range(0, n);
        let s = vstd::set_lib::set_int_range(0, n).remove(x);
        assert(xs.to_set().subset_of(s)) by {
            assert forall|y: int| xs.to_set().contains(y) implies s.contains(y) by {
                let q = choose|q: int| 0 <= q < xs.len() && xs[q] == y;
                assert(order[q] < n);
                assert(order[q] != x as usize);
            }
        }
        vstd::set_lib::lemma_len_subset(xs.to_set(), s);
    }
}

/// Where `d` stands among the keys.
fn key_position(keys: &Vec<u32>, d: u32) -> (j: usize)
    requires
        keys@.contains(d),
    ensures
        j < keys.len(),
        keys@[j as int] == d,
{
    let mut j: usize = 0;
    while j < keys.len()
        invariant
            j <= keys.len(),
            keys@.contains(d),
            forall|x: int| 0 <= x < j ==> keys@[x] != d,
        decreases keys.len() - j,
    {
        if keys[j] == d {
            return j;
        }
        j += 1;
    }
    proof {
        let x = choose|x: int| 0 <= x < keys.len() && keys@[x] == d;
    }
    0
}

} // verus!
