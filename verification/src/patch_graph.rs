//! A modular patch grid: nodes connected by patches from an output port
//! of one node to an input port of another.
use vstd::prelude::*;
use crate::graph::{acyclic, edge, edge_count, is_rank, model, total, wf};
use crate::stack_order::{kahn_stack, stack_order};
use crate::sorting::is_perm;
use crate::text::{blank, copy_str, is_blank};

verus! {

pub struct Patch {
    pub from_node: u32,
    pub from_port: u32,
    pub to_node: u32,
    pub to_port: u32,
}

pub struct NodeInfo {
    pub id: u32,
    pub node_type: String,
}

pub struct GridOrchestrator {
    pub nodes: Vec<NodeInfo>,
    pub patches: Vec<Patch>,
}

/// The ids of the nodes, in order.
pub open spec fn node_ids(nodes: Seq<NodeInfo>) -> Seq<u32> {
    nodes.map_values(|n: NodeInfo| n.id)
}

/// A node as plain values.
pub open spec fn node_view(n: NodeInfo) -> (u32, Seq<char>) {
    (n.id, n.node_type@)
}

/// The patch joins two different nodes of the grid.
pub open spec fn routable(ids: Seq<u32>, p: Patch) -> bool {
    ids.contains(p.from_node) && ids.contains(p.to_node) && p.from_node != p.to_node
}

/// `f` grows along every patch.
pub open spec fn patch_rank(patches: Seq<Patch>, f: spec_fn(u32) -> nat) -> bool {
    forall|k: int| 0 <= k < patches.len() ==> f(#[trigger] patches[k].from_node) < f(patches[k].to_node)
}

/// The patches form no loop.
pub open spec fn patches_acyclic(patches: Seq<Patch>) -> bool {
    exists|f: spec_fn(u32) -> nat| patch_rank(patches, f)
}

/// Every patch leads from an earlier node to a later one.
pub open spec fn in_patch_order(nodes: Seq<NodeInfo>, patches: Seq<Patch>) -> bool {
    forall|k: int, x: int, y: int|
        #![trigger patches[k], nodes[x], nodes[y]]
        0 <= k < patches.len() && 0 <= x < nodes.len() && 0 <= y < nodes.len() && nodes[x].id
            == patches[k].from_node && nodes[y].id == patches[k].to_node ==> x < y
}

/// The grid is sound: distinct non-zero ids, named node types and
/// routable patches.
pub open spec fn grid_ok(nodes: Seq<NodeInfo>, patches: Seq<Patch>) -> bool {
    &&& node_ids(nodes).no_duplicates()
    &&& forall|i: int| 0 <= i < nodes.len() ==> #[trigger] nodes[i].id != 0 && !is_blank(nodes[i].node_type@)
    &&& forall|k: int| 0 <= k < patches.len() ==> routable(node_ids(nodes), #[trigger] patches[k])
}

/// The position of the node with the id.
pub open spec fn index_of_id(ids: Seq<u32>, id: u32) -> int {
    choose|x: int| 0 <= x < ids.len() && ids[x] == id
}

/// The positions of the nodes that the first `k` patches lead to from
/// node `x`, in patch order (a patch given twice counts twice).
pub open spec fn patch_targets(ids: Seq<u32>, patches: Seq<Patch>, x: int, k: int) -> Seq<usize>
    decreases k,
{
    if k <= 0 {
        Seq::empty()
    } else if patches[k - 1].from_node == ids[x] {
        patch_targets(ids, patches, x, k - 1).push(index_of_id(ids, patches[k - 1].to_node) as usize)
    } else {
        patch_targets(ids, patches, x, k - 1)
    }
}

/// The patches as a graph over node positions.
pub open spec fn patch_adjacency(ids: Seq<u32>, patches: Seq<Patch>) -> Seq<Seq<usize>> {
    Seq::new(ids.len(), |x: int| patch_targets(ids, patches, x, patches.len() as int))
}

proof fn lemma_total_push(g: Seq<Seq<usize>>, a: int, b: usize, m: int)
    requires
        0 <= a < g.len(),
        0 <= m <= g.len(),
    ensures
        total(g.update(a, g[a].push(b)), m) == total(g, m) + if a < m { 1int } else { 0int },
    decreases m,
{
    if m > 0 {
        lemma_total_push(g, a, b, m - 1);
    }
}

proof fn lemma_total_empty(g: Seq<Seq<usize>>, m: int)
    requires
        0 <= m <= g.len(),
        forall|x: int| 0 <= x < g.len() ==> #[trigger] g[x].len() == 0,
    ensures
        total(g, m) == 0,
    decreases m,
{
    if m > 0 {
        lemma_total_empty(g, m - 1);
    }
}

/// The position of the node with the id, if any.
fn node_index(nodes: &Vec<NodeInfo>, id: u32) -> (r: Option<usize>)
    ensures
        match r {
            Some(i) => i < nodes.len() && nodes@[i as int].id == id,
            None => !node_ids(nodes@).contains(id),
        },
{
    let mut i: usize = 0;
    while i < nodes.len()
        invariant
            i <= nodes.len(),
            forall|x: int| 0 <= x < i ==> nodes@[x].id != id,
        decreases nodes.len() - i,
    {
        if nodes[i].id == id {
            return Some(i);
        }
        i += 1;
    }
    proof {
        if node_ids(nodes@).contains(id) {
            let x = choose|x: int| 0 <= x < node_ids(nodes@).len() && node_ids(nodes@)[x] == id;
            assert(nodes@[x].id == id);
        }
    }
    None
}

impl GridOrchestrator {
    pub fn new() -> (r: Self)
        ensures
            r.nodes@.len() == 0,
            r.patches@.len() == 0,
    {
        GridOrchestrator { nodes: Vec::new(), patches: Vec::new() }
    }

    /// Drops the patches that do not join two different nodes of the grid,
    /// then, when the remaining patches form no loop, reorders the nodes so
    /// that every patch leads from an earlier node to a later one: in the
    /// order of Kahn's walk with a stack (`stack_order`), which starts from
    /// the nodes without incoming patches pushed in node order and takes
    /// each node's patches in patch order.  Node ids must be distinct: with
    /// a repeated id that patches leave from, the walk takes that id twice
    /// and the count of patches into its target would drop below zero.
    pub fn resolve_topological_sort(&mut self)
        requires
            node_ids(old(self).nodes@).no_duplicates(),
        ensures
            final(self).patches@ == old(self).patches@.filter(
                |p: Patch| routable(node_ids(old(self).nodes@), p),
            ),
            patches_acyclic(final(self).patches@) ==> exists|ord: Seq<usize>|
                {
                    &&& is_perm(ord, old(self).nodes@.len() as int)
                    &&& forall|x: int|
                        0 <= x < ord.len() ==> #[trigger] node_view(final(self).nodes@[x]) == node_view(
                            old(self).nodes@[ord[x] as int],
                        )
                },
            patches_acyclic(final(self).patches@) ==> final(self).nodes@.len() == old(self).nodes@.len()
                && in_patch_order(final(self).nodes@, final(self).patches@),
            !patches_acyclic(final(self).patches@) ==> final(self).nodes@ == old(self).nodes@,
            ({
                let ord = stack_order(patch_adjacency(node_ids(old(self).nodes@), final(self).patches@));
                ord.len() == old(self).nodes@.len() ==> forall|x: int|
                    0 <= x < ord.len() ==> #[trigger] node_view(final(self).nodes@[x]) == node_view(
                        old(self).nodes@[ord[x] as int],
                    )
            }),
    {
        let ghost ids = node_ids(self.nodes@);
        let ghost keep = |p: Patch| routable(ids, p);
        let n = self.nodes.len();
        // the routable patches, in order
        let mut kept: Vec<Patch> = Vec::new();
        let mut k: usize = 0;
        while k < self.patches.len()
            invariant
                k <= self.patches.len(),
                self.nodes@ == old(self).nodes@,
                self.patches@ == old(self).patches@,
                ids == node_ids(self.nodes@),
                keep == (|p: Patch| routable(ids, p)),
                kept@ == self.patches@.take(k as int).filter(keep),
            decreases self.patches.len() - k,
        {
            let p = &self.patches[k];
            let f = node_index(&self.nodes, p.from_node);
            let t = node_index(&self.nodes, p.to_node);
            let ok = f.is_some() && t.is_some() && p.from_node != p.to_node;
            proof {
                if f.is_some() {
                    assert(ids[f.unwrap() as int] == p.from_node);
                }
                if t.is_some() {
                    assert(ids[t.unwrap() as int] == p.to_node);
                }
                assert(keep(*p) == routable(ids, *p));
                assert(ok == routable(ids, *p));
                assert(self.patches@.take(k + 1) =~= self.patches@.take(k as int).push(*p));
                self.patches@.take(k as int).lemma_filter_push(*p, keep);
            }
            if ok {
                kept.push(Patch {
                    from_node: p.from_node,
                    from_port: p.from_port,
                    to_node: p.to_node,
                    to_port: p.to_port,
                });
            }
            k += 1;
        }
        proof {
            assert(self.patches@.take(k as int) =~= self.patches@);
            assert(keep =~= (|p: Patch| routable(node_ids(old(self).nodes@), p)));
        }
        self.patches = kept;
        // the index graph of the patches, each edge once
        let mut adj: Vec<Vec<usize>> = Vec::new();
        let mut i: usize = 0;
        while i < n
            invariant
                i <= n,
                adj.len() == i,
                forall|x: int| 0 <= x < i ==> #[trigger] adj@[x]@.len() == 0,
            decreases n - i,
        {
            adj.push(Vec::new());
            i += 1;
        }
        let ghost kp = self.patches@;
        proof {
            assert forall|x: int| 0 <= x < model(&adj).len() implies #[trigger] model(&adj)[x].len() == 0 by {
                assert(adj@[x]@.len() == 0);
            }
            lemma_total_empty(model(&adj), n as int);
        }
        let mut k: usize = 0;
        while k < self.patches.len()
            invariant
                k <= self.patches.len(),
                n == self.nodes.len(),
                self.nodes@ == old(self).nodes@,
                self.patches@ == kp,
                ids == node_ids(self.nodes@),
                ids.no_duplicates(),
                forall|q: int| 0 <= q < kp.len() ==> routable(ids, #[trigger] kp[q]),
                adj.len() == n,
                wf(model(&adj)),
                forall|x: int| 0 <= x < n ==> #[trigger] model(&adj)[x] == patch_targets(ids, kp, x, k as int),
                total(model(&adj), n as int) == k,
                forall|a: int, b: int|
                    0 <= a < n && 0 <= b < n ==> (#[trigger] edge(model(&adj), a, b) <==> exists|q: int|
                        0 <= q < k && #[trigger] kp[q].from_node == ids[a] && kp[q].to_node == ids[b]),
            decreases self.patches.len() - k,
        {
            let p = &self.patches[k];
            proof {
                assert(routable(ids, kp[k as int]));
            }
            let a = node_index(&self.nodes, p.from_node).unwrap();
            let b = node_index(&self.nodes, p.to_node).unwrap();
            let ghost before = model(&adj);
            let mut row: Vec<usize> = Vec::new();
            std::mem::swap(&mut row, &mut adj[a]);
            row.push(b);
            adj.set(a, row);
            proof {
                assert(model(&adj) =~= before.update(a as int, before[a as int].push(b)));
                lemma_total_push(before, a as int, b, n as int);
                assert(index_of_id(ids, p.to_node) == b as int) by {
                    let y = index_of_id(ids, p.to_node);
                    assert(ids[b as int] == p.to_node);
                    assert(0 <= y < ids.len() && ids[y] == p.to_node);
                }
                assert forall|x: int| 0 <= x < n implies #[trigger] model(&adj)[x] == patch_targets(ids, kp, x, k + 1) by {
                    if x == a {
                        assert(kp[k as int].from_node == ids[x]);
                    } else {
                        assert(ids[x] != ids[a as int]);
                    }
                }
                assert forall|x: int, j: int| 0 <= x < model(&adj).len() && 0 <= j < model(&adj)[x].len() implies #[trigger] model(&adj)[x][j] < model(&adj).len() by {
                    if x == a && j == before[x].len() {
                    } else {
                        assert(model(&adj)[x][j] == before[x][j]);
                    }
                }
            }
            proof {
                assert(ids[a as int] == p.from_node && ids[b as int] == p.to_node);
                assert forall|x: int, y: int| 0 <= x < n && 0 <= y < n implies (#[trigger] edge(
                    model(&adj),
                    x,
                    y,
                ) <==> exists|q: int|
                    0 <= q < k + 1 && #[trigger] kp[q].from_node == ids[x] && kp[q].to_node == ids[y]) by {
                    if x == a && y == b {
                        assert(kp[k as int].from_node == ids[x]);
                        assert(model(&adj)[x][before[x].len() as int] == y);
                    }
                    if edge(model(&adj), x, y) && !edge(before, x, y) {
                        let e = choose|e: int| 0 <= e < model(&adj)[x].len() && model(&adj)[x][e] == y;
                        if x != a || e < before[x].len() {
                            assert(before[x][e] == y);
                        }
                        assert(ids[x] == ids[a as int] && ids[y] == ids[b as int]);
                    }
                    if edge(before, x, y) {
                        let e = choose|e: int| 0 <= e < before[x].len() && before[x][e] == y;
                        assert(model(&adj)[x][e] == y);
                    }
                    if exists|q: int| 0 <= q < k + 1 && #[trigger] kp[q].from_node == ids[x] && kp[q].to_node == ids[y] {
                        let q = choose|q: int| 0 <= q < k + 1 && #[trigger] kp[q].from_node == ids[x] && kp[q].to_node == ids[y];
                        if q == k {
                            assert(ids[x] == ids[a as int]);
                            assert(x == a);
                            assert(y == b);
                        }
                    }
                }
            }
            k += 1;
        }
        let ghost g = model(&adj);
        proof {
            // a rank of the patches ranks the index graph, and back
            if patches_acyclic(kp) {
                let f = choose|f: spec_fn(u32) -> nat| patch_rank(kp, f);
                let r = |x: int| f(ids[x]);
                assert forall|x: int, y: int| #[trigger] edge(g, x, y) implies r(x) < r(y) by {
                    let e = choose|e: int| 0 <= e < g[x].len() && g[x][e] == y;
                    assert(y < n);
                    let q = choose|q: int|
                        0 <= q < kp.len() && #[trigger] kp[q].from_node == ids[x] && kp[q].to_node == ids[y];
                }
                assert(is_rank(g, r));
            }
        }
        proof {
            assert(g =~= patch_adjacency(ids, kp));
            assert(edge_count(g) == kp.len());
        }
        let order = kahn_stack(&adj);
        if order.len() < n {
            return;
        }
        proof {
            let r = choose|r: spec_fn(int) -> nat| is_rank(g, r);
            let f = |id: u32| r(choose|x: int| 0 <= x < n && ids[x] == id);
            assert forall|q: int| 0 <= q < kp.len() implies f(#[trigger] kp[q].from_node) < f(
                kp[q].to_node,
            ) by {
                assert(routable(ids, kp[q]));
                let a = choose|x: int| 0 <= x < n && ids[x] == kp[q].from_node;
                let b = choose|x: int| 0 <= x < n && ids[x] == kp[q].to_node;
                assert(edge(g, a, b));
            }
            assert(patch_rank(kp, f));
        }
        // the nodes in topological order
        let mut sorted: Vec<NodeInfo> = Vec::new();
        let mut x: usize = 0;
        while x < n
            invariant
                x <= n,
                n == self.nodes.len(),
                order.len() == n,
                forall|q: int| 0 <= q < n ==> #[trigger] order@[q] < n,
                sorted.len() == x,
                forall|y: int| 0 <= y < x ==> #[trigger] node_view(sorted@[y]) == node_view(
                    self.nodes@[order@[y] as int],
                ),
            decreases n - x,
        {
            let v = order[x];
            let node = &self.nodes[v];
            sorted.push(NodeInfo { id: node.id, node_type: copy_str(node.node_type.as_str()) });
            x += 1;
        }
        proof {
            let fin = sorted@;
            assert forall|k2: int, x2: int, y2: int|
                #![trigger kp[k2], fin[x2], fin[y2]]
                0 <= k2 < kp.len() && 0 <= x2 < n && 0 <= y2 < n && fin[x2].id
                    == kp[k2].from_node && fin[y2].id == kp[k2].to_node implies x2 < y2 by {
                assert(node_view(fin[x2]) == node_view(self.nodes@[order@[x2] as int]));
                assert(node_view(fin[y2]) == node_view(self.nodes@[order@[y2] as int]));
                assert(edge(g, order@[x2] as int, order@[y2] as int));
                let q = choose|q: int| 0 <= q < y2 && order@[q] == order@[x2];
                assert(q == x2);
            }
        }
        self.nodes = sorted;
        proof {
            assert(is_perm(order@, n as int));
        }
    }

    /// Hands the signal along the patches; the audio engine does the work,
    /// so nothing changes here.
    pub fn resolve_signal_transmission(&self) {
    }

    /// Checks that ids are distinct and non-zero, node types are named and
    /// every patch joins two different nodes of the grid.
    pub fn audit_grid(&self) -> (r: bool)
        ensures
            r == grid_ok(self.nodes@, self.patches@),
    {
        let n = self.nodes.len();
        let mut i: usize = 0;
        while i < n
            invariant
                i <= n,
                n == self.nodes.len(),
                forall|a: int| 0 <= a < i ==> #[trigger] self.nodes@[a].id != 0 && !is_blank(
                    self.nodes@[a].node_type@,
                ),
                forall|a: int, b: int| 0 <= a < b < n && a < i ==> self.nodes@[a].id != self.nodes@[b].id,
            decreases n - i,
        {
            if self.nodes[i].id == 0 || blank(self.nodes[i].node_type.as_str()) {
                return false;
            }
            let mut j: usize = i + 1;
            while j < n
                invariant
                    i < j <= n,
                    n == self.nodes.len(),
                    forall|b: int| i < b < j ==> self.nodes@[i as int].id != self.nodes@[b].id,
                decreases n - j,
            {
                if self.nodes[i].id == self.nodes[j].id {
                    proof {
                        let ids = node_ids(self.nodes@);
                        assert(ids[i as int] == ids[j as int]);
                    }
                    return false;
                }
                j += 1;
            }
            i += 1;
        }
        let ghost ids = node_ids(self.nodes@);
        proof {
            assert forall|a: int| 0 <= a < self.nodes@.len() implies #[trigger] self.nodes@[a].id != 0
                && !is_blank(self.nodes@[a].node_type@) by {
                assert(a < i);
            }
            assert forall|a: int, b: int| 0 <= a < ids.len() && 0 <= b < ids.len() && a != b implies ids[a]
                != ids[b] by {
                if a < b {
                    assert(self.nodes@[a].id != self.nodes@[b].id);
                } else {
                    assert(self.nodes@[b].id != self.nodes@[a].id);
                }
            }
        }
        let mut k: usize = 0;
        while k < self.patches.len()
            invariant
                k <= self.patches.len(),
                ids == node_ids(self.nodes@),
                ids.no_duplicates(),
                forall|a: int| 0 <= a < self.nodes@.len() ==> #[trigger] self.nodes@[a].id != 0 && !is_blank(
                    self.nodes@[a].node_type@,
                ),
                forall|q: int| 0 <= q < k ==> routable(ids, #[trigger] self.patches@[q]),
            decreases self.patches.len() - k,
        {
            let p = &self.patches[k];
            let f = node_index(&self.nodes, p.from_node);
            let t = node_index(&self.nodes, p.to_node);
            proof {
                if f.is_some() {
                    assert(ids[f.unwrap() as int] == p.from_node);
                }
                if t.is_some() {
                    assert(ids[t.unwrap() as int] == p.to_node);
                }
            }
            if f.is_none() || t.is_none() || p.from_node == p.to_node {
                return false;
            }
            k += 1;
        }
        proof {
            assert(ids.no_duplicates());
            assert(forall|i: int| 0 <= i < self.nodes@.len() ==> #[trigger] self.nodes@[i].id != 0 && !is_blank(self.nodes@[i].node_type@));
            assert(forall|q: int| 0 <= q < self.patches@.len() ==> routable(node_ids(self.nodes@), #[trigger] self.patches@[q]));
        }
        true
    }
}

impl Default for GridOrchestrator {
    fn default() -> (r: Self)
        ensures
            r.nodes@.len() == 0,
            r.patches@.len() == 0,
    {
        Self::new()
    }
}

} // verus!
