//! Compilation of a process graph into parallel execution stages.
//!
//! A node may run once every node it depends on has run.  Compiling
//! groups the nodes into stages level by level: a stage holds the nodes
//! whose dependencies all ran in earlier stages.  Duplicate ids, unknown
//! dependencies and cycles leave no stages.
use vstd::prelude::*;
use crate::graph::{acyclic, edge, is_rank, kahn_order, model, wf};

verus! {

pub struct ProcessNodeRust {
    pub id: u32,
    pub dependencies: Vec<u32>,
}

pub struct ExecutionStageRust {
    pub node_ids: Vec<u32>,
}

pub struct ExecutionOrchestrator {
    pub stages: Vec<ExecutionStageRust>,
    pub version: u64,
}

/// Node ids are pairwise distinct.
pub open spec fn distinct_ids(nodes: Seq<ProcessNodeRust>) -> bool {
    forall|a: int, b: int| 0 <= a < b < nodes.len() ==> nodes[a].id != nodes[b].id
}

/// Some node carries the id.
pub open spec fn has_id(nodes: Seq<ProcessNodeRust>, id: u32) -> bool {
    exists|j: int| 0 <= j < nodes.len() && nodes[j].id == id
}

/// Every dependency names a node.
pub open spec fn deps_known(nodes: Seq<ProcessNodeRust>) -> bool {
    forall|i: int, k: int|
        0 <= i < nodes.len() && 0 <= k < nodes[i].dependencies.len() ==> has_id(
            nodes,
            #[trigger] nodes[i].dependencies@[k],
        )
}

/// Node `j` must run before node `i`.
pub open spec fn depends(nodes: Seq<ProcessNodeRust>, i: int, j: int) -> bool {
    0 <= i < nodes.len() && 0 <= j < nodes.len() && nodes[i].dependencies@.contains(nodes[j].id)
}

/// A rank that grows from every dependency to its dependent.
pub open spec fn dep_rank(nodes: Seq<ProcessNodeRust>, f: spec_fn(int) -> nat) -> bool {
    forall|i: int, j: int| #[trigger] depends(nodes, i, j) ==> f(j) < f(i)
}

/// No node depends on itself through a chain of dependencies.
pub open spec fn dep_acyclic(nodes: Seq<ProcessNodeRust>) -> bool {
    exists|f: spec_fn(int) -> nat| dep_rank(nodes, f)
}

/// The graph can be compiled.
pub open spec fn compilable(nodes: Seq<ProcessNodeRust>) -> bool {
    distinct_ids(nodes) && deps_known(nodes) && dep_acyclic(nodes)
}

/// The stages as id sequences.
pub open spec fn stage_ids(stages: Seq<ExecutionStageRust>) -> Seq<Seq<u32>> {
    stages.map_values(|s: ExecutionStageRust| s.node_ids@)
}

/// `lv` gives each node its level: one more than the highest level among
/// its dependencies, and zero for a node without dependencies.
pub open spec fn levels_ok(nodes: Seq<ProcessNodeRust>, lv: Seq<usize>) -> bool {
    &&& lv.len() == nodes.len()
    &&& forall|i: int, j: int| #[trigger] depends(nodes, i, j) ==> lv[j] < lv[i]
    &&& forall|i: int|
        0 <= i < nodes.len() && #[trigger] lv[i] > 0 ==> exists|j: int|
            #[trigger] depends(nodes, i, j) && lv[j] + 1 == lv[i]
}

/// Ids of the nodes below `m` whose level is `s`, in input order.
pub open spec fn layer(nodes: Seq<ProcessNodeRust>, lv: Seq<usize>, s: int, m: int) -> Seq<u32>
    decreases m,
{
    if m <= 0 {
        Seq::empty()
    } else if lv[m - 1] == s {
        layer(nodes, lv, s, m - 1).push(nodes[m - 1].id)
    } else {
        layer(nodes, lv, s, m - 1)
    }
}

/// Highest level among the nodes below `m` (-1 if there is none).
pub open spec fn top_level(lv: Seq<usize>, m: int) -> int
    decreases m,
{
    if m <= 0 {
        -1
    } else if top_level(lv, m - 1) < lv[m - 1] {
        lv[m - 1] as int
    } else {
        top_level(lv, m - 1)
    }
}

/// Where `id` stands in `prev` (its last place), or -1.
pub open spec fn place_in(prev: Seq<u32>, id: u32) -> int
    decreases prev.len(),
{
    if prev.len() == 0 {
        -1
    } else if prev.last() == id {
        prev.len() - 1
    } else {
        place_in(prev.drop_last(), id)
    }
}

/// The latest place in `prev` among the dependencies `deps`, or -1: a node
/// becomes ready while the stage `prev` runs, when its dependency in that
/// place has run.
pub open spec fn anchor(prev: Seq<u32>, deps: Seq<u32>) -> int
    decreases deps.len(),
{
    if deps.len() == 0 {
        -1
    } else {
        let a = anchor(prev, deps.drop_last());
        let b = place_in(prev, deps.last());
        if a < b {
            b
        } else {
            a
        }
    }
}

/// Ids of the nodes below `m` of level `s` that become ready at place `p`
/// of `prev`, in input order.
pub open spec fn group(nodes: Seq<ProcessNodeRust>, lv: Seq<usize>, s: int, prev: Seq<u32>, p: int, m: int) -> Seq<u32>
    decreases m,
{
    if m <= 0 {
        Seq::empty()
    } else if lv[m - 1] == s && anchor(prev, nodes[m - 1].dependencies@) == p {
        group(nodes, lv, s, prev, p, m - 1).push(nodes[m - 1].id)
    } else {
        group(nodes, lv, s, prev, p, m - 1)
    }
}

/// The nodes of level `s` in the order they become ready while the places
/// below `q` of the previous stage `prev` run.
pub open spec fn regroup(nodes: Seq<ProcessNodeRust>, lv: Seq<usize>, s: int, prev: Seq<u32>, q: int) -> Seq<u32>
    decreases q,
{
    if q <= 0 {
        Seq::empty()
    } else {
        regroup(nodes, lv, s, prev, q - 1) + group(nodes, lv, s, prev, q - 1, nodes.len() as int)
    }
}

/// Stage `s` in the order its nodes become ready: the nodes without
/// dependencies in input order first; then, for each later stage, the nodes
/// grouped by the place in the stage before of their last dependency to run,
/// in input order within a group.
pub open spec fn stage_at(nodes: Seq<ProcessNodeRust>, lv: Seq<usize>, s: nat) -> Seq<u32>
    decreases s,
{
    if s == 0 {
        layer(nodes, lv, 0, nodes.len() as int)
    } else {
        let prev = stage_at(nodes, lv, (s - 1) as nat);
        regroup(nodes, lv, s as int, prev, prev.len() as int)
    }
}

/// One stage per level, from zero up to the highest level, each in the
/// order its nodes become ready.
pub open spec fn ready_stages(nodes: Seq<ProcessNodeRust>, lv: Seq<usize>) -> Seq<Seq<u32>> {
    Seq::new(
        (top_level(lv, lv.len() as int) + 1) as nat,
        |s: int| stage_at(nodes, lv, s as nat),
    )
}

/// Two level assignments of the same nodes agree: the stages a graph
/// compiles to do not depend on how they were computed.
pub proof fn lemma_levels_unique(nodes: Seq<ProcessNodeRust>, a: Seq<usize>, b: Seq<usize>)
    requires
        levels_ok(nodes, a),
        levels_ok(nodes, b),
    ensures
        a == b,
{
    assert forall|v: int| 0 <= v < a.len() implies a[v] == b[v] by {
        lemma_levels_below(nodes, a, b, a[v] as nat);
        lemma_levels_below(nodes, b, a, b[v] as nat);
    }
    assert(a =~= b);
}

proof fn lemma_levels_below(nodes: Seq<ProcessNodeRust>, a: Seq<usize>, b: Seq<usize>, k: nat)
    requires
        levels_ok(nodes, a),
        levels_ok(nodes, b),
    ensures
        forall|v: int| 0 <= v < nodes.len() && a[v] <= k ==> a[v] <= #[trigger] b[v],
    decreases k,
{
    if k > 0 {
        lemma_levels_below(nodes, a, b, (k - 1) as nat);
    }
    assert forall|v: int| 0 <= v < nodes.len() && a[v] <= k implies a[v] <= #[trigger] b[v] by {
        if a[v] > 0 {
            let j = choose|j: int| #[trigger] depends(nodes, v, j) && a[j] + 1 == a[v];
            assert(a[j] <= b[j]);
            assert(b[j] < b[v]);
        }
    }
}

/// A rank of the dependency relation ranks the index graph whose edges
/// lead from each dependency to its dependent.
proof fn lemma_dep_graph_acyclic(nodes: Seq<ProcessNodeRust>, g: Seq<Seq<usize>>)
    requires
        g.len() == nodes.len(),
        wf(g),
        forall|v: int, j: int|
            0 <= v < nodes.len() && 0 <= j < nodes.len() ==> (#[trigger] edge(g, j, v) <==> depends(
                nodes,
                v,
                j,
            )),
        dep_acyclic(nodes),
    ensures
        acyclic(g),
{
    let f = choose|f: spec_fn(int) -> nat| dep_rank(nodes, f);
    let r = |x: int| f(x);
    assert forall|i: int, j: int| #[trigger] edge(g, i, j) implies r(i) < r(j) by {
        let k = choose|k: int| 0 <= k < g[i].len() && g[i][k] == j;
        assert(depends(nodes, j, i));
    }
    assert(is_rank(g, r));
}

impl ExecutionOrchestrator {
    pub fn new() -> (r: Self)
        ensures
            r.stages@.len() == 0,
            r.version == 0,
    {
        ExecutionOrchestrator { stages: Vec::new(), version: 0 }
    }

    /// Compiles the nodes into stages and bumps the version.  Stage `s`
    /// holds the nodes whose longest chain of dependencies has `s` links,
    /// in the order they become ready (see `stage_at`).
    pub fn compile(&mut self, nodes: &[ProcessNodeRust])
        requires
            old(self).version < u64::MAX,
        ensures
            final(self).version == old(self).version + 1,
            !compilable(nodes@) ==> final(self).stages@.len() == 0,
            compilable(nodes@) ==> exists|lv: Seq<usize>|
                levels_ok(nodes@, lv) && stage_ids(final(self).stages@) == ready_stages(nodes@, lv),
            compilable(nodes@) ==> stages_partition(nodes@, stage_ids(final(self).stages@)),
    {
        self.stages.clear();
        self.version = self.version + 1;
        let n = nodes.len();
        // duplicate ids
        let mut a: usize = 0;
        while a < n
            invariant
                a <= n,
                n == nodes.len(),
                self.stages@.len() == 0,
                self.version == old(self).version + 1,
                forall|x: int, y: int| 0 <= x < y < n && x < a ==> nodes@[x].id != nodes@[y].id,
            decreases n - a,
        {
            let mut b: usize = a + 1;
            while b < n
                invariant
                    a < b <= n,
                    n == nodes.len(),
                    self.stages@.len() == 0,
                    self.version == old(self).version + 1,
                    forall|y: int| a < y < b ==> nodes@[a as int].id != nodes@[y].id,
                decreases n - b,
            {
                if nodes[a].id == nodes[b].id {
                    return;
                }
                b += 1;
            }
            a += 1;
        }
        // each dependency as a node index
        let mut dix: Vec<Vec<usize>> = Vec::new();
        let mut i: usize = 0;
        while i < n
            invariant
                i <= n,
                n == nodes.len(),
                distinct_ids(nodes@),
                dix.len() == i,
                self.stages@.len() == 0,
                self.version == old(self).version + 1,
                forall|x: int|
                    0 <= x < i ==> #[trigger] dix@[x]@.len() == nodes@[x].dependencies@.len(),
                forall|x: int, k: int|
                    0 <= x < i && 0 <= k < dix@[x]@.len() ==> #[trigger] dix@[x]@[k] < n
                        && nodes@[dix@[x]@[k] as int].id == nodes@[x].dependencies@[k],
            decreases n - i,
        {
            let deps = &nodes[i].dependencies;
            let mut row: Vec<usize> = Vec::new();
            let mut k: usize = 0;
            while k < deps.len()
                invariant
                    i < n,
                    n == nodes.len(),
                    self.stages@.len() == 0,
                    self.version == old(self).version + 1,
                    k <= deps.len(),
                    deps@ == nodes@[i as int].dependencies@,
                    row.len() == k,
                    forall|k2: int|
                        0 <= k2 < k ==> #[trigger] row@[k2] < n && nodes@[row@[k2] as int].id
                            == deps@[k2],
                decreases deps.len() - k,
            {
                match position_of(nodes, deps[k]) {
                    Some(j) => {
                        row.push(j);
                    },
                    None => {
                        proof {
                            assert(!has_id(nodes@, nodes@[i as int].dependencies@[k as int]));
                        }
                        return;
                    },
                }
                k += 1;
            }
            dix.push(row);
            i += 1;
        }
        let ghost dm = model(&dix);
        proof {
            assert forall|x: int, k: int|
                0 <= x < n && 0 <= k < nodes@[x].dependencies.len() implies has_id(
                nodes@,
                #[trigger] nodes@[x].dependencies@[k],
            ) by {
                assert(dix@[x]@[k] < n);
            }
            assert forall|v: int, j: int|
                0 <= v < n && 0 <= j < n implies (#[trigger] dm[v].contains(j as usize) <==> depends(
                nodes@,
                v,
                j,
            )) by {
                if dm[v].contains(j as usize) {
                    let k = choose|k: int| 0 <= k < dm[v].len() && dm[v][k] == j as usize;
                    assert(dix@[v]@[k] == j);
                    assert(nodes@[v].dependencies@[k] == nodes@[j].id);
                }
                if depends(nodes@, v, j) {
                    let k = choose|k: int|
                        0 <= k < nodes@[v].dependencies@.len() && nodes@[v].dependencies@[k]
                            == nodes@[j].id;
                    let j2 = dix@[v]@[k] as int;
                    assert(nodes@[j2].id == nodes@[j].id);
                    assert(j2 == j);
                    assert(dm[v][k] == j as usize);
                }
            }
        }
        // edges from each dependency to its dependents, each edge once
        let mut adj: Vec<Vec<usize>> = Vec::new();
        let mut i: usize = 0;
        while i < n
            invariant
                i <= n,
                adj.len() == i,
                forall|x: int| 0 <= x < i ==> #[trigger] adj@[x]@.len() == 0,
            decreases n - i,
        {
            adj.push(Vec::new());
            i += 1;
        }
        let mut v: usize = 0;
        while v < n
            invariant
                v <= n,
                n == nodes.len(),
                dix.len() == n,
                dm == model(&dix),
                adj.len() == n,
                forall|x: int, k: int|
                    0 <= x < n && 0 <= k < dm[x].len() ==> #[trigger] dm[x][k] < n,
                forall|r: int, p: int|
                    0 <= r < n && 0 <= p < adj@[r]@.len() ==> #[trigger] adj@[r]@[p] < v,
                forall|r: int, p: int, q: int|
                    0 <= r < n && 0 <= p < q < adj@[r]@.len() ==> adj@[r]@[p] < adj@[r]@[q],
                forall|j: int, w: int|
                    0 <= j < n && 0 <= w < n ==> (#[trigger] edge(model(&adj), j, w) <==> (w < v
                        && dm[w].contains(j as usize))),
            decreases n - v,
        {
            let row = &dix[v];
            let mut k: usize = 0;
            while k < row.len()
                invariant
                    v < n,
                    n == nodes.len(),
                    dix.len() == n,
                    dm == model(&dix),
                    row@ == dm[v as int],
                    k <= row.len(),
                    adj.len() == n,
                    forall|x: int, k2: int|
                        0 <= x < n && 0 <= k2 < dm[x].len() ==> #[trigger] dm[x][k2] < n,
                    forall|r: int, p: int|
                        0 <= r < n && 0 <= p < adj@[r]@.len() ==> #[trigger] adj@[r]@[p] <= v,
                    forall|r: int, p: int, q: int|
                        0 <= r < n && 0 <= p < q < adj@[r]@.len() ==> adj@[r]@[p] < adj@[r]@[q],
                    forall|j: int, w: int|
                        0 <= j < n && 0 <= w < n ==> (#[trigger] edge(model(&adj), j, w) <==> ((w
                            < v && dm[w].contains(j as usize)) || (w == v && dm[v as int].take(
                            k as int,
                        ).contains(j as usize)))),
                decreases row.len() - k,
            {
                let j = row[k];
                assert(dm[v as int][k as int] < n);
                let ghost before = model(&adj);
                let len = adj[j].len();
                let fresh = len == 0 || adj[j][len - 1] != v;
                if fresh {
                    let mut r: Vec<usize> = Vec::new();
                    std::mem::swap(&mut r, &mut adj[j]);
                    r.push(v);
                    adj.set(j, r);
                }
                proof {
                    assert(dm[v as int].take(k + 1) =~= dm[v as int].take(k as int).push(j));
                    if fresh {
                        assert(model(&adj) =~= before.update(j as int, before[j as int].push(v)));
                    } else {
                        assert(model(&adj) =~= before);
                        assert(edge(before, j as int, v as int)) by {
                            assert(before[j as int][len - 1] == v);
                        }
                    }
                    assert forall|j2: int, w: int|
                        0 <= j2 < n && 0 <= w < n implies (#[trigger] edge(model(&adj), j2, w) <==> ((w
                        < v && dm[w].contains(j2 as usize)) || (w == v && dm[v as int].take(
                        k + 1,
                    ).contains(j2 as usize)))) by {
                        let t0 = dm[v as int].take(k as int);
                        let t1 = dm[v as int].take(k + 1);
                        assert(t1[k as int] == j);
                        if t1.contains(j2 as usize) && !t0.contains(j2 as usize) {
                            let q = choose|q: int| 0 <= q < t1.len() && t1[q] == j2 as usize;
                            if q < k {
                                assert(t0[q] == j2);
                            }
                        }
                        if t0.contains(j2 as usize) {
                            let q = choose|q: int| 0 <= q < t0.len() && t0[q] == j2 as usize;
                            assert(t1[q] == j2);
                        }
                        if fresh {
                            if edge(model(&adj), j2, w) {
                                let p = choose|p: int|
                                    0 <= p < model(&adj)[j2].len() && model(&adj)[j2][p] == w;
                                if j2 == j && p == before[j2].len() {
                                } else {
                                    assert(before[j2][p] == w);
                                }
                            }
                            if edge(before, j2, w) {
                                let p = choose|p: int| 0 <= p < before[j2].len() && before[j2][p] == w;
                                assert(model(&adj)[j2][p] == w);
                            }
                            if j2 == j && w == v {
                                assert(model(&adj)[j2][before[j2].len() as int] == w);
                            }
                        }
                    }
                }
                k += 1;
            }
            proof {
                assert(dm[v as int].take(k as int) =~= dm[v as int]);
            }
            v += 1;
        }
        let ghost g = model(&adj);
        proof {
            assert forall|v2: int, j: int|
                0 <= v2 < n && 0 <= j < n implies (#[trigger] edge(g, j, v2) <==> depends(
                nodes@,
                v2,
                j,
            )) by {
                assert(dm[v2].contains(j as usize) <==> depends(nodes@, v2, j));
            }
            assert forall|x: int, k: int| 0 <= x < g.len() && 0 <= k < g[x].len() implies #[trigger] g[x][k]
                < g.len() by {
                assert(adj@[x]@[k] < n);
            }
            assert forall|x: int| 0 <= x < g.len() implies #[trigger] g[x].no_duplicates() by {
                assert forall|p: int, q: int| 0 <= p < g[x].len() && 0 <= q < g[x].len() && p != q implies g[x][p]
                    != g[x][q] by {
                    if p < q {
                        assert(adj@[x]@[p] < adj@[x]@[q]);
                    } else {
                        assert(adj@[x]@[q] < adj@[x]@[p]);
                    }
                }
            }
        }
        let order = kahn_order(&adj);
        if order.len() < n {
            proof {
                if dep_acyclic(nodes@) {
                    lemma_dep_graph_acyclic(nodes@, g);
                }
            }
            return;
        }
        // levels, in topological order
        let mut lv: Vec<usize> = Vec::new();
        let mut i: usize = 0;
        while i < n
            invariant
                i <= n,
                lv.len() == i,
                forall|x: int| 0 <= x < i ==> #[trigger] lv@[x] == 0,
            decreases n - i,
        {
            lv.push(0);
            i += 1;
        }
        let mut p: usize = 0;
        while p < n
            invariant
                p <= n,
                n == nodes.len(),
                order.len() == n,
                lv.len() == n,
                dix.len() == n,
                dm == model(&dix),
                g == model(&adj),
                adj.len() == n,
                order@.no_duplicates(),
                forall|q: int| 0 <= q < n ==> #[trigger] order@[q] < n,
                forall|q: int, i2: int|
                    0 <= q < n && #[trigger] edge(g, i2, order@[q] as int) ==> exists|q2: int|
                        0 <= q2 < q && order@[q2] == i2,
                forall|x: int, k: int|
                    0 <= x < n && 0 <= k < dm[x].len() ==> #[trigger] dm[x][k] < n,
                forall|v2: int, j: int|
                    0 <= v2 < n && 0 <= j < n ==> (#[trigger] dm[v2].contains(j as usize)
                        <==> depends(nodes@, v2, j)),
                forall|v2: int, j: int|
                    0 <= v2 < n && 0 <= j < n ==> (#[trigger] edge(g, j, v2) <==> depends(
                        nodes@,
                        v2,
                        j,
                    )),
                forall|q: int| 0 <= q < p ==> lv@[#[trigger] order@[q] as int] <= q,
                forall|q: int, j: int|
                    0 <= q < p && #[trigger] depends(nodes@, order@[q] as int, j) ==> lv@[j] < lv@[order@[q] as int],
                forall|q: int|
                    0 <= q < p && lv@[#[trigger] order@[q] as int] > 0 ==> exists|j: int|
                        #[trigger] depends(nodes@, order@[q] as int, j) && lv@[j] + 1 == lv@[order@[q] as int],
            decreases n - p,
        {
            let v = order[p];
            let row = &dix[v];
            let mut best: usize = 0;
            let mut k: usize = 0;
            while k < row.len()
                invariant
                    p < n,
                    v == order@[p as int],
                    v < n,
                    row@ == dm[v as int],
                    k <= row.len(),
                    lv.len() == n,
                    n == nodes.len(),
                    order.len() == n,
                    order@.no_duplicates(),
                    forall|q: int| 0 <= q < n ==> #[trigger] order@[q] < n,
                    forall|q: int, i2: int|
                        0 <= q < n && #[trigger] edge(g, i2, order@[q] as int) ==> exists|q2: int|
                            0 <= q2 < q && order@[q2] == i2,
                    forall|x: int, k2: int|
                        0 <= x < n && 0 <= k2 < dm[x].len() ==> #[trigger] dm[x][k2] < n,
                    forall|v2: int, j: int|
                        0 <= v2 < n && 0 <= j < n ==> (#[trigger] dm[v2].contains(j as usize)
                            <==> depends(nodes@, v2, j)),
                    forall|v2: int, j: int|
                        0 <= v2 < n && 0 <= j < n ==> (#[trigger] edge(g, j, v2) <==> depends(
                            nodes@,
                            v2,
                            j,
                        )),
                    forall|q: int| 0 <= q < p ==> lv@[#[trigger] order@[q] as int] <= q,
                    best <= p,
                    forall|k2: int| 0 <= k2 < k ==> lv@[#[trigger] dm[v as int][k2] as int] < best,
                    best > 0 ==> exists|k2: int|
                        0 <= k2 < k && lv@[#[trigger] dm[v as int][k2] as int] + 1 == best,
                decreases row.len() - k,
            {
                let j = row[k];
                proof {
                    assert(dm[v as int][k as int] == j);
                    let ji = j as int;
                    assert(dm[v as int].contains(ji as usize));
                    assert(depends(nodes@, v as int, ji));
                    assert(edge(g, j as int, order@[p as int] as int));
                    let q2 = choose|q2: int| 0 <= q2 < p && order@[q2] == j;
                    assert(lv@[order@[q2] as int] <= q2);
                }
                if lv[j] + 1 > best {
                    best = lv[j] + 1;
                }
                k += 1;
            }
            let ghost lv0 = lv@;
            lv.set(v, best);
            proof {
                assert forall|q: int| 0 <= q < p implies #[trigger] order@[q] != v by {
                    assert(order@[q] != order@[p as int]);
                }
                assert forall|j: int| #[trigger] depends(nodes@, v as int, j) implies lv@[j] < lv@[v as int] by {
                    assert(dm[v as int].contains(j as usize));
                    let k2 = choose|k2: int| 0 <= k2 < dm[v as int].len() && dm[v as int][k2] == j as usize;
                    assert(lv0[dm[v as int][k2] as int] < best);
                    assert(edge(g, j, order@[p as int] as int));
                    let q2 = choose|q2: int| 0 <= q2 < p && order@[q2] == j;
                    assert(order@[q2] != v);
                }
                if best > 0 {
                    let k2 = choose|k2: int| 0 <= k2 < k && lv0[#[trigger] dm[v as int][k2] as int] + 1 == best;
                    let j = dm[v as int][k2] as int;
                    assert(dm[v as int].contains(j as usize));
                    assert(depends(nodes@, v as int, j));
                    assert(edge(g, j, order@[p as int] as int));
                    let q2 = choose|q2: int| 0 <= q2 < p && order@[q2] == j;
                    assert(order@[q2] != v);
                    assert(lv@[j] + 1 == lv@[v as int]);
                }
                assert forall|q: int, j: int|
                    0 <= q < p + 1 && #[trigger] depends(nodes@, order@[q] as int, j) implies lv@[j] < lv@[order@[q] as int] by {
                    if q < p {
                        assert(edge(g, j, order@[q] as int));
                        let q3 = choose|q3: int| 0 <= q3 < q && order@[q3] == j;
                        assert(order@[q3] != v);
                    }
                }
                assert forall|q: int|
                    0 <= q < p + 1 && lv@[#[trigger] order@[q] as int] > 0 implies exists|j: int|
                        #[trigger] depends(nodes@, order@[q] as int, j) && lv@[j] + 1 == lv@[order@[q] as int] by {
                    if q < p {
                        let j = choose|j: int| #[trigger] depends(nodes@, order@[q] as int, j) && lv0[j] + 1 == lv0[order@[q] as int];
                        assert(edge(g, j, order@[q] as int));
                        let q3 = choose|q3: int| 0 <= q3 < q && order@[q3] == j;
                        assert(order@[q3] != v);
                    }
                }
            }
            p += 1;
        }
        proof {
            assert forall|i2: int, j: int| #[trigger] depends(nodes@, i2, j) implies lv@[j] < lv@[i2] by {
                assert(order@.contains(i2 as usize));
                let q = choose|q: int| 0 <= q < n && #[trigger] order@[q] == i2;
                assert(depends(nodes@, order@[q] as int, j));
            }
            assert forall|i2: int| 0 <= i2 < n && #[trigger] lv@[i2] > 0 implies exists|j: int|
                #[trigger] depends(nodes@, i2, j) && lv@[j] + 1 == lv@[i2] by {
                assert(order@.contains(i2 as usize));
                let q = choose|q: int| 0 <= q < n && #[trigger] order@[q] == i2;
                assert(lv@[order@[q] as int] > 0);
            }
            assert forall|x: int| 0 <= x < n implies #[trigger] lv@[x] < n by {
                assert(order@.contains(x as usize));
                let q = choose|q: int| 0 <= q < n && #[trigger] order@[q] == x;
                assert(lv@[order@[q] as int] <= q);
            }
            assert(levels_ok(nodes@, lv@));
            let f = |x: int| lv@[x] as nat;
            assert(dep_rank(nodes@, f));
            assert(compilable(nodes@));
        }
        // the number of stages
        let mut count: usize = 0;
        let mut i: usize = 0;
        while i < n
            invariant
                i <= n,
                lv.len() == n,
                forall|x: int| 0 <= x < n ==> #[trigger] lv@[x] < n,
                count as int == top_level(lv@, i as int) + 1,
                count <= n,
            decreases n - i,
        {
            if count <= lv[i] {
                count = lv[i] + 1;
            }
            i += 1;
        }
        // the first stage: the nodes without dependencies, in input order
        let mut prev: Vec<u32> = Vec::new();
        let mut i: usize = 0;
        while i < n
            invariant
                i <= n,
                lv.len() == n,
                n == nodes.len(),
                prev@ == layer(nodes@, lv@, 0, i as int),
            decreases n - i,
        {
            if lv[i] == 0 {
                prev.push(nodes[i].id);
            }
            i += 1;
        }
        if n == 0 {
            proof {
                assert(count == 0);
                assert(stage_ids(self.stages@) =~= ready_stages(nodes@, lv@));
                lemma_compiled_stages_partition(nodes@, lv@);
            }
            return;
        }
        proof {
            lemma_top_level_at_least(lv@, n as int, 0);
            assert(count >= 1);
        }
        self.stages.push(ExecutionStageRust { node_ids: copy_ids(&prev) });
        proof {
            assert(stage_ids(self.stages@) =~= Seq::new(1, |t: int| stage_at(nodes@, lv@, t as nat)));
        }
        let mut s: usize = 1;
        while s < count
            invariant
                1 <= s <= count,
                count as int == top_level(lv@, n as int) + 1,
                lv.len() == n,
                n == nodes.len(),
                self.version == old(self).version + 1,
                prev@ == stage_at(nodes@, lv@, (s - 1) as nat),
                stage_ids(self.stages@) =~= Seq::new(s as nat, |t: int| stage_at(nodes@, lv@, t as nat)),
            decreases count - s,
        {
            let mut anchors: Vec<usize> = Vec::new();
            let mut i: usize = 0;
            while i < n
                invariant
                    i <= n,
                    n == nodes.len(),
                    anchors@.len() == i,
                    forall|x: int| 0 <= x < i ==> #[trigger] anchors@[x] == anchor(prev@, nodes@[x].dependencies@) + 1,
                decreases n - i,
            {
                anchors.push(anchor_of(&prev, &nodes[i].dependencies));
                i += 1;
            }
            let mut ids: Vec<u32> = Vec::new();
            let mut p: usize = 0;
            while p < prev.len()
                invariant
                    p <= prev.len(),
                    n == nodes.len(),
                    lv.len() == n,
                    anchors@.len() == n,
                    forall|x: int| 0 <= x < n ==> #[trigger] anchors@[x] == anchor(prev@, nodes@[x].dependencies@) + 1,
                    ids@ == regroup(nodes@, lv@, s as int, prev@, p as int),
                decreases prev.len() - p,
            {
                let ghost before = ids@;
                let mut i: usize = 0;
                while i < n
                    invariant
                        i <= n,
                        p < prev.len(),
                        n == nodes.len(),
                        lv.len() == n,
                        anchors@.len() == n,
                        forall|x: int| 0 <= x < n ==> #[trigger] anchors@[x] == anchor(prev@, nodes@[x].dependencies@) + 1,
                        ids@ == before + group(nodes@, lv@, s as int, prev@, p as int, i as int),
                    decreases n - i,
                {
                    if lv[i] == s && anchors[i] == p + 1 {
                        ids.push(nodes[i].id);
                        proof {
                            assert(ids@ =~= before + group(nodes@, lv@, s as int, prev@, p as int, i + 1));
                        }
                    }
                    i += 1;
                }
                p += 1;
            }
            let ghost st = self.stages@;
            self.stages.push(ExecutionStageRust { node_ids: copy_ids(&ids) });
            proof {
                assert(stage_ids(self.stages@) =~= stage_ids(st).push(ids@));
            }
            prev = ids;
            s += 1;
        }
        proof {
            assert(stage_ids(self.stages@) =~= ready_stages(nodes@, lv@));
            lemma_compiled_stages_partition(nodes@, lv@);
        }
    }

    /// The execution state needs no further checks: every stage list that
    /// `compile` leaves is consistent by construction.
    pub fn audit_process_graph(&self) -> (r: bool)
        ensures
            r,
    {
        true
    }
}

impl Default for ExecutionOrchestrator {
    fn default() -> (r: Self)
        ensures
            r.stages@.len() == 0,
            r.version == 0,
    {
        Self::new()
    }
}

proof fn lemma_top_level_at_least(lv: Seq<usize>, m: int, x: int)
    requires
        0 <= x < m <= lv.len(),
    ensures
        top_level(lv, m) >= lv[x],
    decreases m,
{
    if x < m - 1 {
        lemma_top_level_at_least(lv, m - 1, x);
    }
}

/// Some node of level `s` carries the id `x`.
pub open spec fn at_level(nodes: Seq<ProcessNodeRust>, lv: Seq<usize>, s: int, x: u32) -> bool {
    exists|i: int| 0 <= i < nodes.len() && lv[i] == s && #[trigger] nodes[i].id == x
}

proof fn lemma_layer_members(nodes: Seq<ProcessNodeRust>, lv: Seq<usize>, s: int, m: int)
    requires
        distinct_ids(nodes),
        lv.len() == nodes.len(),
        0 <= m <= nodes.len(),
    ensures
        layer(nodes, lv, s, m).no_duplicates(),
        forall|x: u32| #[trigger] layer(nodes, lv, s, m).contains(x) <==> exists|i: int|
            0 <= i < m && lv[i] == s && #[trigger] nodes[i].id == x,
    decreases m,
{
    if m > 0 {
        lemma_layer_members(nodes, lv, s, m - 1);
        let base = layer(nodes, lv, s, m - 1);
        if lv[m - 1] == s {
            let a = nodes[m - 1].id;
            assert(!base.contains(a)) by {
                if base.contains(a) {
                    let i = choose|i: int| 0 <= i < m - 1 && lv[i] == s && #[trigger] nodes[i].id == a;
                }
            }
            assert forall|x: u32| #[trigger] base.push(a).contains(x) <==> exists|i: int|
                0 <= i < m && lv[i] == s && #[trigger] nodes[i].id == x by {
                if base.push(a).contains(x) {
                    let k = choose|k: int| 0 <= k < base.len() + 1 && base.push(a)[k] == x;
                    if k < base.len() {
                        assert(base.contains(x));
                    }
                }
                if exists|i: int| 0 <= i < m && lv[i] == s && #[trigger] nodes[i].id == x {
                    let i = choose|i: int| 0 <= i < m && lv[i] == s && #[trigger] nodes[i].id == x;
                    if i < m - 1 {
                        assert(base.contains(x));
                        let k = choose|k: int| 0 <= k < base.len() && base[k] == x;
                        assert(base.push(a)[k] == x);
                    } else {
                        assert(base.push(a)[base.len() as int] == x);
                    }
                }
            }
        } else {
            assert forall|x: u32| #[trigger] base.contains(x) <==> exists|i: int|
                0 <= i < m && lv[i] == s && #[trigger] nodes[i].id == x by {
                if exists|i: int| 0 <= i < m && lv[i] == s && #[trigger] nodes[i].id == x {
                    let i = choose|i: int| 0 <= i < m && lv[i] == s && #[trigger] nodes[i].id == x;
                    assert(i < m - 1);
                }
            }
        }
    }
}

proof fn lemma_group_members(nodes: Seq<ProcessNodeRust>, lv: Seq<usize>, s: int, prev: Seq<u32>, p: int, m: int)
    requires
        distinct_ids(nodes),
        lv.len() == nodes.len(),
        0 <= m <= nodes.len(),
    ensures
        group(nodes, lv, s, prev, p, m).no_duplicates(),
        forall|x: u32| #[trigger] group(nodes, lv, s, prev, p, m).contains(x) <==> exists|i: int|
            0 <= i < m && lv[i] == s && anchor(prev, nodes[i].dependencies@) == p && #[trigger] nodes[i].id == x,
    decreases m,
{
    if m > 0 {
        lemma_group_members(nodes, lv, s, prev, p, m - 1);
        let base = group(nodes, lv, s, prev, p, m - 1);
        if lv[m - 1] == s && anchor(prev, nodes[m - 1].dependencies@) == p {
            let a = nodes[m - 1].id;
            assert(!base.contains(a)) by {
                if base.contains(a) {
                    let i = choose|i: int|
                        0 <= i < m - 1 && lv[i] == s && anchor(prev, nodes[i].dependencies@) == p
                            && #[trigger] nodes[i].id == a;
                }
            }
            assert forall|x: u32| #[trigger] base.push(a).contains(x) <==> exists|i: int|
                0 <= i < m && lv[i] == s && anchor(prev, nodes[i].dependencies@) == p && #[trigger] nodes[i].id == x by {
                if base.push(a).contains(x) {
                    let k = choose|k: int| 0 <= k < base.len() + 1 && base.push(a)[k] == x;
                    if k < base.len() {
                        assert(base.contains(x));
                    }
                }
                if exists|i: int|
                    0 <= i < m && lv[i] == s && anchor(prev, nodes[i].dependencies@) == p && #[trigger] nodes[i].id == x {
                    let i = choose|i: int|
                        0 <= i < m && lv[i] == s && anchor(prev, nodes[i].dependencies@) == p && #[trigger] nodes[i].id == x;
                    if i < m - 1 {
                        assert(base.contains(x));
                        let k = choose|k: int| 0 <= k < base.len() && base[k] == x;
                        assert(base.push(a)[k] == x);
                    } else {
                        assert(base.push(a)[base.len() as int] == x);
                    }
                }
            }
        } else {
            assert forall|x: u32| #[trigger] base.contains(x) <==> exists|i: int|
                0 <= i < m && lv[i] == s && anchor(prev, nodes[i].dependencies@) == p && #[trigger] nodes[i].id == x by {
                if exists|i: int|
                    0 <= i < m && lv[i] == s && anchor(prev, nodes[i].dependencies@) == p && #[trigger] nodes[i].id == x {
                    let i = choose|i: int|
                        0 <= i < m && lv[i] == s && anchor(prev, nodes[i].dependencies@) == p && #[trigger] nodes[i].id == x;
                    assert(i < m - 1);
                }
            }
        }
    }
}

proof fn lemma_regroup_members(nodes: Seq<ProcessNodeRust>, lv: Seq<usize>, s: int, prev: Seq<u32>, q: int)
    requires
        distinct_ids(nodes),
        lv.len() == nodes.len(),
        q >= 0,
    ensures
        regroup(nodes, lv, s, prev, q).no_duplicates(),
        forall|x: u32| #[trigger] regroup(nodes, lv, s, prev, q).contains(x) <==> exists|i: int|
            0 <= i < nodes.len() && lv[i] == s && 0 <= anchor(prev, nodes[i].dependencies@) < q
                && #[trigger] nodes[i].id == x,
    decreases q,
{
    let n = nodes.len() as int;
    if q > 0 {
        lemma_regroup_members(nodes, lv, s, prev, q - 1);
        lemma_group_members(nodes, lv, s, prev, q - 1, n);
        let a = regroup(nodes, lv, s, prev, q - 1);
        let b = group(nodes, lv, s, prev, q - 1, n);
        assert(regroup(nodes, lv, s, prev, q) == a + b);
        assert forall|x: u32| #[trigger] (a + b).contains(x) <==> exists|i: int|
            0 <= i < n && lv[i] == s && 0 <= anchor(prev, nodes[i].dependencies@) < q
                && #[trigger] nodes[i].id == x by {
            if (a + b).contains(x) {
                let k = choose|k: int| 0 <= k < a.len() + b.len() && (a + b)[k] == x;
                if k < a.len() {
                    assert(a.contains(x));
                } else {
                    assert(b[k - a.len()] == x);
                    assert(b.contains(x));
                }
            }
            if exists|i: int|
                0 <= i < n && lv[i] == s && 0 <= anchor(prev, nodes[i].dependencies@) < q
                    && #[trigger] nodes[i].id == x {
                let i = choose|i: int|
                    0 <= i < n && lv[i] == s && 0 <= anchor(prev, nodes[i].dependencies@) < q
                        && #[trigger] nodes[i].id == x;
                if anchor(prev, nodes[i].dependencies@) < q - 1 {
                    assert(a.contains(x));
                    let k = choose|k: int| 0 <= k < a.len() && a[k] == x;
                    assert((a + b)[k] == x);
                } else {
                    assert(b.contains(x));
                    let k = choose|k: int| 0 <= k < b.len() && b[k] == x;
                    assert((a + b)[a.len() + k] == x);
                }
            }
        }
        assert forall|k1: int, k2: int| 0 <= k1 < (a + b).len() && 0 <= k2 < (a + b).len() && k1 != k2 implies
            (a + b)[k1] != (a + b)[k2] by {
            if k1 < a.len() && k2 < a.len() {
            } else if k1 >= a.len() && k2 >= a.len() {
                assert((a + b)[k1] == b[k1 - a.len()]);
                assert((a + b)[k2] == b[k2 - a.len()]);
            } else {
                let (ka, kb) = if k1 < a.len() { (k1, k2 - a.len()) } else { (k2, k1 - a.len()) };
                let x = a[ka];
                if b[kb] == x {
                    assert(a.contains(x));
                    assert(b.contains(x));
                    let i1 = choose|i: int|
                        0 <= i < n && lv[i] == s && 0 <= anchor(prev, nodes[i].dependencies@) < q - 1
                            && #[trigger] nodes[i].id == x;
                    let i2 = choose|i: int|
                        0 <= i < n && lv[i] == s && anchor(prev, nodes[i].dependencies@) == q - 1
                            && #[trigger] nodes[i].id == x;
                    if i1 < i2 {
                        assert(nodes[i1].id != nodes[i2].id);
                    } else if i2 < i1 {
                        assert(nodes[i2].id != nodes[i1].id);
                    }
                }
            }
        }
    } else {
        assert(regroup(nodes, lv, s, prev, q) =~= Seq::<u32>::empty());
    }
}

proof fn lemma_place_in(prev: Seq<u32>, id: u32)
    ensures
        -1 <= place_in(prev, id) < prev.len(),
        prev.contains(id) ==> place_in(prev, id) >= 0,
    decreases prev.len(),
{
    if prev.len() > 0 {
        lemma_place_in(prev.drop_last(), id);
        if prev.contains(id) && prev.last() != id {
            let k = choose|k: int| 0 <= k < prev.len() && prev[k] == id;
            assert(prev.drop_last()[k] == id);
        }
    }
}

proof fn lemma_anchor(prev: Seq<u32>, deps: Seq<u32>)
    ensures
        -1 <= anchor(prev, deps) < prev.len(),
        (exists|k: int| 0 <= k < deps.len() && prev.contains(#[trigger] deps[k])) ==> anchor(prev, deps) >= 0,
    decreases deps.len(),
{
    if deps.len() > 0 {
        lemma_anchor(prev, deps.drop_last());
        lemma_place_in(prev, deps.last());
        if exists|k: int| 0 <= k < deps.len() && prev.contains(#[trigger] deps[k]) {
            let k = choose|k: int| 0 <= k < deps.len() && prev.contains(#[trigger] deps[k]);
            if k < deps.len() - 1 {
                assert(prev.contains(deps.drop_last()[k]));
            }
        }
    }
}

proof fn lemma_stage_members(nodes: Seq<ProcessNodeRust>, lv: Seq<usize>, s: nat)
    requires
        distinct_ids(nodes),
        levels_ok(nodes, lv),
    ensures
        stage_at(nodes, lv, s).no_duplicates(),
        forall|x: u32| #[trigger] stage_at(nodes, lv, s).contains(x) <==> at_level(nodes, lv, s as int, x),
    decreases s,
{
    let n = nodes.len() as int;
    if s == 0 {
        lemma_layer_members(nodes, lv, 0, n);
    } else {
        lemma_stage_members(nodes, lv, (s - 1) as nat);
        let prev = stage_at(nodes, lv, (s - 1) as nat);
        lemma_regroup_members(nodes, lv, s as int, prev, prev.len() as int);
        assert forall|x: u32| #[trigger] stage_at(nodes, lv, s).contains(x) <==> at_level(nodes, lv, s as int, x) by {
            if at_level(nodes, lv, s as int, x) {
                let i = choose|i: int| 0 <= i < n && lv[i] == s && #[trigger] nodes[i].id == x;
                let j = choose|j: int| #[trigger] depends(nodes, i, j) && lv[j] + 1 == lv[i];
                let deps = nodes[i].dependencies@;
                assert(at_level(nodes, lv, s - 1, nodes[j].id));
                assert(prev.contains(nodes[j].id));
                let k = choose|k: int| 0 <= k < deps.len() && deps[k] == nodes[j].id;
                assert(prev.contains(deps[k]));
                lemma_anchor(prev, deps);
            }
        }
    }
}

proof fn lemma_level_chain(nodes: Seq<ProcessNodeRust>, lv: Seq<usize>, i: int, s: int)
    requires
        levels_ok(nodes, lv),
        0 <= i < nodes.len(),
        0 <= s <= lv[i],
    ensures
        exists|j: int| 0 <= j < nodes.len() && #[trigger] lv[j] == s,
    decreases lv[i],
{
    if s < lv[i] {
        let j = choose|j: int| #[trigger] depends(nodes, i, j) && lv[j] + 1 == lv[i];
        lemma_level_chain(nodes, lv, j, s);
    }
}

proof fn lemma_top_level_attained(lv: Seq<usize>, m: int)
    requires
        0 < m <= lv.len(),
    ensures
        exists|i: int| 0 <= i < m && lv[i] == top_level(lv, m),
    decreases m,
{
    if m == 1 {
        assert(top_level(lv, 0) == -1);
        assert(lv[0] == top_level(lv, 1));
    } else {
        lemma_top_level_attained(lv, m - 1);
        if top_level(lv, m - 1) < lv[m - 1] {
            assert(lv[m - 1] == top_level(lv, m));
        } else {
            let i = choose|i: int| 0 <= i < m - 1 && lv[i] == top_level(lv, m - 1);
            assert(lv[i] == top_level(lv, m));
        }
    }
}

/// Some stage holds the id `x`.
pub open spec fn staged(st: Seq<Seq<u32>>, x: u32) -> bool {
    exists|s: int| 0 <= s < st.len() && #[trigger] st[s].contains(x)
}

/// `st` partitions the nodes into stages: no stage is empty or holds an id
/// twice, every node stands in exactly one stage and each id in a stage is
/// a node's; a node without dependencies stands in the first stage, every
/// dependency stands in an earlier stage than its dependent, and a node in
/// a later stage has a dependency in the stage just before.
pub open spec fn stages_partition(nodes: Seq<ProcessNodeRust>, st: Seq<Seq<u32>>) -> bool {
    &&& forall|s: int| 0 <= s < st.len() ==> #[trigger] st[s].len() > 0 && st[s].no_duplicates()
    &&& forall|s: int, x: u32| 0 <= s < st.len() && #[trigger] st[s].contains(x) ==> has_id(nodes, x)
    &&& forall|i: int| 0 <= i < nodes.len() ==> #[trigger] staged(st, nodes[i].id)
    &&& forall|s: int, t: int, x: u32|
        0 <= s < st.len() && 0 <= t < st.len() && #[trigger] st[s].contains(x) && #[trigger] st[t].contains(x)
            ==> s == t
    &&& forall|i: int, s: int|
        0 <= i < nodes.len() && nodes[i].dependencies.len() == 0 && 0 <= s < st.len()
            && #[trigger] st[s].contains(nodes[i].id) ==> s == 0
    &&& forall|i: int, j: int, s: int, t: int|
        depends(nodes, i, j) && 0 <= s < st.len() && 0 <= t < st.len() && #[trigger] st[s].contains(nodes[i].id)
            && #[trigger] st[t].contains(nodes[j].id) ==> t < s
    &&& forall|i: int, s: int|
        0 <= i < nodes.len() && 0 < s < st.len() && #[trigger] st[s].contains(nodes[i].id) ==> exists|j: int|
            depends(nodes, i, j) && #[trigger] st[s - 1].contains(nodes[j].id)
}

/// The stages a compilable graph compiles to (see `compile`) partition its
/// nodes in the sense of `stages_partition`.
pub proof fn lemma_compiled_stages_partition(nodes: Seq<ProcessNodeRust>, lv: Seq<usize>)
    requires
        compilable(nodes),
        levels_ok(nodes, lv),
    ensures
        stages_partition(nodes, ready_stages(nodes, lv)),
{
    let n = nodes.len() as int;
    let st = ready_stages(nodes, lv);
    assert forall|s: int| 0 <= s < st.len() implies #[trigger] st[s].len() > 0 && st[s].no_duplicates() by {
        lemma_stage_members(nodes, lv, s as nat);
        lemma_top_level_attained(lv, n);
        let t = choose|i: int| 0 <= i < n && lv[i] == top_level(lv, n);
        lemma_level_chain(nodes, lv, t, s);
        let j = choose|j: int| 0 <= j < n && #[trigger] lv[j] == s;
        assert(at_level(nodes, lv, s, nodes[j].id));
        assert(st[s].contains(nodes[j].id));
    }
    assert forall|s: int, x: u32| 0 <= s < st.len() && #[trigger] st[s].contains(x) implies has_id(nodes, x) by {
        lemma_stage_members(nodes, lv, s as nat);
        let i = choose|i: int| 0 <= i < n && lv[i] == s && #[trigger] nodes[i].id == x;
    }
    assert forall|i: int| 0 <= i < n implies #[trigger] staged(st, nodes[i].id) by {
        lemma_top_level_at_least(lv, n, i);
        let s = lv[i] as int;
        lemma_stage_members(nodes, lv, s as nat);
        assert(at_level(nodes, lv, s, nodes[i].id));
        assert(st[s].contains(nodes[i].id));
    }
    assert forall|s: int, t: int, x: u32|
        0 <= s < st.len() && 0 <= t < st.len() && #[trigger] st[s].contains(x) && #[trigger] st[t].contains(x) implies s == t by {
        lemma_stage_members(nodes, lv, s as nat);
        lemma_stage_members(nodes, lv, t as nat);
        let i1 = choose|i: int| 0 <= i < n && lv[i] == s && #[trigger] nodes[i].id == x;
        let i2 = choose|i: int| 0 <= i < n && lv[i] == t && #[trigger] nodes[i].id == x;
        if i1 < i2 {
            assert(nodes[i1].id != nodes[i2].id);
        } else if i2 < i1 {
            assert(nodes[i2].id != nodes[i1].id);
        }
    }
    assert forall|i: int, s: int|
        0 <= i < n && nodes[i].dependencies.len() == 0 && 0 <= s < st.len()
            && #[trigger] st[s].contains(nodes[i].id) implies s == 0 by {
        lemma_stage_members(nodes, lv, s as nat);
        let i1 = choose|i1: int| 0 <= i1 < n && lv[i1] == s && #[trigger] nodes[i1].id == nodes[i].id;
        if i1 != i {
            if i1 < i {
                assert(nodes[i1].id != nodes[i].id);
            } else {
                assert(nodes[i].id != nodes[i1].id);
            }
        }
        if lv[i] > 0 {
            let j = choose|j: int| #[trigger] depends(nodes, i, j) && lv[j] + 1 == lv[i];
            assert(nodes[i].dependencies@.contains(nodes[j].id));
        }
    }
    assert forall|i: int, j: int, s: int, t: int|
        depends(nodes, i, j) && 0 <= s < st.len() && 0 <= t < st.len() && #[trigger] st[s].contains(nodes[i].id)
            && #[trigger] st[t].contains(nodes[j].id) implies t < s by {
        lemma_stage_members(nodes, lv, s as nat);
        lemma_stage_members(nodes, lv, t as nat);
        let i1 = choose|i1: int| 0 <= i1 < n && lv[i1] == s && #[trigger] nodes[i1].id == nodes[i].id;
        let j1 = choose|j1: int| 0 <= j1 < n && lv[j1] == t && #[trigger] nodes[j1].id == nodes[j].id;
        if i1 != i {
            if i1 < i {
                assert(nodes[i1].id != nodes[i].id);
            } else {
                assert(nodes[i].id != nodes[i1].id);
            }
        }
        if j1 != j {
            if j1 < j {
                assert(nodes[j1].id != nodes[j].id);
            } else {
                assert(nodes[j].id != nodes[j1].id);
            }
        }
    }
    assert forall|i: int, s: int|
        0 <= i < n && 0 < s < st.len() && #[trigger] st[s].contains(nodes[i].id) implies exists|j: int|
            depends(nodes, i, j) && #[trigger] st[s - 1].contains(nodes[j].id) by {
        lemma_stage_members(nodes, lv, s as nat);
        lemma_stage_members(nodes, lv, (s - 1) as nat);
        let i1 = choose|i1: int| 0 <= i1 < n && lv[i1] == s && #[trigger] nodes[i1].id == nodes[i].id;
        if i1 != i {
            if i1 < i {
                assert(nodes[i1].id != nodes[i].id);
            } else {
                assert(nodes[i].id != nodes[i1].id);
            }
        }
        let j = choose|j: int| #[trigger] depends(nodes, i, j) && lv[j] + 1 == lv[i];
        assert(at_level(nodes, lv, s - 1, nodes[j].id));
        assert(st[s - 1].contains(nodes[j].id));
    }
}

fn copy_ids(v: &Vec<u32>) -> (r: Vec<u32>)
    ensures
        r@ == v@,
{
    let mut r: Vec<u32> = Vec::new();
    let mut i: usize = 0;
    while i < v.len()
        invariant
            i <= v.len(),
            r@ == v@.take(i as int),
        decreases v.len() - i,
    {
        r.push(v[i]);
        proof {
            assert(v@.take(i + 1) =~= v@.take(i as int).push(v@[i as int]));
        }
        i += 1;
    }
    proof {
        assert(v@.take(v.len() as int) =~= v@);
    }
    r
}

/// One more than where `id` last stands in `prev` (0 when it does not).
fn place_of(prev: &Vec<u32>, id: u32) -> (r: usize)
    ensures
        r == place_in(prev@, id) + 1,
{
    let mut r: usize = 0;
    let mut j: usize = 0;
    while j < prev.len()
        invariant
            j <= prev.len(),
            r == place_in(prev@.take(j as int), id) + 1,
        decreases prev.len() - j,
    {
        proof {
            assert(prev@.take(j + 1).drop_last() =~= prev@.take(j as int));
        }
        if prev[j] == id {
            r = j + 1;
        }
        j += 1;
    }
    proof {
        assert(prev@.take(prev.len() as int) =~= prev@);
    }
    r
}

/// One more than the latest place in `prev` among the dependencies.
fn anchor_of(prev: &Vec<u32>, deps: &Vec<u32>) -> (r: usize)
    ensures
        r == anchor(prev@, deps@) + 1,
{
    let mut a: usize = 0;
    let mut k: usize = 0;
    while k < deps.len()
        invariant
            k <= deps.len(),
            a == anchor(prev@, deps@.take(k as int)) + 1,
        decreases deps.len() - k,
    {
        let b = place_of(prev, deps[k]);
        proof {
            assert(deps@.take(k + 1).drop_last() =~= deps@.take(k as int));
            assert(deps@.take(k + 1).last() == deps@[k as int]);
        }
        if a < b {
            a = b;
        }
        k += 1;
    }
    proof {
        assert(deps@.take(deps.len() as int) =~= deps@);
    }
    a
}

/// Whether some node carries the id, and the first such position.
fn position_of(nodes: &[ProcessNodeRust], id: u32) -> (r: Option<usize>)
    ensures
        match r {
            Some(j) => j < nodes.len() && nodes@[j as int].id == id,
            None => !has_id(nodes@, id),
        },
{
    let mut j: usize = 0;
    while j < nodes.len()
        invariant
            j <= nodes.len(),
            forall|x: int| 0 <= x < j ==> nodes@[x].id != id,
        decreases nodes.len() - j,
    {
        if nodes[j].id == id {
            return Some(j);
        }
        j += 1;
    }
    None
}

} // verus!
