//! Id-keyed routing graphs and their index form.
//!
//! A routing map sends each node id to the ids it routes to.  Algorithms
//! run on the index form: the keys listed once in a vector, and each node's
//! routes to known ids as positions in that vector.
use vstd::prelude::*;
use crate::graph::{acyclic, edge, is_rank};

verus! {

/// Node `a` routes to the known node `b`.
pub open spec fn id_link(r: Map<u32, Seq<u32>>, a: u32, b: u32) -> bool {
    r.contains_key(a) && r.contains_key(b) && r[a].contains(b)
}

/// `f` strictly increases along every route.
pub open spec fn id_rank(r: Map<u32, Seq<u32>>, f: spec_fn(u32) -> nat) -> bool {
    forall|a: u32, b: u32| #[trigger] id_link(r, a, b) ==> f(a) < f(b)
}

/// No chain of routes returns to its start.
pub open spec fn id_acyclic(r: Map<u32, Seq<u32>>) -> bool {
    exists|f: spec_fn(u32) -> nat| id_rank(r, f)
}

/// Every route names a node of the map.
pub open spec fn id_all_known(r: Map<u32, Seq<u32>>) -> bool {
    forall|a: u32, k: int| r.contains_key(a) && 0 <= k < r[a].len() ==> r.contains_key(#[trigger] r[a][k])
}

/// The node at each key position, gathered into index form.
pub open spec fn index_graph(keys: Seq<u32>, r: Map<u32, Seq<u32>>, g: Seq<Seq<usize>>) -> bool {
    &&& g.len() == keys.len()
    &&& forall|i: int, x: int| 0 <= i < g.len() && 0 <= x < g[i].len() ==> #[trigger] g[i][x] < keys.len()
    &&& forall|i: int| 0 <= i < g.len() ==> #[trigger] g[i].no_duplicates()
    &&& forall|i: int, j: int|
        0 <= i < keys.len() && 0 <= j < keys.len() ==> (#[trigger] g[i].contains(j as usize)
            == r[keys[i]].contains(keys[j]))
}

/// `keys` lists the keys of `m`, each once.
pub open spec fn key_list(keys: Seq<u32>, r: Map<u32, Seq<u32>>) -> bool {
    &&& keys.no_duplicates()
    &&& forall|k: u32| #[trigger] keys.contains(k) <==> r.contains_key(k)
}

pub proof fn lemma_edge_link(keys: Seq<u32>, r: Map<u32, Seq<u32>>, g: Seq<Seq<usize>>, i: int, j: int)
    requires
        key_list(keys, r),
        index_graph(keys, r, g),
        0 <= i < keys.len(),
        0 <= j < keys.len(),
        keys.len() <= usize::MAX,
    ensures
        edge(g, i, j) == id_link(r, keys[i], keys[j]),
{
    assert(keys.contains(keys[i]));
    assert(keys.contains(keys[j]));
    if edge(g, i, j) {
        let k = choose|k: int| 0 <= k < g[i].len() && g[i][k] == j;
        assert(g[i].contains(j as usize));
    }
    if id_link(r, keys[i], keys[j]) {
        assert(g[i].contains(j as usize));
        let k = choose|k: int| 0 <= k < g[i].len() && g[i][k] == j as usize;
        assert(g[i][k] == j);
    }
}

pub proof fn lemma_key_index(keys: Seq<u32>, r: Map<u32, Seq<u32>>, k: u32) -> (i: int)
    requires
        key_list(keys, r),
        r.contains_key(k),
    ensures
        0 <= i < keys.len(),
        keys[i] == k,
{
    assert(keys.contains(k));
    choose|i: int| 0 <= i < keys.len() && keys[i] == k
}

pub proof fn lemma_acyclic_transfer(keys: Seq<u32>, r: Map<u32, Seq<u32>>, g: Seq<Seq<usize>>)
    requires
        key_list(keys, r),
        index_graph(keys, r, g),
        keys.len() <= usize::MAX,
    ensures
        acyclic(g) == id_acyclic(r),
{
    if acyclic(g) {
        let f = choose|f: spec_fn(int) -> nat| is_rank(g, f);
        let fm = |k: u32| if r.contains_key(k) { f(choose|i: int| 0 <= i < keys.len() && keys[i] == k) } else { 0nat };
        assert forall|a: u32, b: u32| #[trigger] id_link(r, a, b) implies fm(a) < fm(b) by {
            let ia = lemma_key_index(keys, r, a);
            let ib = lemma_key_index(keys, r, b);
            let ca = choose|i: int| 0 <= i < keys.len() && keys[i] == a;
            let cb = choose|i: int| 0 <= i < keys.len() && keys[i] == b;
            assert(ca == ia);
            assert(cb == ib);
            lemma_edge_link(keys, r, g, ia, ib);
        }
        assert(id_rank(r, fm));
    }
    if id_acyclic(r) {
        let fm = choose|f: spec_fn(u32) -> nat| id_rank(r, f);
        let f = |i: int| if 0 <= i < keys.len() { fm(keys[i]) } else { 0nat };
        assert forall|i: int, j: int| #[trigger] edge(g, i, j) implies f(i) < f(j) by {
            let k = choose|k: int| 0 <= k < g[i].len() && g[i][k] == j;
            assert(g[i][k] < keys.len());
            lemma_edge_link(keys, r, g, i, j);
        }
        assert(is_rank(g, f));
    }
}

/// Position of `k` in `keys`.
pub fn key_index(keys: &Vec<u32>, k: u32) -> (r: Option<usize>)
    ensures
        match r {
            Some(i) => i < keys.len() && keys@[i as int] == k,
            None => !keys@.contains(k),
        },
{
    let mut i: usize = 0;
    while i < keys.len()
        invariant
            i <= keys.len(),
            forall|x: int| 0 <= x < i ==> keys@[x] != k,
        decreases keys.len() - i,
    {
        if keys[i] == k {
            return Some(i);
        }
        i += 1;
    }
    None
}

/// Whether `v` holds `i`.
pub fn contains_index(v: &Vec<usize>, i: usize) -> (r: bool)
    ensures
        r == v@.contains(i),
{
    let mut k: usize = 0;
    while k < v.len()
        invariant
            k <= v.len(),
            forall|x: int| 0 <= x < k ==> v@[x] != i,
        decreases v.len() - k,
    {
        if v[k] == i {
            return true;
        }
        k += 1;
    }
    false
}

/// The indices of the known downstream ids of a node, and whether one of
/// its ids is unknown.
pub fn downstream_indices(keys: &Vec<u32>, down: &Vec<u32>) -> (r: (Vec<usize>, bool))
    requires
        keys@.no_duplicates(),
    ensures
        forall|x: int| 0 <= x < r.0.len() ==> r.0@[x] < keys.len(),
        forall|j: int|
            0 <= j < keys.len() ==> #[trigger] r.0@.contains(j as usize) == down@.contains(keys@[j]),
        r.0@.no_duplicates(),
        r.1 == exists|x: int| 0 <= x < down.len() && !keys@.contains(#[trigger] down@[x]),
{
    let mut out: Vec<usize> = Vec::new();
    let mut missing = false;
    let mut x: usize = 0;
    while x < down.len()
        invariant
            x <= down.len(),
            keys@.no_duplicates(),
            out@.no_duplicates(),
            forall|y: int| 0 <= y < out.len() ==> out@[y] < keys.len(),
            forall|j: int|
                0 <= j < keys.len() ==> #[trigger] out@.contains(j as usize) == down@.take(
                    x as int,
                ).contains(keys@[j]),
            missing == exists|y: int| 0 <= y < x && !keys@.contains(#[trigger] down@[y]),
        decreases down.len() - x,
    {
        let ghost before = out@;
        let d = down[x];
        let found = key_index(keys, d);
        match found {
            Some(i) => {
                if !contains_index(&out, i) {
                    out.push(i);
                }
            },
            None => {
                missing = true;
            },
        }
        proof {
            let s1 = down@.take(x + 1);
            let s0 = down@.take(x as int);
            assert(s1 =~= s0.push(d));
            assert forall|j: int| 0 <= j < keys.len() implies #[trigger] out@.contains(j as usize)
                == s1.contains(keys@[j]) by {
                if s1.contains(keys@[j]) {
                    let y = choose|y: int| 0 <= y < s1.len() && s1[y] == keys@[j];
                    if y < x {
                        assert(s0[y] == keys@[j]);
                        assert(before.contains(j as usize));
                        let z = choose|z: int| 0 <= z < before.len() && before[z] == j as usize;
                        assert(out@[z] == j as usize);
                    } else {
                        assert(keys@.contains(d));
                        let i = found.unwrap();
                        if before.contains(i) {
                            let z = choose|z: int| 0 <= z < before.len() && before[z] == i;
                            assert(out@[z] == i);
                        } else {
                            assert(out@[out.len() - 1] == i);
                        }
                        assert(out@.contains(i));
                        assert(keys@[i as int] == d);
                        assert(keys@[j] == d);
                        assert(i == j);
                        assert(out@.contains(j as usize));
                    }
                }
                if out@.contains(j as usize) {
                    let y = choose|y: int| 0 <= y < out.len() && out@[y] == j as usize;
                    if y < before.len() {
                        assert(out@[y] == before[y]);
                        assert(before[y] == j as usize);
                        assert(before.contains(j as usize));
                        assert(s0.contains(keys@[j]));
                        let z = choose|z: int| 0 <= z < s0.len() && s0[z] == keys@[j];
                        assert(s1[z] == keys@[j]);
                    } else {
                        assert(s1[x as int] == keys@[j]);
                    }
                }
            }
        }
        x += 1;
    }
    proof {
        assert(down@.take(down.len() as int) =~= down@);
    }
    (out, missing)
}


} // verus!
