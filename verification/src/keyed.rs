//! Tables keyed by text and kept in ascending key order, the order in
//! which a `BTreeMap<String, _>` walks its entries.
use vstd::prelude::*;
use crate::sorting::{is_perm, stable_order, strict_weak};
use crate::text::{copy_str, eq_ignore_case, seq_lt, str_eq, str_lt};

verus! {

pub proof fn lemma_seq_lt_irrefl(a: Seq<char>)
    ensures
        !seq_lt(a, a),
    decreases a.len(),
{
    if a.len() > 0 {
        lemma_seq_lt_irrefl(a.drop_first());
    }
}

pub proof fn lemma_seq_lt_trans(a: Seq<char>, b: Seq<char>, c: Seq<char>)
    requires
        seq_lt(a, b),
        seq_lt(b, c),
    ensures
        seq_lt(a, c),
    decreases a.len(),
{
    if a.len() > 0 && b.len() > 0 && c.len() > 0 && a[0] == b[0] && b[0] == c[0] {
        lemma_seq_lt_trans(a.drop_first(), b.drop_first(), c.drop_first());
    }
}

pub proof fn lemma_seq_lt_total(a: Seq<char>, b: Seq<char>)
    ensures
        a == b || seq_lt(a, b) || seq_lt(b, a),
    decreases a.len(),
{
    if a.len() == 0 && b.len() == 0 {
        assert(a =~= b);
    } else if a.len() > 0 && b.len() > 0 {
        if a[0] == b[0] {
            lemma_seq_lt_total(a.drop_first(), b.drop_first());
            if a.drop_first() == b.drop_first() {
                assert(a.len() == b.len());
                assert(a =~= b) by {
                    assert forall|i: int| 0 <= i < a.len() implies a[i] == b[i] by {
                        if i > 0 {
                            assert(a[i] == a.drop_first()[i - 1]);
                            assert(b[i] == b.drop_first()[i - 1]);
                        }
                    }
                }
            }
        } else {
            lemma_code_point_distinct(a[0], b[0]);
        }
    }
}

proof fn lemma_code_point_distinct(c: char, d: char)
    ensures
        c != d ==> (c as u32) != (d as u32),
{
    assert(0 <= c as int <= 0x10FFFF);
    assert(0 <= d as int <= 0x10FFFF);
    assert((c as u32) as int == c as int);
    assert((d as u32) as int == d as int);
}

pub proof fn lemma_seq_lt_asym(a: Seq<char>, b: Seq<char>)
    requires
        seq_lt(a, b),
    ensures
        !seq_lt(b, a),
{
    if seq_lt(b, a) {
        lemma_seq_lt_trans(a, b, a);
        lemma_seq_lt_irrefl(a);
    }
}

/// Keys in strictly ascending order, so each key stands once.
pub open spec fn strictly_sorted(ks: Seq<Seq<char>>) -> bool {
    forall|a: int, b: int| 0 <= a < b < ks.len() ==> seq_lt(#[trigger] ks[a], #[trigger] ks[b])
}

/// The keys of a list of entries.
pub open spec fn key_seq<V>(es: Seq<(String, V)>) -> Seq<Seq<char>> {
    es.map_values(|e: (String, V)| e.0@)
}

/// The map from each key to the value beside it; a later entry wins.
pub open spec fn table<W>(ks: Seq<Seq<char>>, vs: Seq<W>) -> Map<Seq<char>, W>
    decreases ks.len(),
{
    if ks.len() == 0 || vs.len() == 0 {
        Map::empty()
    } else {
        table(ks.drop_last(), vs.drop_last()).insert(ks.last(), vs.last())
    }
}

pub proof fn lemma_sorted_distinct(ks: Seq<Seq<char>>)
    requires
        strictly_sorted(ks),
    ensures
        ks.no_duplicates(),
{
    assert forall|a: int, b: int| 0 <= a < ks.len() && 0 <= b < ks.len() && a != b implies ks[a] != ks[b] by {
        if a < b {
            assert(seq_lt(ks[a], ks[b]));
        } else {
            assert(seq_lt(ks[b], ks[a]));
        }
        lemma_seq_lt_irrefl(ks[a]);
    }
}

/// With distinct keys, the table maps each key to the value beside it and
/// holds no other key.
pub proof fn lemma_table<V>(ks: Seq<Seq<char>>, vs: Seq<V>)
    requires
        ks.len() == vs.len(),
        ks.no_duplicates(),
    ensures
        forall|i: int| 0 <= i < ks.len() ==> #[trigger] table(ks, vs).contains_key(ks[i]) && table(ks, vs)[ks[i]] == vs[i],
        forall|k: Seq<char>| #[trigger] table(ks, vs).contains_key(k) ==> ks.contains(k),
    decreases ks.len(),
{
    if ks.len() > 0 {
        let ks0 = ks.drop_last();
        let vs0 = vs.drop_last();
        assert(ks0.no_duplicates()) by {
            assert forall|a: int, b: int| 0 <= a < ks0.len() && 0 <= b < ks0.len() && a != b implies ks0[a] != ks0[b] by {
                assert(ks0[a] == ks[a] && ks0[b] == ks[b]);
            }
        }
        lemma_table(ks0, vs0);
        assert forall|i: int| 0 <= i < ks.len() implies #[trigger] table(ks, vs).contains_key(ks[i]) && table(ks, vs)[ks[i]] == vs[i] by {
            let t0 = table(ks0, vs0);
            assert(table(ks, vs) == t0.insert(ks.last(), vs.last()));
            if i < ks.len() - 1 {
                assert(ks0[i] == ks[i]);
                assert(vs0[i] == vs[i]);
                assert(t0.contains_key(ks0[i]) && t0[ks0[i]] == vs0[i]);
                assert(ks[i] != ks[ks.len() - 1]);
            } else {
                assert(ks[i] == ks.last());
            }
        }
        assert forall|k: Seq<char>| #[trigger] table(ks, vs).contains_key(k) implies ks.contains(k) by {
            if k != ks.last() {
                assert(table(ks0, vs0).contains_key(k));
                let i = choose|i: int| 0 <= i < ks0.len() && ks0[i] == k;
                assert(ks[i] == k);
            } else {
                assert(ks[ks.len() - 1] == k);
            }
        }
    }
}

/// Where `key` stands in the keys of `es`, or where it would be inserted to
/// keep them ascending.
pub fn key_slot<V>(es: &Vec<(String, V)>, key: &str) -> (r: (bool, usize))
    requires
        strictly_sorted(key_seq(es@)),
    ensures
        r.1 <= es.len(),
        forall|x: int| 0 <= x < r.1 ==> seq_lt(#[trigger] key_seq(es@)[x], key@),
        r.0 ==> r.1 < es.len() && key_seq(es@)[r.1 as int] == key@,
        !r.0 ==> forall|x: int| r.1 <= x < es.len() ==> seq_lt(key@, #[trigger] key_seq(es@)[x]),
        r.0 == key_seq(es@).contains(key@),
{
    let ghost ks = key_seq(es@);
    let mut i: usize = 0;
    while i < es.len()
        invariant
            i <= es.len(),
            ks == key_seq(es@),
            strictly_sorted(ks),
            forall|x: int| 0 <= x < i ==> seq_lt(#[trigger] ks[x], key@),
        decreases es.len() - i,
    {
        let k = es[i].0.as_str();
        if !str_lt(k, key) {
            let found = str_eq(k, key);
            proof {
                lemma_seq_lt_total(ks[i as int], key@);
                assert forall|x: int| i <= x < es.len() implies seq_lt(key@, #[trigger] ks[x]) || (found
                    && x == i) by {
                    if x > i {
                        assert(seq_lt(ks[i as int], ks[x]));
                        if !found {
                            lemma_seq_lt_trans(key@, ks[i as int], ks[x]);
                        }
                    }
                }
                if found {
                    assert(ks[i as int] == key@);
                } else {
                    assert forall|x: int| 0 <= x < ks.len() implies ks[x] != key@ by {
                        if x < i {
                            lemma_seq_lt_irrefl(key@);
                        } else {
                            assert(seq_lt(key@, ks[x]));
                            lemma_seq_lt_irrefl(key@);
                        }
                    }
                }
            }
            return (found, i);
        }
        i += 1;
    }
    proof {
        assert forall|x: int| 0 <= x < ks.len() implies ks[x] != key@ by {
            lemma_seq_lt_irrefl(key@);
        }
    }
    (false, i)
}


/// Replacing the value at a position rebinds its key.
pub proof fn lemma_table_set<V>(ks: Seq<Seq<char>>, vs: Seq<V>, pos: int, v: V)
    requires
        ks.len() == vs.len(),
        ks.no_duplicates(),
        0 <= pos < ks.len(),
    ensures
        table(ks, vs.update(pos, v)) == table(ks, vs).insert(ks[pos], v),
{
    let a = table(ks, vs.update(pos, v));
    let b = table(ks, vs).insert(ks[pos], v);
    lemma_table(ks, vs);
    lemma_table(ks, vs.update(pos, v));
    assert forall|k: Seq<char>| a.contains_key(k) <==> b.contains_key(k) by {
        if b.contains_key(k) && k != ks[pos] {
            let i = choose|i: int| 0 <= i < ks.len() && ks[i] == k;
            assert(table(ks, vs.update(pos, v)).contains_key(ks[i]));
        }
        if b.contains_key(k) && k == ks[pos] {
            assert(table(ks, vs.update(pos, v)).contains_key(ks[pos]));
        }
        if a.contains_key(k) {
            let i = choose|i: int| 0 <= i < ks.len() && ks[i] == k;
            assert(table(ks, vs).contains_key(ks[i]));
        }
    }
    assert forall|k: Seq<char>| #[trigger] a.contains_key(k) implies a[k] == b[k] by {
        let i = choose|i: int| 0 <= i < ks.len() && ks[i] == k;
        assert(table(ks, vs.update(pos, v)).contains_key(ks[i]));
        assert(table(ks, vs).contains_key(ks[i]));
    }
    assert(a =~= b);
}

/// Inserting a new key with its value anywhere extends the table.
pub proof fn lemma_table_insert<V>(ks: Seq<Seq<char>>, vs: Seq<V>, pos: int, k: Seq<char>, v: V)
    requires
        ks.len() == vs.len(),
        ks.no_duplicates(),
        !ks.contains(k),
        0 <= pos <= ks.len(),
    ensures
        ks.insert(pos, k).no_duplicates(),
        table(ks.insert(pos, k), vs.insert(pos, v)) == table(ks, vs).insert(k, v),
{
    let ks2 = ks.insert(pos, k);
    let vs2 = vs.insert(pos, v);
    assert forall|x: int, y: int| 0 <= x < ks2.len() && 0 <= y < ks2.len() && x != y implies ks2[x] != ks2[y] by {
        if x != pos && y != pos {
            let x0 = if x < pos { x } else { x - 1 };
            let y0 = if y < pos { y } else { y - 1 };
            assert(ks2[x] == ks[x0] && ks2[y] == ks[y0]);
        } else if x == pos {
            let y0 = if y < pos { y } else { y - 1 };
            assert(ks2[y] == ks[y0]);
        } else {
            let x0 = if x < pos { x } else { x - 1 };
            assert(ks2[x] == ks[x0]);
        }
    }
    let a = table(ks2, vs2);
    let b = table(ks, vs).insert(k, v);
    lemma_table(ks, vs);
    lemma_table(ks2, vs2);
    assert forall|q: Seq<char>| a.contains_key(q) <==> b.contains_key(q) by {
        if a.contains_key(q) {
            let i = choose|i: int| 0 <= i < ks2.len() && ks2[i] == q;
            if i < pos {
                assert(table(ks, vs).contains_key(ks[i]));
            } else if i > pos {
                assert(table(ks, vs).contains_key(ks[i - 1]));
            }
        }
        if b.contains_key(q) && q != k {
            let i = choose|i: int| 0 <= i < ks.len() && ks[i] == q;
            if i < pos {
                assert(table(ks2, vs2).contains_key(ks2[i]));
            } else {
                assert(ks2[i + 1] == ks[i]);
                assert(table(ks2, vs2).contains_key(ks2[i + 1]));
            }
        }
        if q == k {
            assert(ks2[pos] == k);
            assert(table(ks2, vs2).contains_key(ks2[pos]));
        }
    }
    assert forall|q: Seq<char>| #[trigger] a.contains_key(q) implies a[q] == b[q] by {
        let i = choose|i: int| 0 <= i < ks2.len() && ks2[i] == q;
        assert(table(ks2, vs2).contains_key(ks2[i]));
        if i < pos {
            assert(table(ks, vs).contains_key(ks[i]));
        } else if i > pos {
            assert(table(ks, vs).contains_key(ks[i - 1]));
        }
    }
    assert(a =~= b);
}

/// Removing an entry removes its key.
pub proof fn lemma_table_remove<V>(ks: Seq<Seq<char>>, vs: Seq<V>, pos: int)
    requires
        ks.len() == vs.len(),
        ks.no_duplicates(),
        0 <= pos < ks.len(),
    ensures
        ks.remove(pos).no_duplicates(),
        table(ks.remove(pos), vs.remove(pos)) == table(ks, vs).remove(ks[pos]),
{
    let ks2 = ks.remove(pos);
    let vs2 = vs.remove(pos);
    assert forall|x: int, y: int| 0 <= x < ks2.len() && 0 <= y < ks2.len() && x != y implies ks2[x] != ks2[y] by {
        let x0 = if x < pos { x } else { x + 1 };
        let y0 = if y < pos { y } else { y + 1 };
        assert(ks2[x] == ks[x0] && ks2[y] == ks[y0]);
    }
    let a = table(ks2, vs2);
    let b = table(ks, vs).remove(ks[pos]);
    lemma_table(ks, vs);
    lemma_table(ks2, vs2);
    assert forall|q: Seq<char>| a.contains_key(q) <==> b.contains_key(q) by {
        if a.contains_key(q) {
            let i = choose|i: int| 0 <= i < ks2.len() && ks2[i] == q;
            let i0 = if i < pos { i } else { i + 1 };
            assert(ks2[i] == ks[i0]);
            assert(table(ks, vs).contains_key(ks[i0]));
        }
        if b.contains_key(q) {
            let i = choose|i: int| 0 <= i < ks.len() && ks[i] == q;
            let i2 = if i < pos { i } else { i - 1 };
            assert(ks2[i2] == ks[i]);
            assert(table(ks2, vs2).contains_key(ks2[i2]));
        }
    }
    assert forall|q: Seq<char>| #[trigger] a.contains_key(q) implies a[q] == b[q] by {
        let i = choose|i: int| 0 <= i < ks2.len() && ks2[i] == q;
        let i0 = if i < pos { i } else { i + 1 };
        assert(ks2[i] == ks[i0] && vs2[i] == vs[i0]);
        assert(table(ks2, vs2).contains_key(ks2[i]));
        assert(table(ks, vs).contains_key(ks[i0]));
    }
    assert(a =~= b);
}

/// A key placed where `key_slot` points keeps the keys ascending.
pub proof fn lemma_sorted_insert(ks: Seq<Seq<char>>, pos: int, k: Seq<char>)
    requires
        strictly_sorted(ks),
        0 <= pos <= ks.len(),
        forall|x: int| 0 <= x < pos ==> seq_lt(#[trigger] ks[x], k),
        forall|x: int| pos <= x < ks.len() ==> seq_lt(k, #[trigger] ks[x]),
    ensures
        strictly_sorted(ks.insert(pos, k)),
{
    let ks2 = ks.insert(pos, k);
    assert forall|a: int, b: int| 0 <= a < b < ks2.len() implies seq_lt(#[trigger] ks2[a], #[trigger] ks2[b]) by {
        if a < pos && b < pos {
            assert(ks2[a] == ks[a] && ks2[b] == ks[b]);
        } else if a < pos && b == pos {
            assert(ks2[a] == ks[a]);
        } else if a < pos {
            assert(ks2[a] == ks[a] && ks2[b] == ks[b - 1]);
        } else if a == pos {
            assert(ks2[b] == ks[b - 1]);
        } else {
            assert(ks2[a] == ks[a - 1] && ks2[b] == ks[b - 1]);
        }
    }
}

/// Removing a key keeps the keys ascending.
pub proof fn lemma_sorted_remove(ks: Seq<Seq<char>>, pos: int)
    requires
        strictly_sorted(ks),
        0 <= pos < ks.len(),
    ensures
        strictly_sorted(ks.remove(pos)),
{
    let ks2 = ks.remove(pos);
    assert forall|a: int, b: int| 0 <= a < b < ks2.len() implies seq_lt(#[trigger] ks2[a], #[trigger] ks2[b]) by {
        let a0 = if a < pos { a } else { a + 1 };
        let b0 = if b < pos { b } else { b + 1 };
        assert(ks2[a] == ks[a0] && ks2[b] == ks[b0]);
    }
}

/// `i` is the first entry whose id matches `q` ignoring ASCII case.
pub open spec fn first_match(ks: Seq<Seq<char>>, q: Seq<char>, i: int) -> bool {
    &&& 0 <= i < ks.len()
    &&& eq_ignore_case(ks[i], q)
    &&& forall|j: int| 0 <= j < i ==> !eq_ignore_case(#[trigger] ks[j], q)
}

/// The first entry whose id matches `q` ignoring ASCII case (-1 if none).
pub open spec fn match_index(ks: Seq<Seq<char>>, q: Seq<char>) -> int {
    if exists|i: int| first_match(ks, q, i) {
        choose|i: int| first_match(ks, q, i)
    } else {
        -1
    }
}

pub proof fn lemma_first_match_unique(ks: Seq<Seq<char>>, q: Seq<char>, i: int)
    requires
        first_match(ks, q, i),
    ensures
        match_index(ks, q) == i,
{
    let j = choose|j: int| first_match(ks, q, j);
    if j < i {
        assert(!eq_ignore_case(ks[j], q));
    }
    if i < j {
        assert(!eq_ignore_case(ks[i], q));
    }
}

/// Text order is a strict weak order on the texts at the positions.
pub proof fn lemma_text_order(ks: Seq<Seq<char>>)
    ensures
        strict_weak(|a: int, b: int| seq_lt(ks[a], ks[b]), ks.len() as int),
{
    let rel = |a: int, b: int| seq_lt(ks[a], ks[b]);
    assert forall|a: int| 0 <= a < ks.len() implies !#[trigger] rel(a, a) by {
        lemma_seq_lt_irrefl(ks[a]);
    }
    assert forall|a: int, b: int, c: int|
        0 <= a < ks.len() && 0 <= b < ks.len() && 0 <= c < ks.len() && #[trigger] rel(a, b) && #[trigger] rel(b, c)
            implies rel(a, c) by {
        lemma_seq_lt_trans(ks[a], ks[b], ks[c]);
    }
    assert forall|a: int, b: int, c: int|
        0 <= a < ks.len() && 0 <= b < ks.len() && 0 <= c < ks.len() && #[trigger] rel(a, c) implies #[trigger] rel(a, b)
            || #[trigger] rel(b, c) by {
        lemma_seq_lt_total(ks[a], ks[b]);
        if seq_lt(ks[b], ks[a]) {
            lemma_seq_lt_trans(ks[b], ks[a], ks[c]);
        }
    }
}

/// The views of a list of texts.
pub open spec fn text_views(v: Seq<String>) -> Seq<Seq<char>> {
    v.map_values(|s: String| s@)
}

/// The texts in ascending order, duplicates kept (`Vec::sort`).
pub fn sort_texts(v: &Vec<String>) -> (r: Vec<String>)
    ensures
        exists|p: Seq<usize>|
            {
                &&& is_perm(p, v@.len() as int)
                &&& r@.len() == p.len()
                &&& forall|x: int| 0 <= x < p.len() ==> #[trigger] r@[x]@ == v@[p[x] as int]@
            },
        forall|x: int, y: int| 0 <= x < y < r@.len() ==> !seq_lt(#[trigger] r@[y]@, #[trigger] r@[x]@),
{
    let n = v.len();
    let ghost ks = text_views(v@);
    let ghost rel = |a: int, b: int| seq_lt(ks[a], ks[b]);
    let lt = |a: usize, b: usize| -> (c: bool)
        requires
            a < n && b < n,
        ensures
            c == seq_lt(v@[a as int]@, v@[b as int]@),
        { str_lt(v[a].as_str(), v[b].as_str()) };
    proof {
        lemma_text_order(ks);
    }
    let p = stable_order(n, &lt, Ghost(rel));
    let mut r: Vec<String> = Vec::new();
    let mut x: usize = 0;
    while x < n
        invariant
            x <= n,
            n == v.len(),
            ks == text_views(v@),
            is_perm(p@, n as int),
            r.len() == x,
            forall|y: int| 0 <= y < x ==> #[trigger] r@[y]@ == ks[p@[y] as int],
        decreases n - x,
    {
        r.push(copy_str(v[p[x]].as_str()));
        x += 1;
    }
    proof {
        assert forall|x1: int, y1: int| 0 <= x1 < y1 < r@.len() implies !seq_lt(#[trigger] r@[y1]@, #[trigger] r@[x1]@) by {
            assert(r@[x1]@ == ks[p@[x1] as int]);
            assert(r@[y1]@ == ks[p@[y1] as int]);
            assert(!rel(p@[y1] as int, p@[x1] as int));
        }
        let q = p@;
        assert(forall|x1: int| 0 <= x1 < q.len() ==> #[trigger] r@[x1]@ == v@[q[x1] as int]@);
    }
    r
}

/// The distinct texts in strictly ascending order (`sort` then `dedup`).
pub fn sorted_distinct_texts(v: &Vec<String>) -> (r: Vec<String>)
    ensures
        strictly_sorted(text_views(r@)),
        forall|t: Seq<char>| text_views(r@).contains(t) <==> text_views(v@).contains(t),
{
    let s = sort_texts(v);
    let ghost p = choose|p: Seq<usize>|
        {
            &&& is_perm(p, v@.len() as int)
            &&& s@.len() == p.len()
            &&& forall|x: int| 0 <= x < p.len() ==> #[trigger] s@[x]@ == v@[p[x] as int]@
        };
    let mut r: Vec<String> = Vec::new();
    let mut i: usize = 0;
    while i < s.len()
        invariant
            i <= s.len(),
            forall|x: int, y: int| 0 <= x < y < s@.len() ==> !seq_lt(#[trigger] s@[y]@, #[trigger] s@[x]@),
            strictly_sorted(text_views(r@)),
            i > 0 ==> r@.len() > 0 && r@[r@.len() - 1]@ == s@[i - 1]@,
            i == 0 ==> r@.len() == 0,
            forall|t: Seq<char>| text_views(r@).contains(t) <==> text_views(s@.take(i as int)).contains(t),
        decreases s.len() - i,
    {
        let ghost before = r@;
        assert(forall|t: Seq<char>| text_views(before).contains(t) <==> text_views(s@.take(i as int)).contains(t));
        let fresh = r.len() == 0 || !str_eq(r[r.len() - 1].as_str(), s[i].as_str());
        if fresh {
            r.push(copy_str(s[i].as_str()));
        }
        proof {
            let tk = text_views(s@.take(i as int));
            let tk1 = text_views(s@.take(i + 1));
            assert(tk1 =~= tk.push(s@[i as int]@));
            if fresh {
                assert(text_views(r@) =~= text_views(before).push(s@[i as int]@));
                if i > 0 {
                    let last = s@[i - 1]@;
                    assert(!seq_lt(s@[i as int]@, last));
                    lemma_seq_lt_total(last, s@[i as int]@);
                    assert forall|a: int| 0 <= a < before.len() implies seq_lt(#[trigger] text_views(before)[a], s@[i as int]@) by {
                        if a < before.len() - 1 {
                            assert(seq_lt(text_views(before)[a], text_views(before)[before.len() - 1]));
                            lemma_seq_lt_trans(text_views(before)[a], last, s@[i as int]@);
                        }
                    }
                }
                assert forall|t: Seq<char>| text_views(r@).contains(t) <==> tk1.contains(t) by {
                    if text_views(r@).contains(t) && t != s@[i as int]@ {
                        let a = choose|a: int| 0 <= a < text_views(r@).len() && text_views(r@)[a] == t;
                        assert(text_views(before)[a] == t);
                        assert(text_views(before).contains(t));
                        let b = choose|b: int| 0 <= b < tk.len() && tk[b] == t;
                        assert(tk1[b] == t);
                    }
                    if tk1.contains(t) && t != s@[i as int]@ {
                        let b = choose|b: int| 0 <= b < tk1.len() && tk1[b] == t;
                        assert(tk[b] == t);
                        assert(tk.contains(t));
                        assert(text_views(before).contains(t));
                        let a = choose|a: int| 0 <= a < text_views(before).len() && text_views(before)[a] == t;
                        assert(text_views(r@)[a] == t);
                    }
                    if t == s@[i as int]@ {
                        assert(tk1[i as int] == t);
                        assert(text_views(r@)[before.len() as int] == t);
                    }
                }
            } else {
                assert(text_views(r@) =~= text_views(before));
                assert forall|t: Seq<char>| text_views(r@).contains(t) <==> tk1.contains(t) by {
                    if tk1.contains(t) {
                        let b = choose|b: int| 0 <= b < tk1.len() && tk1[b] == t;
                        if b < i {
                            assert(tk[b] == t);
                        } else {
                            assert(text_views(r@)[r@.len() - 1] == t);
                        }
                    }
                    if text_views(r@).contains(t) {
                        let a = choose|a: int| 0 <= a < text_views(r@).len() && text_views(r@)[a] == t;
                        let b = choose|b: int| 0 <= b < tk.len() && tk[b] == t;
                        assert(tk1[b] == t);
                    }
                }
            }
        }
        i += 1;
    }
    proof {
        assert(s@.take(i as int) =~= s@);
        assert forall|t: Seq<char>| text_views(s@).contains(t) <==> text_views(v@).contains(t) by {
            if text_views(s@).contains(t) {
                let x = choose|x: int| 0 <= x < text_views(s@).len() && text_views(s@)[x] == t;
                assert(s@[x]@ == v@[p[x] as int]@);
                assert(text_views(v@)[p[x] as int] == t);
            }
            if text_views(v@).contains(t) {
                let y = choose|y: int| 0 <= y < text_views(v@).len() && text_views(v@)[y] == t;
                crate::sorting::lemma_perm_covers(p, v@.len() as int, y);
                let x = choose|x: int| 0 <= x < v@.len() && #[trigger] p[x] == y;
                assert(text_views(s@)[x] == t);
            }
        }
    }
    r
}


/// Higher count first, then ascending text: a strict weak order.
pub proof fn lemma_count_text_order(cs: Seq<u32>, ks: Seq<Seq<char>>)
    requires
        cs.len() == ks.len(),
    ensures
        strict_weak(
            |a: int, b: int| cs[a] > cs[b] || (cs[a] == cs[b] && seq_lt(ks[a], ks[b])),
            ks.len() as int,
        ),
{
    let rel = |a: int, b: int| cs[a] > cs[b] || (cs[a] == cs[b] && seq_lt(ks[a], ks[b]));
    assert forall|a: int| 0 <= a < ks.len() implies !#[trigger] rel(a, a) by {
        lemma_seq_lt_irrefl(ks[a]);
    }
    assert forall|a: int, b: int, c: int|
        0 <= a < ks.len() && 0 <= b < ks.len() && 0 <= c < ks.len() && #[trigger] rel(a, b) && #[trigger] rel(b, c)
            implies rel(a, c) by {
        if cs[a] == cs[b] && cs[b] == cs[c] {
            lemma_seq_lt_trans(ks[a], ks[b], ks[c]);
        }
    }
    assert forall|a: int, b: int, c: int|
        0 <= a < ks.len() && 0 <= b < ks.len() && 0 <= c < ks.len() && #[trigger] rel(a, c) implies #[trigger] rel(a, b)
            || #[trigger] rel(b, c) by {
        if cs[a] == cs[b] && cs[b] == cs[c] {
            lemma_seq_lt_total(ks[a], ks[b]);
            if seq_lt(ks[b], ks[a]) {
                lemma_seq_lt_trans(ks[b], ks[a], ks[c]);
            }
        }
    }
}


pub proof fn lemma_contains_push<A>(s: Seq<A>, x: A, t: A)
    ensures
        s.push(x).contains(t) == (s.contains(t) || x == t),
{
    if s.contains(t) {
        let k = choose|k: int| 0 <= k < s.len() && s[k] == t;
        assert(s.push(x)[k] == t);
    }
    if x == t {
        assert(s.push(x)[s.len() as int] == t);
    }
    if s.push(x).contains(t) && x != t {
        let k = choose|k: int| 0 <= k < s.push(x).len() && s.push(x)[k] == t;
        assert(s[k] == t);
    }
}

/// Ascending first text, then ascending second text: a strict weak order.
pub proof fn lemma_text_pair_order(ks: Seq<Seq<char>>, ls: Seq<Seq<char>>)
    requires
        ks.len() == ls.len(),
    ensures
        strict_weak(
            |a: int, b: int| seq_lt(ks[a], ks[b]) || (ks[a] == ks[b] && seq_lt(ls[a], ls[b])),
            ks.len() as int,
        ),
{
    let rel = |a: int, b: int| seq_lt(ks[a], ks[b]) || (ks[a] == ks[b] && seq_lt(ls[a], ls[b]));
    assert forall|a: int| 0 <= a < ks.len() implies !#[trigger] rel(a, a) by {
        lemma_seq_lt_irrefl(ks[a]);
        lemma_seq_lt_irrefl(ls[a]);
    }
    assert forall|a: int, b: int, c: int|
        0 <= a < ks.len() && 0 <= b < ks.len() && 0 <= c < ks.len() && #[trigger] rel(a, b) && #[trigger] rel(b, c)
            implies rel(a, c) by {
        lemma_seq_lt_irrefl(ks[a]);
        lemma_seq_lt_irrefl(ks[b]);
        if ks[a] == ks[b] && ks[b] == ks[c] {
            lemma_seq_lt_trans(ls[a], ls[b], ls[c]);
        } else if ks[a] == ks[b] {
        } else if ks[b] == ks[c] {
        } else {
            lemma_seq_lt_trans(ks[a], ks[b], ks[c]);
        }
    }
    assert forall|a: int, b: int, c: int|
        0 <= a < ks.len() && 0 <= b < ks.len() && 0 <= c < ks.len() && #[trigger] rel(a, c) implies #[trigger] rel(a, b)
            || #[trigger] rel(b, c) by {
        lemma_seq_lt_irrefl(ks[a]);
        lemma_seq_lt_total(ks[a], ks[b]);
        lemma_seq_lt_total(ls[a], ls[b]);
        if seq_lt(ks[b], ks[a]) {
            if seq_lt(ks[a], ks[c]) {
                lemma_seq_lt_trans(ks[b], ks[a], ks[c]);
            }
        }
        if ks[a] == ks[b] && seq_lt(ls[b], ls[a]) && ks[a] == ks[c] {
            lemma_seq_lt_trans(ls[b], ls[a], ls[c]);
        }
    }
}

/// Ascending text, then ascending number: a strict weak order.
pub proof fn lemma_text_number_order(ks: Seq<Seq<char>>, ns: Seq<int>)
    requires
        ks.len() == ns.len(),
    ensures
        strict_weak(|a: int, b: int| seq_lt(ks[a], ks[b]) || (ks[a] == ks[b] && ns[a] < ns[b]), ks.len() as int),
{
    let rel = |a: int, b: int| seq_lt(ks[a], ks[b]) || (ks[a] == ks[b] && ns[a] < ns[b]);
    assert forall|a: int| 0 <= a < ks.len() implies !#[trigger] rel(a, a) by {
        lemma_seq_lt_irrefl(ks[a]);
    }
    assert forall|a: int, b: int, c: int|
        0 <= a < ks.len() && 0 <= b < ks.len() && 0 <= c < ks.len() && #[trigger] rel(a, b) && #[trigger] rel(b, c)
            implies rel(a, c) by {
        if ks[a] != ks[b] && ks[b] != ks[c] {
            lemma_seq_lt_trans(ks[a], ks[b], ks[c]);
        }
    }
    assert forall|a: int, b: int, c: int|
        0 <= a < ks.len() && 0 <= b < ks.len() && 0 <= c < ks.len() && #[trigger] rel(a, c) implies #[trigger] rel(a, b)
            || #[trigger] rel(b, c) by {
        lemma_seq_lt_total(ks[a], ks[b]);
        if seq_lt(ks[b], ks[a]) && seq_lt(ks[a], ks[c]) {
            lemma_seq_lt_trans(ks[b], ks[a], ks[c]);
        }
    }
}

} // verus!
