//! What every operation of the collection manager keeps: a manager built by
//! `PluginCollectionManager::new` stays valid through any sequence of
//! operations (as long as at most 65 536 plug-ins are available).
use vstd::prelude::*;
use crate::archive_plan::{lemma_decimal_injective, lemma_decimal_len};
use crate::keyed::strictly_sorted;
use crate::keyed::lemma_sorted_distinct;
use crate::plugin_catalog::collections::{
    collection_ok, default_view, entry_ok_at, find_id, find_user, folder_ok, lemma_find_id, lemma_find_user,
    manager_ok, name_ok, name_taken, plain_entries, token_ok, user_id, CollectionView, EntryView,
};
use crate::text::{byte_len, decimal, digit_char, eq_ignore_case, is_blank, is_ws};

verus! {

/// The id is that of a user collection numbered below `next`.
pub open spec fn user_below(id: Seq<char>, next: u64) -> bool {
    exists|k: u64| 0 < k < next && id == #[trigger] user_id(k)
}

/// Every entry has a valid id and folder, and no id stands twice.
pub open spec fn entries_ok(es: Seq<EntryView>) -> bool {
    forall|k: int| 0 <= k < es.len() ==> #[trigger] entry_ok_at(es, k)
}

/// The state every operation keeps: the Default collection mirrors the
/// available plug-ins and stands first, every other collection is a user
/// collection numbered below the counter, every collection is sound (see
/// `collection_ok`), there are at most 256 of them, and the active id names
/// one.
pub open spec fn reach_ok(cs: Seq<CollectionView>, active: Seq<char>, avail: Seq<Seq<char>>, next: u64) -> bool {
    &&& 0 < next
    &&& 1 <= cs.len() <= 256
    &&& cs[0] == default_view(avail)
    &&& forall|i: int| 0 < i < cs.len() ==> !(#[trigger] cs[i]).immutable && user_below(cs[i].id, next)
    &&& forall|i: int| 0 <= i < cs.len() ==> #[trigger] collection_ok(cs, i)
    &&& exists|i: int| 0 <= i < cs.len() && #[trigger] cs[i].id == active
}

proof fn lemma_digits(n: nat)
    ensures
        forall|k: int| 0 <= k < decimal(n).len() ==> 48 <= (#[trigger] decimal(n)[k]) as u32 <= 57,
    decreases n,
{
    if n >= 10 {
        lemma_digits(n / 10);
        let d = decimal(n / 10);
        assert forall|k: int| 0 <= k < decimal(n).len() implies 48 <= (#[trigger] decimal(n)[k]) as u32 <= 57 by {
            if k < d.len() {
                assert(decimal(n)[k] == d[k]);
            } else {
                assert(decimal(n)[k] == digit_char(n % 10));
            }
        }
    } else {
        assert(decimal(n)[0] == digit_char(n));
    }
}

spec fn ten_pow(m: nat) -> nat
    decreases m,
{
    if m == 0 {
        1
    } else {
        10 * ten_pow((m - 1) as nat)
    }
}

proof fn lemma_decimal_short(n: nat, m: nat)
    requires
        m >= 1,
        n < ten_pow(m),
    ensures
        decimal(n).len() <= m,
    decreases m,
{
    if n >= 10 {
        assert(m >= 2) by {
            if m == 1 {
                assert(ten_pow(1) == 10) by {
                    reveal_with_fuel(ten_pow, 2);
                }
            }
        }
        assert(n / 10 < ten_pow((m - 1) as nat));
        lemma_decimal_short(n / 10, (m - 1) as nat);
    }
}

proof fn lemma_ascii_bytes(s: Seq<char>)
    requires
        forall|k: int| 0 <= k < s.len() ==> (#[trigger] s[k]) as u32 <= 0x7f,
    ensures
        byte_len(s) == s.len(),
    decreases s.len(),
{
    if s.len() > 0 {
        assert forall|k: int| 0 <= k < s.drop_first().len() implies (#[trigger] s.drop_first()[k]) as u32 <= 0x7f by {
            assert(s.drop_first()[k] == s[k + 1]);
        }
        lemma_ascii_bytes(s.drop_first());
    }
}

/// A user collection's id is a valid token, differs from the Default
/// collection's, and tells its number.
proof fn lemma_user_id(k: u64, j: u64)
    ensures
        token_ok(user_id(k)),
        user_id(k) != seq!['d', 'e', 'f', 'a', 'u', 'l', 't'],
        user_id(k) == user_id(j) ==> k == j,
{
    let s = user_id(k);
    let d = decimal(k as nat);
    lemma_digits(k as nat);
    lemma_decimal_len(k as nat);
    assert(ten_pow(20) == 100_000_000_000_000_000_000nat) by {
        reveal_with_fuel(ten_pow, 21);
    }
    lemma_decimal_short(k as nat, 20);
    assert(s[0] == 'u');
    assert forall|i: int| 0 <= i < s.len() implies (#[trigger] s[i]) as u32 <= 0x7f && s[i] != '\0' && s[i] != '/'
        && s[i] != '\\' by {
        if i >= 5 {
            assert(s[i] == d[i - 5]);
        }
    }
    lemma_ascii_bytes(s);
    assert(!is_blank(s)) by {
        assert(!is_ws(s[0]));
    }
    assert(!s.contains('\0'));
    assert(!s.contains('/'));
    assert(!s.contains('\\'));
    if user_id(k) == user_id(j) {
        assert(decimal(k as nat) =~= user_id(k).skip(5));
        assert(decimal(j as nat) =~= user_id(j).skip(5));
        lemma_decimal_injective(k as nat, j as nat);
    }
}

proof fn lemma_eq_ignore_case_symmetric(a: Seq<char>, b: Seq<char>)
    ensures
        eq_ignore_case(a, b) == eq_ignore_case(b, a),
{
}

proof fn lemma_ascii_text(s: Seq<char>)
    requires
        1 <= s.len() <= 256,
        forall|k: int| 0 <= k < s.len() ==> 0x21 <= (#[trigger] s[k]) as u32 <= 0x7e && s[k] != '/' && s[k] != '\\',
    ensures
        token_ok(s),
        s.len() <= 128 ==> name_ok(s),
{
    lemma_ascii_bytes(s);
    assert(!is_blank(s)) by {
        assert(!is_ws(s[0]));
    }
    assert(!s.contains('\0'));
    assert(!s.contains('/'));
    assert(!s.contains('\\'));
}

/// The Default collection built from valid, ascending ids, at most 65 536
/// of them, is sound where it stands first.
proof fn lemma_default_ok(cs: Seq<CollectionView>, avail: Seq<Seq<char>>)
    requires
        cs.len() >= 1,
        cs[0] == default_view(avail),
        strictly_sorted(avail),
        forall|t: Seq<char>| avail.contains(t) ==> token_ok(t),
        avail.len() <= 65_536,
    ensures
        collection_ok(cs, 0),
{
    lemma_sorted_distinct(avail);
    let es = plain_entries(avail);
    assert forall|k: int| 0 <= k < es.len() implies #[trigger] entry_ok_at(es, k) by {
        assert(es[k].0 == avail[k]);
        assert(avail.contains(avail[k]));
        assert forall|k2: int| 0 <= k2 < k implies #[trigger] es[k2].0 != es[k].0 by {
            assert(es[k2].0 == avail[k2]);
        }
    }
    lemma_ascii_text(seq!['d', 'e', 'f', 'a', 'u', 'l', 't']);
    lemma_ascii_text(seq!['D', 'e', 'f', 'a', 'u', 'l', 't']);
}

proof fn lemma_filter_one<A>(s: Seq<A>, p: spec_fn(A) -> bool)
    requires
        s.len() >= 1,
        p(s[0]),
        forall|i: int| 1 <= i < s.len() ==> !p(#[trigger] s[i]),
    ensures
        s.filter(p).len() == 1,
    decreases s.len(),
{
    broadcast use vstd::seq_lib::group_filter_ensures;
    let t = s.drop_last();
    assert(s =~= t.push(s.last()));
    t.lemma_filter_push(s.last(), p);
    if s.len() == 1 {
        assert(t.filter(p).len() == 0);
    } else {
        lemma_filter_one(t, p);
    }
}

/// A manager in the state every operation keeps passes `validate`.
pub proof fn lemma_reach_validates(cs: Seq<CollectionView>, active: Seq<char>, avail: Seq<Seq<char>>, next: u64)
    requires
        reach_ok(cs, active, avail, next),
    ensures
        manager_ok(cs, active, avail, next),
{
    let dflt = |c: CollectionView| c.id == seq!['d', 'e', 'f', 'a', 'u', 'l', 't'] && c.immutable
        && c.name == seq!['D', 'e', 'f', 'a', 'u', 'l', 't'];
    assert(dflt(cs[0]));
    assert forall|i: int| 1 <= i < cs.len() implies !dflt(#[trigger] cs[i]) by {
        assert(!cs[i].immutable);
    }
    lemma_filter_one(cs, dflt);
    lemma_find_id(cs, seq!['d', 'e', 'f', 'a', 'u', 'l', 't']);
    assert(find_id(cs, seq!['d', 'e', 'f', 'a', 'u', 'l', 't']) == 0);
    assert(cs[0].entries.map_values(|e: EntryView| e.0) =~= avail);
}

/// A fresh manager over valid, ascending ids, at most 65 536 of them, is in
/// the state every operation keeps.
pub proof fn lemma_new_reach(avail: Seq<Seq<char>>)
    requires
        strictly_sorted(avail),
        forall|t: Seq<char>| avail.contains(t) ==> token_ok(t),
        avail.len() <= 65_536,
    ensures
        reach_ok(seq![default_view(avail)], seq!['d', 'e', 'f', 'a', 'u', 'l', 't'], avail, 1),
{
    let cs = seq![default_view(avail)];
    lemma_default_ok(cs, avail);
    assert(cs[0].id == seq!['d', 'e', 'f', 'a', 'u', 'l', 't']);
}

/// Rebuilding the Default collection from a new list of valid, ascending
/// ids, at most 65 536 of them, keeps the state.
pub proof fn lemma_rescan_reach(cs: Seq<CollectionView>, active: Seq<char>, avail: Seq<Seq<char>>, next: u64, fresh: Seq<Seq<char>>)
    requires
        reach_ok(cs, active, avail, next),
        strictly_sorted(fresh),
        forall|t: Seq<char>| fresh.contains(t) ==> token_ok(t),
        fresh.len() <= 65_536,
    ensures
        find_id(cs, seq!['d', 'e', 'f', 'a', 'u', 'l', 't']) == 0,
        reach_ok(cs.update(0, default_view(fresh)), active, fresh, next),
{
    lemma_find_id(cs, seq!['d', 'e', 'f', 'a', 'u', 'l', 't']);
    assert(cs[0].id == seq!['d', 'e', 'f', 'a', 'u', 'l', 't']);
    let ns = cs.update(0, default_view(fresh));
    lemma_default_ok(ns, fresh);
    assert forall|a: int| 0 <= a < ns.len() implies #[trigger] collection_ok(ns, a) by {
        if a > 0 {
            assert(collection_ok(cs, a));
            assert forall|j: int| 0 <= j < a implies #[trigger] ns[j].id != ns[a].id && !eq_ignore_case(ns[j].name, ns[a].name) by {
                assert(cs[j].id != cs[a].id && !eq_ignore_case(cs[j].name, cs[a].name));
            }
        }
    }
    let w = choose|i: int| 0 <= i < cs.len() && #[trigger] cs[i].id == active;
    assert(ns[w].id == active);
}

/// Entries that are sound stay so when some are dropped.
proof fn lemma_entries_filter(es: Seq<EntryView>, p: spec_fn(EntryView) -> bool)
    requires
        entries_ok(es),
    ensures
        entries_ok(es.filter(p)),
        es.filter(p).len() <= es.len(),
    decreases es.len(),
{
    broadcast use vstd::seq_lib::group_filter_ensures;
    if es.len() > 0 {
        let t = es.drop_last();
        let x = es.last();
        assert(es =~= t.push(x));
        assert forall|k: int| 0 <= k < t.len() implies #[trigger] entry_ok_at(t, k) by {
            assert(entry_ok_at(es, k));
            assert forall|k2: int| 0 <= k2 < k implies #[trigger] t[k2].0 != t[k].0 by {
                assert(es[k2].0 != es[k].0);
            }
        }
        lemma_entries_filter(t, p);
        t.lemma_filter_push(x, p);
        let f = t.filter(p);
        if p(x) {
            let g = f.push(x);
            assert(entry_ok_at(es, es.len() - 1));
            assert forall|k: int| 0 <= k < g.len() implies #[trigger] entry_ok_at(g, k) by {
                if k < f.len() {
                    assert(entry_ok_at(f, k));
                    assert forall|k2: int| 0 <= k2 < k implies #[trigger] g[k2].0 != g[k].0 by {
                        assert(f[k2].0 != f[k].0);
                    }
                } else {
                    assert forall|k2: int| 0 <= k2 < k implies #[trigger] g[k2].0 != g[k].0 by {
                        assert(f.contains(f[k2]));
                        t.lemma_filter_contains_rev(p, f[k2]);
                        let m = choose|m: int| 0 <= m < t.len() && t[m] == f[k2];
                        assert(es[m].0 != es[es.len() - 1].0);
                    }
                }
            }
        }
    }
}

/// Changing the entries of a user collection to sound ones, at most 65 536,
/// keeps the state.
pub proof fn lemma_entries_reach(cs: Seq<CollectionView>, active: Seq<char>, avail: Seq<Seq<char>>, next: u64, u: int, es: Seq<EntryView>)
    requires
        reach_ok(cs, active, avail, next),
        0 < u < cs.len(),
        entries_ok(es),
        es.len() <= 65_536,
    ensures
        reach_ok(cs.update(u, CollectionView { entries: es, ..cs[u] }), active, avail, next),
{
    let ns = cs.update(u, CollectionView { entries: es, ..cs[u] });
    assert forall|a: int| 0 <= a < ns.len() implies #[trigger] collection_ok(ns, a) by {
        assert(collection_ok(cs, a));
        assert forall|j: int| 0 <= j < a implies #[trigger] ns[j].id != ns[a].id && !eq_ignore_case(ns[j].name, ns[a].name) by {
            assert(cs[j].id != cs[a].id && !eq_ignore_case(cs[j].name, cs[a].name));
        }
        if a != u {
            assert forall|k: int| 0 <= k < ns[a].entries.len() implies #[trigger] entry_ok_at(ns[a].entries, k) by {
                assert(entry_ok_at(cs[a].entries, k));
            }
        }
    }
    assert forall|i: int| 0 < i < ns.len() implies !(#[trigger] ns[i]).immutable && user_below(ns[i].id, next) by {
        assert(!cs[i].immutable && user_below(cs[i].id, next));
    }
    let w = choose|i: int| 0 <= i < cs.len() && #[trigger] cs[i].id == active;
    assert(ns[w].id == active);
}

/// Adding a user collection numbered by the counter, under a sound name no
/// other collection uses, with sound entries, keeps the state with the
/// counter one higher.
pub proof fn lemma_push_reach(cs: Seq<CollectionView>, active: Seq<char>, avail: Seq<Seq<char>>, next: u64, c: CollectionView)
    requires
        reach_ok(cs, active, avail, next),
        next < u64::MAX,
        cs.len() < 256,
        c.id == user_id(next),
        !c.immutable,
        name_ok(c.name),
        !name_taken(cs, c.name, None),
        entries_ok(c.entries),
        c.entries.len() <= 65_536,
    ensures
        reach_ok(cs.push(c), active, avail, (next + 1) as u64),
{
    let ns = cs.push(c);
    let n = cs.len() as int;
    lemma_user_id(next, next);
    assert forall|a: int| 0 <= a < ns.len() implies #[trigger] collection_ok(ns, a) by {
        if a < n {
            assert(collection_ok(cs, a));
            assert forall|j: int| 0 <= j < a implies #[trigger] ns[j].id != ns[a].id && !eq_ignore_case(ns[j].name, ns[a].name) by {
                assert(cs[j].id != cs[a].id && !eq_ignore_case(cs[j].name, cs[a].name));
            }
            assert forall|k: int| 0 <= k < ns[a].entries.len() implies #[trigger] entry_ok_at(ns[a].entries, k) by {
                assert(entry_ok_at(cs[a].entries, k));
            }
        } else {
            assert forall|j: int| 0 <= j < a implies #[trigger] ns[j].id != ns[a].id && !eq_ignore_case(ns[j].name, ns[a].name) by {
                assert(ns[j] == cs[j]);
                if j == 0 {
                    assert(cs[0].id == seq!['d', 'e', 'f', 'a', 'u', 'l', 't']);
                } else {
                    assert(user_below(cs[j].id, next));
                    let k = choose|k: u64| 0 < k < next && cs[j].id == #[trigger] user_id(k);
                    lemma_user_id(k, next);
                }
                if eq_ignore_case(cs[j].name, c.name) {
                    assert(name_taken(cs, c.name, None));
                }
            }
        }
    }
    assert forall|i: int| 0 < i < ns.len() implies !(#[trigger] ns[i]).immutable && user_below(ns[i].id, (next + 1) as u64) by {
        if i < n {
            assert(user_below(cs[i].id, next));
            let k = choose|k: u64| 0 < k < next && cs[i].id == #[trigger] user_id(k);
            assert(0 < k < next + 1 && ns[i].id == user_id(k));
        } else {
            assert(0 < next < next + 1 && ns[i].id == user_id(next));
        }
    }
    let w = choose|i: int| 0 <= i < cs.len() && #[trigger] cs[i].id == active;
    assert(ns[w].id == active);
}

proof fn lemma_user_ids_fresh(cs: Seq<CollectionView>, active: Seq<char>, avail: Seq<Seq<char>>, next: u64)
    requires
        reach_ok(cs, active, avail, next),
    ensures
        forall|j: int| 0 <= j < cs.len() ==> #[trigger] cs[j].id != user_id(next),
{
    assert forall|j: int| 0 <= j < cs.len() implies #[trigger] cs[j].id != user_id(next) by {
        lemma_user_id(next, next);
        if j > 0 {
            assert(user_below(cs[j].id, next));
            let k = choose|k: u64| 0 < k < next && cs[j].id == #[trigger] user_id(k);
            lemma_user_id(k, next);
        }
    }
}

/// `create` keeps the state.
pub proof fn lemma_create_reach(cs: Seq<CollectionView>, active: Seq<char>, avail: Seq<Seq<char>>, next: u64, nm: Seq<char>, include_all: bool)
    requires
        reach_ok(cs, active, avail, next),
        next < u64::MAX,
        cs.len() < 256,
        name_ok(nm),
        !name_taken(cs, nm, None),
    ensures
        reach_ok(
            cs.push(
                CollectionView {
                    id: user_id(next),
                    name: nm,
                    entries: if include_all {
                        plain_entries(avail)
                    } else {
                        Seq::empty()
                    },
                    immutable: false,
                },
            ),
            active,
            avail,
            (next + 1) as u64,
        ),
{
    assert(collection_ok(cs, 0));
    lemma_push_reach(
        cs,
        active,
        avail,
        next,
        CollectionView {
            id: user_id(next),
            name: nm,
            entries: if include_all {
                plain_entries(avail)
            } else {
                Seq::empty()
            },
            immutable: false,
        },
    );
}

/// `copy_collection` keeps the state.
pub proof fn lemma_copy_reach(cs: Seq<CollectionView>, active: Seq<char>, avail: Seq<Seq<char>>, next: u64, src: int, nm: Seq<char>)
    requires
        reach_ok(cs, active, avail, next),
        0 <= src < cs.len(),
        next < u64::MAX,
        cs.len() < 256,
        name_ok(nm),
        !name_taken(cs, nm, None),
    ensures
        ({
            let id = user_id(next);
            let grown = cs.push(CollectionView { id: id, name: nm, entries: Seq::empty(), immutable: false });
            let f = find_id(grown, id);
            reach_ok(
                grown.update(f, CollectionView { entries: cs[src].entries, ..grown[f] }),
                active,
                avail,
                (next + 1) as u64,
            )
        }),
{
    let id = user_id(next);
    let grown = cs.push(CollectionView { id: id, name: nm, entries: Seq::empty(), immutable: false });
    lemma_user_ids_fresh(cs, active, avail, next);
    lemma_find_id(grown, id);
    assert(grown[cs.len() as int].id == id);
    assert forall|j: int| 0 <= j < cs.len() implies #[trigger] grown[j].id != id by {
        assert(grown[j] == cs[j]);
    }
    let f = find_id(grown, id);
    assert(f == cs.len());
    let c = CollectionView { id: id, name: nm, entries: cs[src].entries, immutable: false };
    assert(grown.update(f, CollectionView { entries: cs[src].entries, ..grown[f] }) =~= cs.push(c));
    assert(collection_ok(cs, src));
    lemma_push_reach(cs, active, avail, next, c);
}

/// `activate` keeps the state.
pub proof fn lemma_activate_reach(cs: Seq<CollectionView>, active: Seq<char>, avail: Seq<Seq<char>>, next: u64, id: Seq<char>)
    requires
        reach_ok(cs, active, avail, next),
        find_id(cs, id) >= 0,
    ensures
        reach_ok(cs, id, avail, next),
{
    lemma_find_id(cs, id);
    let f = find_id(cs, id);
    assert(cs[f].id == id);
}

/// `rename` keeps the state.
pub proof fn lemma_rename_reach(cs: Seq<CollectionView>, active: Seq<char>, avail: Seq<Seq<char>>, next: u64, id: Seq<char>, nm: Seq<char>)
    requires
        reach_ok(cs, active, avail, next),
        find_user(cs, id) >= 0,
        name_ok(nm),
        !name_taken(cs, nm, Some(id)),
    ensures
        reach_ok(
            cs.update(find_user(cs, id), CollectionView { name: nm, ..cs[find_user(cs, id)] }),
            active,
            avail,
            next,
        ),
{
    lemma_find_user(cs, id);
    let u = find_user(cs, id);
    assert(u > 0);
    let ns = cs.update(u, CollectionView { name: nm, ..cs[u] });
    assert forall|a: int| 0 <= a < ns.len() implies #[trigger] collection_ok(ns, a) by {
        assert(collection_ok(cs, a));
        assert forall|j: int| 0 <= j < a implies #[trigger] ns[j].id != ns[a].id && !eq_ignore_case(ns[j].name, ns[a].name) by {
            assert(cs[j].id != cs[a].id && !eq_ignore_case(cs[j].name, cs[a].name));
            if a == u {
                if eq_ignore_case(cs[j].name, nm) {
                    assert(name_taken(cs, nm, Some(id)));
                }
            } else if j == u {
                assert(collection_ok(cs, a));
                lemma_eq_ignore_case_symmetric(nm, cs[a].name);
                if eq_ignore_case(cs[a].name, nm) {
                    assert(cs[a].id != id);
                    assert(name_taken(cs, nm, Some(id)));
                }
            }
        }
        assert forall|k: int| 0 <= k < ns[a].entries.len() implies #[trigger] entry_ok_at(ns[a].entries, k) by {
            assert(entry_ok_at(cs[a].entries, k));
        }
    }
    assert forall|i: int| 0 < i < ns.len() implies !(#[trigger] ns[i]).immutable && user_below(ns[i].id, next) by {
        assert(!cs[i].immutable && user_below(cs[i].id, next));
    }
    let w = choose|i: int| 0 <= i < cs.len() && #[trigger] cs[i].id == active;
    assert(ns[w].id == active);
}

/// `delete` keeps the state.
pub proof fn lemma_delete_reach(cs: Seq<CollectionView>, active: Seq<char>, avail: Seq<Seq<char>>, next: u64, id: Seq<char>)
    requires
        reach_ok(cs, active, avail, next),
        find_user(cs, id) >= 0,
    ensures
        reach_ok(
            cs.remove(find_user(cs, id)),
            if active == id {
                seq!['d', 'e', 'f', 'a', 'u', 'l', 't']
            } else {
                active
            },
            avail,
            next,
        ),
{
    lemma_find_user(cs, id);
    let u = find_user(cs, id);
    assert(u > 0);
    let ns = cs.remove(u);
    assert forall|a: int| 0 <= a < ns.len() implies #[trigger] collection_ok(ns, a) by {
        let a1 = if a < u { a } else { a + 1 };
        assert(ns[a] == cs[a1]);
        assert(collection_ok(cs, a1));
        assert forall|j: int| 0 <= j < a implies #[trigger] ns[j].id != ns[a].id && !eq_ignore_case(ns[j].name, ns[a].name) by {
            let j1 = if j < u { j } else { j + 1 };
            assert(ns[j] == cs[j1]);
            assert(cs[j1].id != cs[a1].id && !eq_ignore_case(cs[j1].name, cs[a1].name));
        }
        assert forall|k: int| 0 <= k < ns[a].entries.len() implies #[trigger] entry_ok_at(ns[a].entries, k) by {
            assert(entry_ok_at(cs[a1].entries, k));
        }
    }
    assert forall|i: int| 0 < i < ns.len() implies !(#[trigger] ns[i]).immutable && user_below(ns[i].id, next) by {
        let i1 = if i < u { i } else { i + 1 };
        assert(ns[i] == cs[i1]);
        assert(!cs[i1].immutable && user_below(cs[i1].id, next));
    }
    assert(ns[0] == cs[0]);
    if active == id {
        assert(ns[0].id == seq!['d', 'e', 'f', 'a', 'u', 'l', 't']);
    } else {
        let w = choose|i: int| 0 <= i < cs.len() && #[trigger] cs[i].id == active;
        assert(w != u);
        let w1 = if w < u { w } else { w - 1 };
        assert(ns[w1] == cs[w]);
    }
}

/// `add_plugin` keeps the state.
pub proof fn lemma_add_entry_reach(cs: Seq<CollectionView>, active: Seq<char>, avail: Seq<Seq<char>>, next: u64, id: Seq<char>, plugin: Seq<char>, folder: Seq<Seq<char>>)
    requires
        reach_ok(cs, active, avail, next),
        find_user(cs, id) >= 0,
        avail.contains(plugin),
        folder_ok(folder),
        cs[find_user(cs, id)].entries.len() < 65_536,
        !cs[find_user(cs, id)].entries.map_values(|e: EntryView| e.0).contains(plugin),
    ensures
        ({
            let u = find_user(cs, id);
            reach_ok(
                cs.update(u, CollectionView { entries: cs[u].entries.push((plugin, folder)), ..cs[u] }),
                active,
                avail,
                next,
            )
        }),
{
    lemma_find_user(cs, id);
    let u = find_user(cs, id);
    assert(u > 0);
    let es = cs[u].entries;
    let g = es.push((plugin, folder));
    assert(collection_ok(cs, u));
    assert(collection_ok(cs, 0));
    let t = choose|t: int| 0 <= t < avail.len() && avail[t] == plugin;
    assert(entry_ok_at(cs[0].entries, t));
    assert(cs[0].entries[t].0 == plugin);
    assert forall|k: int| 0 <= k < g.len() implies #[trigger] entry_ok_at(g, k) by {
        if k < es.len() {
            assert(entry_ok_at(es, k));
            assert forall|k2: int| 0 <= k2 < k implies #[trigger] g[k2].0 != g[k].0 by {
                assert(es[k2].0 != es[k].0);
            }
        } else {
            assert forall|k2: int| 0 <= k2 < k implies #[trigger] g[k2].0 != g[k].0 by {
                assert(es.map_values(|e: EntryView| e.0)[k2] == es[k2].0);
            }
        }
    }
    lemma_entries_reach(cs, active, avail, next, u, g);
}

/// `remove_plugin` keeps the state: dropping some entries of a user
/// collection keeps it.
pub proof fn lemma_remove_entry_reach(cs: Seq<CollectionView>, active: Seq<char>, avail: Seq<Seq<char>>, next: u64, id: Seq<char>, keep: spec_fn(EntryView) -> bool)
    requires
        reach_ok(cs, active, avail, next),
        find_user(cs, id) >= 0,
    ensures
        ({
            let u = find_user(cs, id);
            reach_ok(cs.update(u, CollectionView { entries: cs[u].entries.filter(keep), ..cs[u] }), active, avail, next)
        }),
{
    lemma_find_user(cs, id);
    let u = find_user(cs, id);
    assert(u > 0);
    assert(collection_ok(cs, u));
    lemma_entries_filter(cs[u].entries, keep);
    lemma_entries_reach(cs, active, avail, next, u, cs[u].entries.filter(keep));
}

/// `remove_unavailable_from_user_collections` keeps the state.
pub proof fn lemma_purge_reach(cs: Seq<CollectionView>, active: Seq<char>, avail: Seq<Seq<char>>, next: u64)
    requires
        reach_ok(cs, active, avail, next),
    ensures
        reach_ok(
            cs.map_values(
                |c: CollectionView| if c.immutable {
                    c
                } else {
                    CollectionView { entries: c.entries.filter(|e: EntryView| avail.contains(e.0)), ..c }
                },
            ),
            active,
            avail,
            next,
        ),
{
    let ns = cs.map_values(
        |c: CollectionView| if c.immutable {
            c
        } else {
            CollectionView { entries: c.entries.filter(|e: EntryView| avail.contains(e.0)), ..c }
        },
    );
    assert forall|a: int| 0 <= a < ns.len() implies #[trigger] collection_ok(ns, a) by {
        assert(collection_ok(cs, a));
        assert forall|j: int| 0 <= j < a implies #[trigger] ns[j].id != ns[a].id && !eq_ignore_case(ns[j].name, ns[a].name) by {
            assert(cs[j].id != cs[a].id && !eq_ignore_case(cs[j].name, cs[a].name));
        }
        if !cs[a].immutable {
            lemma_entries_filter(cs[a].entries, |e: EntryView| avail.contains(e.0));
        } else {
            assert forall|k: int| 0 <= k < ns[a].entries.len() implies #[trigger] entry_ok_at(ns[a].entries, k) by {
                assert(entry_ok_at(cs[a].entries, k));
            }
        }
    }
    assert forall|i: int| 0 < i < ns.len() implies !(#[trigger] ns[i]).immutable && user_below(ns[i].id, next) by {
        assert(!cs[i].immutable && user_below(cs[i].id, next));
    }
    assert(ns[0] == cs[0]);
    let w = choose|i: int| 0 <= i < cs.len() && #[trigger] cs[i].id == active;
    assert(ns[w].id == active);
}

} // verus!
