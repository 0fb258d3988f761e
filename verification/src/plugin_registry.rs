//! Compatibility records of plugins: scan failures, crashes and the
//! blacklist.
use vstd::prelude::*;
use crate::keyed::{
    first_match, lemma_count_text_order, lemma_first_match_unique, match_index, sort_texts,
    sorted_distinct_texts, strictly_sorted, text_views,
};
use crate::sorting::{is_perm, stable_order, stably_sorted};
use crate::text::{
    blank, byte_len, contains_char, copy_str, eq_ignore_ascii_case, eq_ignore_case, is_blank, seq_lt,
    spec_trim, str_eq, trim, within_bytes,
};

verus! {

#[derive(Clone, Debug, PartialEq, Eq)]
pub struct PluginCompatibility {
    pub plugin_id: String,
    pub scan_failures: u32,
    pub crashes: u32,
    pub blacklisted: bool,
    pub last_error: String,
}

/// A record as plain values: id, scan failures, crashes, blacklisted,
/// last error.
pub type CompatView = (Seq<char>, u32, u32, bool, Seq<char>);

pub open spec fn compat_view(e: PluginCompatibility) -> CompatView {
    (e.plugin_id@, e.scan_failures, e.crashes, e.blacklisted, e.last_error@)
}

/// A non-blank id of at most 256 bytes and an error of at most 4096
/// bytes, neither holding NUL.
pub open spec fn compat_ok(v: CompatView) -> bool {
    !is_blank(v.0) && byte_len(v.0) <= 256 && !v.0.contains('\0') && byte_len(v.4) <= 4096
        && !v.4.contains('\0')
}

/// The ids of the records.
pub open spec fn record_ids(es: Seq<CompatView>) -> Seq<Seq<char>> {
    es.map_values(|v: CompatView| v.0)
}

/// Adds one, staying at the maximum.
pub open spec fn sat_inc(x: u32) -> u32 {
    if x == u32::MAX {
        x
    } else {
        (x + 1) as u32
    }
}

/// A record after a failure: counted and carrying the new error.
pub open spec fn bumped(v: CompatView, err: Seq<char>, scan: bool, crash: bool) -> CompatView {
    (
        v.0,
        if scan {
            sat_inc(v.1)
        } else {
            v.1
        },
        if crash {
            sat_inc(v.2)
        } else {
            v.2
        },
        v.3,
        err,
    )
}

/// What recording a failure does: whether it is accepted, and the records
/// after it.  The first record whose id matches the trimmed id ignoring
/// ASCII case is counted; without one a new record is added, up to 65536.
pub open spec fn failure_outcome(
    es: Seq<CompatView>,
    id_in: Seq<char>,
    err: Seq<char>,
    scan: bool,
    crash: bool,
) -> (bool, Seq<CompatView>) {
    let id = spec_trim(id_in);
    if id.len() == 0 || byte_len(id) > 256 || id.contains('\0') || byte_len(err) > 4096
        || err.contains('\0') {
        (false, es)
    } else {
        let i = match_index(record_ids(es), id);
        if i >= 0 {
            (true, es.update(i, bumped(es[i], err, scan, crash)))
        } else if es.len() >= 65_536 {
            (false, es)
        } else {
            (true, es.push(bumped((id, 0u32, 0u32, false, Seq::empty()), err, scan, crash)))
        }
    }
}

/// The record differs from the first baseline record with a matching id,
/// or the baseline has none.
pub open spec fn changed(cur: Seq<CompatView>, base: Seq<CompatView>, i: int) -> bool {
    let j = match_index(record_ids(base), cur[i].0);
    j < 0 || base[j] != cur[i]
}

/// No current record matches the baseline record's id.
pub open spec fn dropped(cur: Seq<CompatView>, base: Seq<CompatView>, j: int) -> bool {
    match_index(record_ids(cur), base[j].0) < 0
}

/// The ids that a regression check reports.
pub open spec fn regressed(cur: Seq<CompatView>, base: Seq<CompatView>, t: Seq<char>) -> bool {
    (exists|i: int| 0 <= i < cur.len() && changed(cur, base, i) && #[trigger] cur[i].0 == t) || (exists|j: int|
        0 <= j < base.len() && dropped(cur, base, j) && #[trigger] base[j].0 == t)
}

/// Higher count first, then ascending id.
pub open spec fn failure_before(a: (Seq<char>, u32), b: (Seq<char>, u32)) -> bool {
    a.1 > b.1 || (a.1 == b.1 && seq_lt(a.0, b.0))
}

impl PluginCompatibility {
    pub fn validate(&self) -> (r: bool)
        ensures
            r == compat_ok(compat_view(*self)),
    {
        let id = self.plugin_id.as_str();
        let err = self.last_error.as_str();
        !blank(id) && within_bytes(id, 256) && !contains_char(id, '\0') && within_bytes(err, 4096)
            && !contains_char(err, '\0')
    }
}

fn copy_record(e: &PluginCompatibility) -> (r: PluginCompatibility)
    ensures
        compat_view(r) == compat_view(*e),
{
    PluginCompatibility {
        plugin_id: copy_str(e.plugin_id.as_str()),
        scan_failures: e.scan_failures,
        crashes: e.crashes,
        blacklisted: e.blacklisted,
        last_error: copy_str(e.last_error.as_str()),
    }
}

#[derive(Clone, Debug, PartialEq, Eq)]
pub struct PluginRegistry {
    pub entries: Vec<PluginCompatibility>,
}

impl View for PluginRegistry {
    type V = Seq<CompatView>;

    open spec fn view(&self) -> Seq<CompatView> {
        self.entries@.map_values(|e: PluginCompatibility| compat_view(e))
    }
}

/// The first record whose id matches `q` ignoring ASCII case.
fn find_record(entries: &Vec<PluginCompatibility>, q: &str) -> (r: Option<usize>)
    ensures
        match r {
            Some(i) => i < entries.len() && first_match(
                record_ids(entries@.map_values(|e: PluginCompatibility| compat_view(e))),
                q@,
                i as int,
            ) && match_index(
                record_ids(entries@.map_values(|e: PluginCompatibility| compat_view(e))),
                q@,
            ) == i,
            None => match_index(
                record_ids(entries@.map_values(|e: PluginCompatibility| compat_view(e))),
                q@,
            ) == -1,
        },
{
    let ghost ks = record_ids(entries@.map_values(|e: PluginCompatibility| compat_view(e)));
    let mut i: usize = 0;
    while i < entries.len()
        invariant
            i <= entries.len(),
            ks == record_ids(entries@.map_values(|e: PluginCompatibility| compat_view(e))),
            forall|j: int| 0 <= j < i ==> !eq_ignore_case(#[trigger] ks[j], q@),
        decreases entries.len() - i,
    {
        proof {
            assert(ks[i as int] == entries@[i as int].plugin_id@);
        }
        if eq_ignore_ascii_case(entries[i].plugin_id.as_str(), q) {
            proof {
                assert(first_match(ks, q@, i as int));
                lemma_first_match_unique(ks, q@, i as int);
            }
            return Some(i);
        }
        i += 1;
    }
    None
}

impl PluginRegistry {
    fn update(&mut self, plugin_id: &str, error: &str, scan: bool, crash: bool) -> (r: bool)
        ensures
            (r, final(self)@) == failure_outcome(old(self)@, plugin_id@, error@, scan, crash),
    {
        let id = trim(plugin_id);
        if blank(plugin_id) || !within_bytes(id.as_str(), 256) || contains_char(id.as_str(), '\0')
            || !within_bytes(error, 4096) || contains_char(error, '\0') {
            return false;
        }
        let ghost es = self@;
        match find_record(&self.entries, id.as_str()) {
            Some(i) => {
                let e = &self.entries[i];
                let new_entry = PluginCompatibility {
                    plugin_id: copy_str(e.plugin_id.as_str()),
                    scan_failures: if scan {
                        e.scan_failures.saturating_add(1)
                    } else {
                        e.scan_failures
                    },
                    crashes: if crash {
                        e.crashes.saturating_add(1)
                    } else {
                        e.crashes
                    },
                    blacklisted: e.blacklisted,
                    last_error: copy_str(error),
                };
                self.entries.set(i, new_entry);
                proof {
                    assert(self@ =~= es.update(i as int, bumped(es[i as int], error@, scan, crash)));
                }
            },
            None => {
                if self.entries.len() >= 65_536 {
                    return false;
                }
                let new_entry = PluginCompatibility {
                    plugin_id: id,
                    scan_failures: if scan {
                        1
                    } else {
                        0
                    },
                    crashes: if crash {
                        1
                    } else {
                        0
                    },
                    blacklisted: false,
                    last_error: copy_str(error),
                };
                self.entries.push(new_entry);
                proof {
                    assert(self@ =~= es.push(
                        bumped((spec_trim(plugin_id@), 0u32, 0u32, false, Seq::empty()), error@, scan, crash),
                    ));
                }
            },
        }
        true
    }

    /// Counts a failed scan of the plugin and keeps its error.
    pub fn record_scan_failure(&mut self, plugin_id: &str, error: &str) -> (r: bool)
        ensures
            (r, final(self)@) == failure_outcome(old(self)@, plugin_id@, error@, true, false),
    {
        self.update(plugin_id, error, true, false)
    }

    /// Counts a crash of the plugin and keeps its error.
    pub fn record_crash(&mut self, plugin_id: &str, error: &str) -> (r: bool)
        ensures
            (r, final(self)@) == failure_outcome(old(self)@, plugin_id@, error@, false, true),
    {
        self.update(plugin_id, error, false, true)
    }

    /// Puts the first record matching the trimmed id (ignoring ASCII case)
    /// on or off the blacklist; tells whether one matched.
    pub fn set_blacklisted(&mut self, plugin_id: &str, blacklisted: bool) -> (r: bool)
        ensures
            ({
                let i = match_index(record_ids(old(self)@), spec_trim(plugin_id@));
                &&& r == (i >= 0)
                &&& r ==> final(self)@ == old(self)@.update(
                    i,
                    (old(self)@[i].0, old(self)@[i].1, old(self)@[i].2, blacklisted, old(self)@[i].4),
                )
                &&& !r ==> final(self)@ == old(self)@
            }),
    {
        let id = trim(plugin_id);
        let ghost es = self@;
        match find_record(&self.entries, id.as_str()) {
            Some(i) => {
                let mut e = copy_record(&self.entries[i]);
                e.blacklisted = blacklisted;
                self.entries.set(i, e);
                proof {
                    assert(self@ =~= es.update(
                        i as int,
                        (es[i as int].0, es[i as int].1, es[i as int].2, blacklisted, es[i as int].4),
                    ));
                }
                true
            },
            None => false,
        }
    }

    /// A plugin may load unless the first record matching its trimmed id
    /// (ignoring ASCII case) is blacklisted.
    pub fn is_allowed(&self, plugin_id: &str) -> (r: bool)
        ensures
            ({
                let i = match_index(record_ids(self@), spec_trim(plugin_id@));
                r == (i < 0 || !self@[i].3)
            }),
    {
        let id = trim(plugin_id);
        match find_record(&self.entries, id.as_str()) {
            Some(i) => !self.entries[i].blacklisted,
            None => true,
        }
    }

    /// The ids of the blacklisted records, in ascending order.
    pub fn blacklisted_ids(&self) -> (r: Vec<String>)
        ensures
            ({
                let ids = record_ids(self@.filter(|v: CompatView| v.3));
                &&& exists|p: Seq<usize>|
                    {
                        &&& is_perm(p, ids.len() as int)
                        &&& r@.len() == p.len()
                        &&& forall|x: int| 0 <= x < p.len() ==> #[trigger] r@[x]@ == ids[p[x] as int]
                    }
                &&& forall|x: int, y: int|
                    0 <= x < y < r@.len() ==> !seq_lt(#[trigger] r@[y]@, #[trigger] r@[x]@)
            }),
    {
        let ghost es = self@;
        let ghost bl = |v: CompatView| v.3;
        let mut ids: Vec<String> = Vec::new();
        let mut i: usize = 0;
        while i < self.entries.len()
            invariant
                i <= self.entries.len(),
                es == self@,
                bl == (|v: CompatView| v.3),
                text_views(ids@) == record_ids(es.take(i as int).filter(bl)),
            decreases self.entries.len() - i,
        {
            proof {
                assert(es.take(i + 1) =~= es.take(i as int).push(es[i as int]));
                es.take(i as int).lemma_filter_push(es[i as int], bl);
            }
            if self.entries[i].blacklisted {
                let ghost before = ids@;
                ids.push(copy_str(self.entries[i].plugin_id.as_str()));
                proof {
                    assert(text_views(ids@) =~= text_views(before).push(es[i as int].0));
                    assert(record_ids(es.take(i + 1).filter(bl)) =~= record_ids(
                        es.take(i as int).filter(bl),
                    ).push(es[i as int].0));
                }
            }
            i += 1;
        }
        proof {
            assert(es.take(i as int) =~= es);
            assert(bl =~= (|v: CompatView| v.3));
        }
        let r = sort_texts(&ids);
        r
    }

    /// The records with failed scans and their counts, most failures
    /// first, ties in ascending id order.
    pub fn failed_scans(&self) -> (r: Vec<(String, u32)>)
        ensures
            ({
                let fl = self@.filter(|v: CompatView| v.1 > 0).map_values(
                    |v: CompatView| (v.0, v.1),
                );
                &&& exists|p: Seq<usize>|
                    {
                        &&& is_perm(p, fl.len() as int)
                        &&& r@.len() == p.len()
                        &&& forall|x: int|
                            0 <= x < p.len() ==> (#[trigger] r@[x].0@, r@[x].1) == fl[p[x] as int]
                    }
                &&& forall|x: int, y: int|
                    0 <= x < y < r@.len() ==> !failure_before(
                        (#[trigger] r@[y].0@, r@[y].1),
                        (#[trigger] r@[x].0@, r@[x].1),
                    )
            }),
    {
        let ghost es = self@;
        let ghost pred = |v: CompatView| v.1 > 0;
        let ghost pair = |v: CompatView| (v.0, v.1);
        let mut items: Vec<(String, u32)> = Vec::new();
        let mut i: usize = 0;
        while i < self.entries.len()
            invariant
                i <= self.entries.len(),
                es == self@,
                pred == (|v: CompatView| v.1 > 0),
                pair == (|v: CompatView| (v.0, v.1)),
                items@.map_values(|e: (String, u32)| (e.0@, e.1)) == es.take(i as int).filter(
                    pred,
                ).map_values(pair),
            decreases self.entries.len() - i,
        {
            proof {
                assert(es.take(i + 1) =~= es.take(i as int).push(es[i as int]));
                es.take(i as int).lemma_filter_push(es[i as int], pred);
            }
            if self.entries[i].scan_failures > 0 {
                let ghost before = items@;
                items.push((copy_str(self.entries[i].plugin_id.as_str()), self.entries[i].scan_failures));
                proof {
                    assert(items@.map_values(|e: (String, u32)| (e.0@, e.1)) =~= before.map_values(
                        |e: (String, u32)| (e.0@, e.1),
                    ).push(pair(es[i as int])));
                    assert(es.take(i + 1).filter(pred).map_values(pair) =~= es.take(i as int).filter(
                        pred,
                    ).map_values(pair).push(pair(es[i as int])));
                }
            }
            i += 1;
        }
        proof {
            assert(es.take(i as int) =~= es);
            assert(pred =~= (|v: CompatView| v.1 > 0));
            assert(pair =~= (|v: CompatView| (v.0, v.1)));
        }
        let ghost fl = items@.map_values(|e: (String, u32)| (e.0@, e.1));
        let n = items.len();
        let ghost cs = fl.map_values(|e: (Seq<char>, u32)| e.1);
        let ghost ks = fl.map_values(|e: (Seq<char>, u32)| e.0);
        let ghost rel = |a: int, b: int| cs[a] > cs[b] || (cs[a] == cs[b] && seq_lt(ks[a], ks[b]));
        let lt = |a: usize, b: usize| -> (c: bool)
            requires
                a < n && b < n,
            ensures
                c == (items@[a as int].1 > items@[b as int].1 || (items@[a as int].1 == items@[b as int].1
                    && seq_lt(items@[a as int].0@, items@[b as int].0@))),
            {
                items[a].1 > items[b].1 || (items[a].1 == items[b].1 && crate::text::str_lt(
                    items[a].0.as_str(),
                    items[b].0.as_str(),
                ))
            };
        proof {
            lemma_count_text_order(cs, ks);
            assert(rel =~= (|a: int, b: int| cs[a] > cs[b] || (cs[a] == cs[b] && seq_lt(ks[a], ks[b]))));
        }
        let p = stable_order(n, &lt, Ghost(rel));
        let mut r: Vec<(String, u32)> = Vec::new();
        let mut x: usize = 0;
        while x < n
            invariant
                x <= n,
                n == items.len(),
                fl == items@.map_values(|e: (String, u32)| (e.0@, e.1)),
                is_perm(p@, n as int),
                r.len() == x,
                forall|y: int| 0 <= y < x ==> (#[trigger] r@[y].0@, r@[y].1) == fl[p@[y] as int],
            decreases n - x,
        {
            let v = p[x];
            r.push((copy_str(items[v].0.as_str()), items[v].1));
            x += 1;
        }
        proof {
            assert forall|x1: int, y1: int| 0 <= x1 < y1 < r@.len() implies !failure_before(
                (#[trigger] r@[y1].0@, r@[y1].1),
                (#[trigger] r@[x1].0@, r@[x1].1),
            ) by {
                assert(x1 < x && y1 < x);
                assert((r@[x1].0@, r@[x1].1) == fl[p@[x1] as int]);
                assert((r@[y1].0@, r@[y1].1) == fl[p@[y1] as int]);
                assert(!rel(p@[y1] as int, p@[x1] as int));
            }
            let q = p@;
            assert(forall|x1: int| 0 <= x1 < q.len() ==> (#[trigger] r@[x1].0@, r@[x1].1) == fl[q[x1] as int]);
        }
        r
    }

    /// Resets the counts and error of the first record matching the trimmed
    /// id (ignoring ASCII case); tells whether one matched.
    pub fn clear_failures(&mut self, plugin_id: &str) -> (r: bool)
        ensures
            ({
                let i = match_index(record_ids(old(self)@), spec_trim(plugin_id@));
                &&& r == (i >= 0)
                &&& r ==> final(self)@ == old(self)@.update(
                    i,
                    (old(self)@[i].0, 0u32, 0u32, old(self)@[i].3, Seq::empty()),
                )
                &&& !r ==> final(self)@ == old(self)@
            }),
    {
        let id = trim(plugin_id);
        let ghost es = self@;
        match find_record(&self.entries, id.as_str()) {
            Some(i) => {
                let e = &self.entries[i];
                let cleared = PluginCompatibility {
                    plugin_id: copy_str(e.plugin_id.as_str()),
                    scan_failures: 0,
                    crashes: 0,
                    blacklisted: e.blacklisted,
                    last_error: String::new(),
                };
                self.entries.set(i, cleared);
                proof {
                    assert(self@ =~= es.update(
                        i as int,
                        (es[i as int].0, 0u32, 0u32, es[i as int].3, Seq::empty()),
                    ));
                }
                true
            },
            None => false,
        }
    }

    /// The ids whose record differs from the baseline's, or that only the
    /// baseline has, each once and in ascending order.
    pub fn regression_ids(&self, baseline: &PluginRegistry) -> (r: Vec<String>)
        ensures
            strictly_sorted(text_views(r@)),
            forall|t: Seq<char>| text_views(r@).contains(t) <==> regressed(self@, baseline@, t),
    {
        let ghost cur = self@;
        let ghost base = baseline@;
        let mut ids: Vec<String> = Vec::new();
        let mut i: usize = 0;
        while i < self.entries.len()
            invariant
                i <= self.entries.len(),
                cur == self@,
                base == baseline@,
                forall|t: Seq<char>| text_views(ids@).contains(t) <==> exists|k: int|
                    0 <= k < i && changed(cur, base, k) && #[trigger] cur[k].0 == t,
            decreases self.entries.len() - i,
        {
            let e = &self.entries[i];
            let differs = match find_record(&baseline.entries, e.plugin_id.as_str()) {
                Some(j) => {
                    let b = &baseline.entries[j];
                    !(str_eq(b.plugin_id.as_str(), e.plugin_id.as_str()) && b.scan_failures
                        == e.scan_failures && b.crashes == e.crashes && b.blacklisted == e.blacklisted
                        && str_eq(b.last_error.as_str(), e.last_error.as_str()))
                },
                None => true,
            };
            proof {
                assert(cur[i as int].0 == e.plugin_id@);
                assert(differs == changed(cur, base, i as int));
            }
            let ghost before = ids@;
            if differs {
                ids.push(copy_str(e.plugin_id.as_str()));
            }
            proof {
                assert forall|t: Seq<char>| text_views(ids@).contains(t) <==> exists|k: int|
                    0 <= k < i + 1 && changed(cur, base, k) && #[trigger] cur[k].0 == t by {
                    if differs {
                        assert(text_views(ids@) =~= text_views(before).push(cur[i as int].0));
                    } else {
                        assert(text_views(ids@) =~= text_views(before));
                    }
                    if text_views(ids@).contains(t) {
                        if differs && t == cur[i as int].0 {
                            assert(0 <= i < i + 1 && changed(cur, base, i as int) && cur[i as int].0 == t);
                        } else {
                            let a = choose|a: int| 0 <= a < text_views(ids@).len() && text_views(ids@)[a] == t;
                            assert(text_views(before)[a] == t);
                            assert(text_views(before).contains(t));
                            let k = choose|k: int| 0 <= k < i && changed(cur, base, k) && #[trigger] cur[k].0 == t;
                            assert(0 <= k < i + 1 && changed(cur, base, k) && cur[k].0 == t);
                        }
                    }
                    if exists|k: int| 0 <= k < i + 1 && changed(cur, base, k) && #[trigger] cur[k].0 == t {
                        let k = choose|k: int| 0 <= k < i + 1 && changed(cur, base, k) && #[trigger] cur[k].0 == t;
                        if k == i {
                            assert(differs);
                            assert(text_views(ids@)[before.len() as int] == t);
                        } else {
                            assert(exists|k2: int| 0 <= k2 < i && changed(cur, base, k2) && #[trigger] cur[k2].0 == t);
                            assert(text_views(before).contains(t));
                            let a = choose|a: int| 0 <= a < text_views(before).len() && text_views(before)[a] == t;
                            assert(text_views(ids@)[a] == t);
                        }
                    }
                }
            }
            i += 1;
        }
        let mut j: usize = 0;
        while j < baseline.entries.len()
            invariant
                j <= baseline.entries.len(),
                cur == self@,
                base == baseline@,
                forall|t: Seq<char>| text_views(ids@).contains(t) <==> (exists|k: int|
                    0 <= k < cur.len() && changed(cur, base, k) && #[trigger] cur[k].0 == t) || (exists|k: int|
                    0 <= k < j && dropped(cur, base, k) && #[trigger] base[k].0 == t),
            decreases baseline.entries.len() - j,
        {
            let b = &baseline.entries[j];
            let gone = find_record(&self.entries, b.plugin_id.as_str()).is_none();
            proof {
                assert(base[j as int].0 == b.plugin_id@);
                assert(gone == dropped(cur, base, j as int));
            }
            let ghost before = ids@;
            if gone {
                ids.push(copy_str(b.plugin_id.as_str()));
            }
            proof {
                assert forall|t: Seq<char>| text_views(ids@).contains(t) <==> (exists|k: int|
                    0 <= k < cur.len() && changed(cur, base, k) && #[trigger] cur[k].0 == t) || (exists|k: int|
                    0 <= k < j + 1 && dropped(cur, base, k) && #[trigger] base[k].0 == t) by {
                    if gone {
                        assert(text_views(ids@) =~= text_views(before).push(base[j as int].0));
                        if text_views(ids@).contains(t) && t != base[j as int].0 {
                            let a = choose|a: int| 0 <= a < text_views(ids@).len() && text_views(ids@)[a] == t;
                            assert(text_views(before)[a] == t);
                        }
                        if t == base[j as int].0 {
                            assert(text_views(ids@)[before.len() as int] == t);
                        } else if text_views(before).contains(t) {
                            let a = choose|a: int| 0 <= a < text_views(before).len() && text_views(before)[a] == t;
                            assert(text_views(ids@)[a] == t);
                        }
                    } else {
                        assert(text_views(ids@) =~= text_views(before));
                    }
                }
            }
            j += 1;
        }
        let r = sorted_distinct_texts(&ids);
        proof {
            assert forall|t: Seq<char>| text_views(r@).contains(t) <==> regressed(self@, baseline@, t) by {
                assert(text_views(ids@).contains(t) <==> regressed(cur, base, t));
            }
        }
        r
    }

    /// At most 65536 sound records, no two of whose ids match ignoring ASCII
    /// case.
    pub fn validate(&self) -> (r: bool)
        ensures
            r == (self@.len() <= 65_536 && (forall|i: int| 0 <= i < self@.len() ==> compat_ok(#[trigger] self@[i]))
                && forall|i: int, j: int|
                0 <= j < i < self@.len() ==> !eq_ignore_case(#[trigger] self@[j].0, #[trigger] self@[i].0)),
    {
        if self.entries.len() > 65_536 {
            return false;
        }
        let ghost es = self@;
        let mut i: usize = 0;
        while i < self.entries.len()
            invariant
                i <= self.entries.len(),
                es == self@,
                forall|k: int| 0 <= k < i ==> compat_ok(#[trigger] es[k]),
            decreases self.entries.len() - i,
        {
            proof {
                assert(es[i as int] == compat_view(self.entries@[i as int]));
            }
            if !self.entries[i].validate() {
                return false;
            }
            i += 1;
        }
        let mut i: usize = 0;
        while i < self.entries.len()
            invariant
                i <= self.entries.len(),
                es == self@,
                forall|a: int, b: int| 0 <= b < a < i ==> !eq_ignore_case(#[trigger] es[b].0, #[trigger] es[a].0),
            decreases self.entries.len() - i,
        {
            let mut j: usize = 0;
            while j < i
                invariant
                    j <= i < self.entries.len(),
                    es == self@,
                    forall|b: int| 0 <= b < j ==> !eq_ignore_case(#[trigger] es[b].0, es[i as int].0),
                decreases i - j,
            {
                if eq_ignore_ascii_case(self.entries[j].plugin_id.as_str(), self.entries[i].plugin_id.as_str()) {
                    proof {
                        assert(eq_ignore_case(es[j as int].0, es[i as int].0));
                    }
                    return false;
                }
                j += 1;
            }
            i += 1;
        }
        true
    }
}

impl Default for PluginRegistry {
    fn default() -> (r: Self)
        ensures
            r@ == Seq::<CompatView>::empty(),
    {
        let r = PluginRegistry { entries: Vec::new() };
        proof {
            assert(r@ =~= Seq::<CompatView>::empty());
        }
        r
    }
}

} // verus!
