//! Online/offline processing state of a plugin, and the registry of the
//! latency that each plugin reports.
use vstd::prelude::*;
use crate::keyed::{
    first_match, key_seq, key_slot, lemma_first_match_unique, match_index, lemma_sorted_distinct, lemma_sorted_insert, lemma_sorted_remove,
    lemma_table_insert, lemma_table_remove, lemma_table_set, strictly_sorted, table,
};
use crate::sorting::{is_perm, stable_order, stably_sorted, strict_weak};
use crate::text::{
    blank, byte_len, contains_char, within_bytes, copy_str, eq_ignore_ascii_case, eq_ignore_case,
    is_blank, seq_lt, spec_trim, str_eq, trim,
};

verus! {

/// Whether a plugin runs in the realtime graph, and why not.
#[derive(Clone, Debug, PartialEq, Eq)]
pub struct PluginProcessingState {
    pub plugin_id: String,
    pub online: bool,
    pub reason: String,
}

/// The plugin id is trimmed text of at most 256 bytes, the reason at most
/// 512 bytes, and neither holds NUL.
pub open spec fn processing_ok(plugin_id: Seq<char>, reason: Seq<char>) -> bool {
    &&& !is_blank(plugin_id)
    &&& byte_len(plugin_id) <= 256
    &&& plugin_id == spec_trim(plugin_id)
    &&& !plugin_id.contains('\0')
    &&& byte_len(reason) <= 512
    &&& !reason.contains('\0')
}

impl PluginProcessingState {
    /// Switches processing on or off with a reason.  Refused, with nothing
    /// changed, when the reason is longer than 512 bytes or holds NUL, or
    /// the plugin id is blank or holds NUL.  Both texts are stored trimmed.
    pub fn set_online(&mut self, online: bool, reason: &str) -> (r: bool)
        ensures
            r == (byte_len(reason@) <= 512 && !reason@.contains('\0') && !is_blank(
                old(self).plugin_id@,
            ) && !old(self).plugin_id@.contains('\0')),
            r ==> final(self).plugin_id@ == spec_trim(old(self).plugin_id@) && final(self).reason@
                == spec_trim(reason@) && final(self).online == online,
            !r ==> final(self).plugin_id@ == old(self).plugin_id@ && final(self).reason@ == old(
                self,
            ).reason@ && final(self).online == old(self).online,
    {
        if !within_bytes(reason, 512) || contains_char(reason, '\0') || blank(
            self.plugin_id.as_str(),
        ) || contains_char(self.plugin_id.as_str(), '\0') {
            return false;
        }
        self.plugin_id = trim(self.plugin_id.as_str());
        self.reason = trim(reason);
        self.online = online;
        true
    }

    pub fn validate(&self) -> (r: bool)
        ensures
            r == processing_ok(self.plugin_id@, self.reason@),
    {
        let id = self.plugin_id.as_str();
        if blank(id) || !within_bytes(id, 256) {
            return false;
        }
        let t = trim(id);
        str_eq(id, t.as_str()) && !contains_char(id, '\0') && within_bytes(self.reason.as_str(), 512)
            && !contains_char(self.reason.as_str(), '\0')
    }
}

/// The latency each plugin reports, in samples, kept in ascending order of
/// plugin id.
#[derive(Clone, Debug, PartialEq, Eq)]
pub struct PluginLatencyRegistry {
    pub samples: Vec<(String, u32)>,
}

/// The highest value (0 for none).
pub open spec fn max_value(vs: Seq<u32>) -> u32
    decreases vs.len(),
{
    if vs.len() == 0 {
        0
    } else if max_value(vs.drop_last()) < vs.last() {
        vs.last()
    } else {
        max_value(vs.drop_last())
    }
}

/// Sum of the values.
pub open spec fn sum_values(vs: Seq<u32>) -> nat
    decreases vs.len(),
{
    if vs.len() == 0 {
        0
    } else {
        (sum_values(vs.drop_last()) + vs.last()) as nat
    }
}

/// A latency entry is a trimmed id of at most 256 bytes without NUL and at
/// most ten million samples.
pub open spec fn latency_entry_ok(id: Seq<char>, v: u32) -> bool {
    !is_blank(id) && byte_len(id) <= 256 && id == spec_trim(id) && !id.contains('\0') && v
        <= 10_000_000
}

/// A plugin id that `set_latency` accepts.
pub open spec fn latency_input_ok(id: Seq<char>, samples: u32) -> bool {
    !is_blank(id) && byte_len(id) <= 256 && !id.contains('\0') && samples <= 10_000_000
}

proof fn lemma_max_value(vs: Seq<u32>)
    ensures
        forall|j: int| 0 <= j < vs.len() ==> #[trigger] vs[j] <= max_value(vs),
        vs.len() > 0 ==> exists|j: int| 0 <= j < vs.len() && #[trigger] vs[j] == max_value(vs),
    decreases vs.len(),
{
    if vs.len() > 0 {
        let v0 = vs.drop_last();
        lemma_max_value(v0);
        assert forall|j: int| 0 <= j < vs.len() implies #[trigger] vs[j] <= max_value(vs) by {
            if j < vs.len() - 1 {
                assert(vs[j] == v0[j]);
            }
        }
        if max_value(v0) < vs.last() || v0.len() == 0 {
            assert(vs[vs.len() - 1] == vs.last());
        } else {
            let j = choose|j: int| 0 <= j < v0.len() && #[trigger] v0[j] == max_value(v0);
            assert(vs[j] == v0[j]);
        }
    }
}

impl View for PluginLatencyRegistry {
    type V = Map<Seq<char>, u32>;

    open spec fn view(&self) -> Map<Seq<char>, u32> {
        table(self.ids(), self.values())
    }
}

impl PluginLatencyRegistry {
    pub open spec fn ids(&self) -> Seq<Seq<char>> {
        key_seq(self.samples@)
    }

    pub open spec fn values(&self) -> Seq<u32> {
        self.samples@.map_values(|e: (String, u32)| e.1)
    }

    /// Ids ascend strictly, as in a map keyed by id.
    pub open spec fn wf(&self) -> bool {
        strictly_sorted(self.ids())
    }

    /// The latency of the first plugin whose id matches, ignoring ASCII case.
    pub open spec fn latency_of(&self, q: Seq<char>) -> Option<u32> {
        let i = match_index(self.ids(), q);
        if i >= 0 {
            Some(self.values()[i])
        } else {
            None
        }
    }

    /// Records a plugin's latency under its trimmed id.  Refused, with
    /// nothing changed, for a blank id, an id over 256 bytes or with NUL,
    /// or more than ten million samples.
    pub fn set_latency(&mut self, plugin_id: &str, samples: u32) -> (r: bool)
        requires
            old(self).wf(),
        ensures
            final(self).wf(),
            r == latency_input_ok(plugin_id@, samples),
            r ==> final(self)@ == old(self)@.insert(spec_trim(plugin_id@), samples),
            !r ==> final(self).samples@ == old(self).samples@,
    {
        if blank(plugin_id) || !within_bytes(plugin_id, 256) || contains_char(plugin_id, '\0')
            || samples > 10_000_000 {
            return false;
        }
        let id = trim(plugin_id);
        let ghost ks = self.ids();
        let ghost vs = self.values();
        proof {
            lemma_sorted_distinct(ks);
        }
        let (found, pos) = key_slot(&self.samples, id.as_str());
        if found {
            let key = copy_str(self.samples[pos].0.as_str());
            self.samples.set(pos, (key, samples));
            proof {
                assert(self.ids() =~= ks);
                assert(self.values() =~= vs.update(pos as int, samples));
                lemma_table_set(ks, vs, pos as int, samples);
            }
        } else {
            self.samples.insert(pos, (id, samples));
            proof {
                assert(self.ids() =~= ks.insert(pos as int, spec_trim(plugin_id@)));
                assert(self.values() =~= vs.insert(pos as int, samples));
                lemma_table_insert(ks, vs, pos as int, spec_trim(plugin_id@), samples);
                lemma_sorted_insert(ks, pos as int, spec_trim(plugin_id@));
            }
        }
        true
    }

    /// The position of the first plugin whose id matches the trimmed query
    /// ignoring ASCII case.
    fn find(&self, plugin_id: &str) -> (r: Option<usize>)
        ensures
            match r {
                Some(i) => first_match(self.ids(), spec_trim(plugin_id@), i as int),
                None => match_index(self.ids(), spec_trim(plugin_id@)) == -1,
            },
            match r {
                Some(i) => match_index(self.ids(), spec_trim(plugin_id@)) == i,
                None => true,
            },
    {
        let q = trim(plugin_id);
        let ghost ks = self.ids();
        let mut i: usize = 0;
        while i < self.samples.len()
            invariant
                i <= self.samples.len(),
                ks == self.ids(),
                q@ == spec_trim(plugin_id@),
                forall|j: int| 0 <= j < i ==> !eq_ignore_case(#[trigger] ks[j], q@),
            decreases self.samples.len() - i,
        {
            if eq_ignore_ascii_case(self.samples[i].0.as_str(), q.as_str()) {
                proof {
                    assert(first_match(ks, q@, i as int));
                    lemma_first_match_unique(ks, q@, i as int);
                }
                return Some(i);
            }
            i += 1;
        }
        None
    }

    /// The latency of the first plugin, in id order, whose id matches the
    /// trimmed query ignoring ASCII case.
    pub fn latency(&self, plugin_id: &str) -> (r: Option<u32>)
        ensures
            r == self.latency_of(spec_trim(plugin_id@)),
    {
        match self.find(plugin_id) {
            Some(i) => Some(self.samples[i].1),
            None => None,
        }
    }

    /// Removes the first plugin, in id order, whose id matches the trimmed
    /// query ignoring ASCII case; tells whether one did.
    pub fn remove(&mut self, plugin_id: &str) -> (r: bool)
        requires
            old(self).wf(),
        ensures
            final(self).wf(),
            r == (match_index(old(self).ids(), spec_trim(plugin_id@)) >= 0),
            r ==> final(self)@ == old(self)@.remove(
                old(self).ids()[match_index(old(self).ids(), spec_trim(plugin_id@))],
            ),
            !r ==> final(self).samples@ == old(self).samples@,
    {
        match self.find(plugin_id) {
            Some(i) => {
                let ghost ks = self.ids();
                let ghost vs = self.values();
                self.samples.remove(i);
                proof {
                    assert(self.ids() =~= ks.remove(i as int));
                    assert(self.values() =~= vs.remove(i as int));
                    lemma_sorted_distinct(ks);
                    lemma_table_remove(ks, vs, i as int);
                    lemma_sorted_remove(ks, i as int);
                }
                true
            },
            None => false,
        }
    }

    /// Total latency of all plugins.
    pub fn total_samples(&self) -> (r: u64)
        requires
            sum_values(self.values()) <= u64::MAX,
        ensures
            r == sum_values(self.values()),
    {
        let ghost vs = self.values();
        let mut total: u64 = 0;
        let mut i: usize = 0;
        while i < self.samples.len()
            invariant
                i <= self.samples.len(),
                vs == self.values(),
                sum_values(vs) <= u64::MAX,
                total == sum_values(vs.take(i as int)),
            decreases self.samples.len() - i,
        {
            proof {
                assert(vs.take(i + 1).drop_last() =~= vs.take(i as int));
                lemma_sum_prefix(vs, i + 1);
            }
            total = total + self.samples[i].1 as u64;
            i += 1;
        }
        proof {
            assert(vs.take(i as int) =~= vs);
        }
        total
    }

    /// The plugin with the highest latency; of several, the last in id order.
    pub fn max_latency(&self) -> (r: Option<(String, u32)>)
        ensures
            match r {
                Some(e) => exists|i: int|
                    {
                        &&& 0 <= i < self.samples@.len()
                        &&& e.0@ == self.ids()[i]
                        &&& e.1 == self.values()[i]
                        &&& forall|j: int| 0 <= j < self.samples@.len() ==> #[trigger] self.values()[j] <= e.1
                        &&& forall|j: int| i < j < self.samples@.len() ==> #[trigger] self.values()[j] < e.1
                    },
                None => self.samples@.len() == 0,
            },
    {
        if self.samples.len() == 0 {
            return None;
        }
        let ghost vs = self.values();
        let mut best: usize = 0;
        let mut i: usize = 1;
        while i < self.samples.len()
            invariant
                1 <= i <= self.samples.len(),
                best < i,
                vs == self.values(),
                forall|j: int| 0 <= j < i ==> #[trigger] vs[j] <= vs[best as int],
                forall|j: int| best < j < i ==> #[trigger] vs[j] < vs[best as int],
            decreases self.samples.len() - i,
        {
            if self.samples[i].1 >= self.samples[best].1 {
                best = i;
            }
            i += 1;
        }
        let id = copy_str(self.samples[best].0.as_str());
        proof {
            let e = (id, self.samples@[best as int].1);
            assert(e.0@ == self.ids()[best as int]);
            assert(e.1 == self.values()[best as int]);
        }
        Some((id, self.samples[best].1))
    }

    /// How many samples the plugin must wait to line up with the slowest
    /// registered plugin, or `None` when no id matches.
    pub fn compensation_samples(&self, plugin_id: &str) -> (r: Option<u32>)
        ensures
            r == match self.latency_of(spec_trim(plugin_id@)) {
                Some(l) => Some((max_value(self.values()) - l) as u32),
                None => None,
            },
    {
        let l = match self.latency(plugin_id) {
            Some(l) => l,
            None => return None,
        };
        let ghost vs = self.values();
        let mut m: u32 = 0;
        let mut i: usize = 0;
        while i < self.samples.len()
            invariant
                i <= self.samples.len(),
                vs == self.values(),
                m == max_value(vs.take(i as int)),
            decreases self.samples.len() - i,
        {
            proof {
                assert(vs.take(i + 1).drop_last() =~= vs.take(i as int));
            }
            if m < self.samples[i].1 {
                m = self.samples[i].1;
            }
            i += 1;
        }
        proof {
            assert(vs.take(i as int) =~= vs);
            lemma_max_value(vs);
            let k = match_index(self.ids(), spec_trim(plugin_id@));
            assert(vs[k] <= m);
        }
        Some(m - l)
    }

    /// All plugins with their latency, slowest first, ties in id order.
    pub fn latency_report(&self) -> (r: Vec<(String, u32)>)
        requires
            self.wf(),
        ensures
            exists|p: Seq<usize>|
                {
                    &&& is_perm(p, self.samples@.len() as int)
                    &&& r@.len() == p.len()
                    &&& forall|x: int|
                        0 <= x < p.len() ==> #[trigger] r@[x].0@ == self.ids()[p[x] as int] && r@[x].1
                            == self.values()[p[x] as int]
                },
            forall|x: int, y: int|
                0 <= x < y < r@.len() ==> #[trigger] r@[x].1 > #[trigger] r@[y].1 || (r@[x].1 == r@[y].1
                    && seq_lt(r@[x].0@, r@[y].0@)),
    {
        let n = self.samples.len();
        let ghost vs = self.values();
        let ghost ks = self.ids();
        let ghost rel = |a: int, b: int| vs[a] > vs[b];
        let lt = |a: usize, b: usize| -> (c: bool)
            requires
                a < n && b < n,
            ensures
                c == (self.values()[a as int] > self.values()[b as int]),
            { self.samples[a].1 > self.samples[b].1 };
        proof {
            assert(n == self.samples.len());
        }
        let p = stable_order(n, &lt, Ghost(rel));
        let mut r: Vec<(String, u32)> = Vec::new();
        let mut x: usize = 0;
        while x < n
            invariant
                x <= n,
                n == self.samples.len(),
                vs == self.values(),
                ks == self.ids(),
                is_perm(p@, n as int),
                r.len() == x,
                forall|y: int| 0 <= y < x ==> #[trigger] r@[y].0@ == ks[p@[y] as int] && r@[y].1 == vs[p@[y] as int],
            decreases n - x,
        {
            let v = p[x];
            let id = copy_str(self.samples[v].0.as_str());
            r.push((id, self.samples[v].1));
            x += 1;
        }
        proof {
            assert forall|x1: int, y1: int| 0 <= x1 < y1 < r@.len() implies #[trigger] r@[x1].1 > #[trigger] r@[y1].1 || (r@[x1].1 == r@[y1].1
                && seq_lt(r@[x1].0@, r@[y1].0@)) by {
                let a = p@[x1] as int;
                let b = p@[y1] as int;
                assert(x1 < x);
                assert(r@[x1].0@ == ks[p@[x1] as int]);
                assert(r@[x1].0@ == ks[a] && r@[x1].1 == vs[a]);
                assert(y1 < x);
                assert(r@[y1].0@ == ks[p@[y1] as int]);
                assert(r@[y1].0@ == ks[b] && r@[y1].1 == vs[b]);
                assert(!rel(b, a));
                if vs[a] == vs[b] {
                    assert(!rel(a, b));
                    assert(a < b);
                    assert(seq_lt(ks[a], ks[b]));
                }
            }
            let q = p@;
            assert(is_perm(q, self.samples@.len() as int));
            assert(forall|x: int|
                0 <= x < q.len() ==> #[trigger] r@[x].0@ == self.ids()[q[x] as int] && r@[x].1
                    == self.values()[q[x] as int]);
        }
        r
    }

    /// At most 4096 plugins, each with a sound entry.
    pub fn validate(&self) -> (r: bool)
        ensures
            r == (self.samples@.len() <= 4096 && forall|i: int|
                0 <= i < self.samples@.len() ==> latency_entry_ok(
                    #[trigger] self.ids()[i],
                    self.values()[i],
                )),
    {
        if self.samples.len() > 4096 {
            return false;
        }
        let ghost ks = self.ids();
        let ghost vs = self.values();
        let mut i: usize = 0;
        while i < self.samples.len()
            invariant
                i <= self.samples.len(),
                ks == self.ids(),
                vs == self.values(),
                forall|j: int| 0 <= j < i ==> latency_entry_ok(#[trigger] ks[j], vs[j]),
            decreases self.samples.len() - i,
        {
            let id = self.samples[i].0.as_str();
            proof {
                assert(ks[i as int] == id@);
                assert(vs[i as int] == self.samples@[i as int].1);
            }
            if blank(id) || !within_bytes(id, 256) {
                return false;
            }
            let t = trim(id);
            if !str_eq(id, t.as_str()) || contains_char(id, '\0') || self.samples[i].1 > 10_000_000 {
                return false;
            }
            i += 1;
        }
        true
    }
}

proof fn lemma_sum_prefix(vs: Seq<u32>, m: int)
    requires
        0 <= m <= vs.len(),
    ensures
        sum_values(vs.take(m)) <= sum_values(vs),
    decreases vs.len(),
{
    if m < vs.len() {
        assert(vs.drop_last().take(m) =~= vs.take(m));
        lemma_sum_prefix(vs.drop_last(), m);
    } else {
        assert(vs.take(m) =~= vs);
    }
}

impl Default for PluginLatencyRegistry {
    fn default() -> (r: Self)
        ensures
            r.samples@.len() == 0,
            r.wf(),
            r@ == Map::<Seq<char>, u32>::empty(),
    {
        let r = PluginLatencyRegistry { samples: Vec::new() };
        proof {
            assert(r.ids().len() == 0);
        }
        r
    }
}

} // verus!
