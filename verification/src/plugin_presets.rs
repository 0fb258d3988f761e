//! The preset browser: plug-in presets with categories, tags and
//! favorites.
use vstd::prelude::*;
use crate::keyed::{lemma_seq_lt_irrefl, lemma_seq_lt_total, lemma_seq_lt_trans, text_views};
use crate::sorting::{is_perm, stable_order, stably_sorted, strict_weak};
use crate::text::{
    ascii_lower, blank, byte_len, chars_of, contains_char, contains_chars, contains_text, copy_str,
    eq_ignore_ascii_case, eq_ignore_case, is_blank, is_valid_text, lower_chars, seq_lt, spec_trim,
    str_eq, str_lt, to_ascii_lower, trim, valid_text,
};

verus! {

#[derive(Clone, Debug, PartialEq)]
pub struct PluginPreset {
    pub id: String,
    pub plugin_id: String,
    pub name: String,
    pub category: String,
    pub tags: Vec<String>,
    pub favorite: bool,
    pub compatible: bool,
}

#[derive(Clone, Debug)]
pub struct PluginPresetBrowser {
    pub presets: Vec<PluginPreset>,
}

/// A preset as plain values.
pub struct PresetView {
    pub id: Seq<char>,
    pub plugin_id: Seq<char>,
    pub name: Seq<char>,
    pub category: Seq<char>,
    pub tags: Seq<Seq<char>>,
    pub favorite: bool,
    pub compatible: bool,
}

pub open spec fn preset_view(p: PluginPreset) -> PresetView {
    PresetView {
        id: p.id@,
        plugin_id: p.plugin_id@,
        name: p.name@,
        category: p.category@,
        tags: text_views(p.tags@),
        favorite: p.favorite,
        compatible: p.compatible,
    }
}

pub open spec fn presets_view(ps: Seq<PluginPreset>) -> Seq<PresetView> {
    ps.map_values(|p: PluginPreset| preset_view(p))
}

/// The texts and tags of a preset are valid.
pub open spec fn preset_fields_ok(p: PresetView) -> bool {
    &&& valid_text(p.id, 256)
    &&& valid_text(p.plugin_id, 256)
    &&& valid_text(p.name, 256)
    &&& valid_text(p.category, 128)
    &&& p.tags.len() <= 64
    &&& forall|t: int| 0 <= t < p.tags.len() ==> valid_text(#[trigger] p.tags[t], 128)
}

/// No two tags match ignoring ASCII case.
pub open spec fn tags_distinct(tags: Seq<Seq<char>>) -> bool {
    forall|i: int, j: int| 0 <= j < i < tags.len() ==> !eq_ignore_case(#[trigger] tags[j], #[trigger] tags[i])
}

/// The first preset with the id (-1 if none).
pub open spec fn find_preset(ps: Seq<PresetView>, id: Seq<char>) -> int {
    if exists|i: int| 0 <= i < ps.len() && #[trigger] ps[i].id == id {
        choose|i: int| 0 <= i < ps.len() && ps[i].id == id && forall|j: int| 0 <= j < i ==> #[trigger] ps[j].id != id
    } else {
        -1
    }
}

/// The preset matches a search: plug-in (ignoring ASCII case) when one is
/// given, favorite and compatible flags when asked, and the lowercased
/// query in its name, category or a tag unless the query is empty.
pub open spec fn matches(p: PresetView, plugin: Option<Seq<char>>, q: Seq<char>, favorites_only: bool, compatible_only: bool) -> bool {
    &&& (plugin matches Some(id) ==> eq_ignore_case(p.plugin_id, id))
    &&& (!favorites_only || p.favorite)
    &&& (!compatible_only || p.compatible)
    &&& (q.len() == 0 || contains_text(ascii_lower(p.name), q) || contains_text(ascii_lower(p.category), q)
        || exists|t: int| 0 <= t < p.tags.len() && contains_text(ascii_lower(#[trigger] p.tags[t]), q))
}

/// The presets that match a search, in order.
pub open spec fn search_hits(ps: Seq<PresetView>, plugin: Option<Seq<char>>, q: Seq<char>, favorites_only: bool, compatible_only: bool) -> Seq<PresetView> {
    ps.filter(|p: PresetView| matches(p, plugin, q, favorites_only, compatible_only))
}

/// `r` is `hits` sorted stably by preset order.
pub open spec fn sorted_hits(r: Seq<PresetView>, hits: Seq<PresetView>) -> bool {
    exists|p: Seq<usize>|
        {
            &&& is_perm(p, hits.len() as int)
            &&& stably_sorted(p, by_preset_order(hits))
            &&& r.len() == hits.len()
            &&& forall|x: int| 0 <= x < hits.len() ==> #[trigger] r[x] == hits[p[x] as int]
        }
}

/// Favorites first, then lowercased name, then id.
pub open spec fn preset_before(a: PresetView, b: PresetView) -> bool {
    (a.favorite && !b.favorite) || (a.favorite == b.favorite && (seq_lt(ascii_lower(a.name), ascii_lower(b.name))
        || (ascii_lower(a.name) == ascii_lower(b.name) && seq_lt(a.id, b.id))))
}

pub open spec fn by_preset_order(ps: Seq<PresetView>) -> spec_fn(int, int) -> bool {
    |a: int, b: int| preset_before(ps[a], ps[b])
}

proof fn lemma_preset_order(ps: Seq<PresetView>)
    ensures
        strict_weak(by_preset_order(ps), ps.len() as int),
{
    let rel = by_preset_order(ps);
    assert forall|a: int| 0 <= a < ps.len() implies !#[trigger] rel(a, a) by {
        lemma_seq_lt_irrefl(ascii_lower(ps[a].name));
        lemma_seq_lt_irrefl(ps[a].id);
    }
    assert forall|a: int, b: int, c: int|
        0 <= a < ps.len() && 0 <= b < ps.len() && 0 <= c < ps.len() && #[trigger] rel(a, b) && #[trigger] rel(b, c)
            implies rel(a, c) by {
        let (x, y, z) = (ps[a], ps[b], ps[c]);
        if x.favorite == y.favorite && y.favorite == z.favorite {
            let (nx, ny, nz) = (ascii_lower(x.name), ascii_lower(y.name), ascii_lower(z.name));
            if seq_lt(nx, ny) && seq_lt(ny, nz) {
                lemma_seq_lt_trans(nx, ny, nz);
            }
            if nx == ny && ny == nz {
                lemma_seq_lt_irrefl(nx);
                lemma_seq_lt_trans(x.id, y.id, z.id);
            }
        }
    }
    assert forall|a: int, b: int, c: int|
        0 <= a < ps.len() && 0 <= b < ps.len() && 0 <= c < ps.len() && #[trigger] rel(a, c) implies #[trigger] rel(a, b)
            || #[trigger] rel(b, c) by {
        let (x, y, z) = (ps[a], ps[b], ps[c]);
        let (nx, ny, nz) = (ascii_lower(x.name), ascii_lower(y.name), ascii_lower(z.name));
        lemma_seq_lt_total(nx, ny);
        lemma_seq_lt_total(x.id, y.id);
        if seq_lt(ny, nx) && seq_lt(nx, nz) {
            lemma_seq_lt_trans(ny, nx, nz);
        }
        if seq_lt(ny, nx) && nx == nz {
            assert(seq_lt(ny, nz));
        }
        if seq_lt(y.id, x.id) && seq_lt(x.id, z.id) {
            lemma_seq_lt_trans(y.id, x.id, z.id);
        }
    }
}

fn copy_texts(v: &Vec<String>) -> (r: Vec<String>)
    ensures
        text_views(r@) == text_views(v@),
{
    let mut r: Vec<String> = Vec::new();
    let mut i: usize = 0;
    while i < v.len()
        invariant
            i <= v.len(),
            text_views(r@) == text_views(v@).take(i as int),
        decreases v.len() - i,
    {
        r.push(copy_str(v[i].as_str()));
        proof {
            assert(text_views(v@).take(i + 1) =~= text_views(v@).take(i as int).push(v@[i as int]@));
        }
        i += 1;
        proof {
            assert(text_views(r@) =~= text_views(v@).take(i as int));
        }
    }
    proof {
        assert(text_views(v@).take(i as int) =~= text_views(v@));
    }
    r
}

fn copy_preset(p: &PluginPreset) -> (r: PluginPreset)
    ensures
        preset_view(r) == preset_view(*p),
{
    PluginPreset {
        id: copy_str(p.id.as_str()),
        plugin_id: copy_str(p.plugin_id.as_str()),
        name: copy_str(p.name.as_str()),
        category: copy_str(p.category.as_str()),
        tags: copy_texts(&p.tags),
        favorite: p.favorite,
        compatible: p.compatible,
    }
}

/// Whether the lowercased text holds the lowercased query.
fn holds_query(text: &str, q: &Vec<char>) -> (r: bool)
    ensures
        r == contains_text(ascii_lower(text@), q@),
{
    let t = chars_of(text);
    let l = lower_chars(t.as_slice());
    contains_chars(l.as_slice(), q.as_slice())
}

#[verifier::loop_isolation(false)]
fn preset_matches(p: &PluginPreset, plugin: Option<&str>, q: &Vec<char>, favorites_only: bool, compatible_only: bool) -> (r: bool)
    ensures
        r == matches(preset_view(*p), match plugin {
            Some(id) => Some(id@),
            None => None,
        }, q@, favorites_only, compatible_only),
{
    let ghost pv = preset_view(*p);
    match plugin {
        Some(id) => {
            if !eq_ignore_ascii_case(p.plugin_id.as_str(), id) {
                return false;
            }
        },
        None => {},
    }
    if (favorites_only && !p.favorite) || (compatible_only && !p.compatible) {
        return false;
    }
    if q.len() == 0 || holds_query(p.name.as_str(), q) || holds_query(p.category.as_str(), q) {
        proof {
            assert(pv.name == p.name@ && pv.category == p.category@);
            assert(!favorites_only || pv.favorite);
            assert(!compatible_only || pv.compatible);
        }
        return true;
    }
    let mut t: usize = 0;
    while t < p.tags.len()
        invariant
            t <= p.tags.len(),
            pv == preset_view(*p),
            forall|u: int| 0 <= u < t ==> !contains_text(ascii_lower(#[trigger] pv.tags[u]), q@),
        decreases p.tags.len() - t,
    {
        proof {
            assert(pv.tags[t as int] == p.tags@[t as int]@);
        }
        if holds_query(p.tags[t].as_str(), q) {
            proof {
                assert(contains_text(ascii_lower(pv.tags[t as int]), q@));
            }
            return true;
        }
        t += 1;
    }
    false
}

/// The texts and tags of the preset are valid.
fn fields_valid(p: &PluginPreset) -> (r: bool)
    ensures
        r == preset_fields_ok(preset_view(*p)),
{
    if !is_valid_text(p.id.as_str(), 256) || !is_valid_text(p.plugin_id.as_str(), 256)
        || !is_valid_text(p.name.as_str(), 256) || !is_valid_text(p.category.as_str(), 128)
        || p.tags.len() > 64 {
        return false;
    }
    let ghost pv = preset_view(*p);
    let mut t: usize = 0;
    while t < p.tags.len()
        invariant
            t <= p.tags.len(),
            pv == preset_view(*p),
            forall|u: int| 0 <= u < t ==> valid_text(#[trigger] pv.tags[u], 128),
        decreases p.tags.len() - t,
    {
        proof {
            assert(pv.tags[t as int] == p.tags@[t as int]@);
        }
        if !is_valid_text(p.tags[t].as_str(), 128) {
            return false;
        }
        t += 1;
    }
    true
}

impl PluginPresetBrowser {
    pub open spec fn view_presets(&self) -> Seq<PresetView> {
        presets_view(self.presets@)
    }

    /// Stores a preset in place of the first with its id, or adds it (up to
    /// 100000).  Refused, with nothing changed, for invalid texts or tags,
    /// or tags that repeat ignoring ASCII case.
    #[verifier::loop_isolation(false)]
    pub fn upsert(&mut self, preset: PluginPreset) -> (r: bool)
        ensures
            ({
                let ps = old(self).view_presets();
                let pv = preset_view(preset);
                let i = find_preset(ps, pv.id);
                let ok = preset_fields_ok(pv) && tags_distinct(pv.tags) && (i >= 0 || ps.len() < 100_000);
                &&& r == ok
                &&& ok && i >= 0 ==> final(self).view_presets() == ps.update(i, pv)
                &&& ok && i < 0 ==> final(self).view_presets() == ps.push(pv)
                &&& !ok ==> final(self).view_presets() == ps
            }),
    {
        let ghost ps = self.view_presets();
        let ghost pv = preset_view(preset);
        if !fields_valid(&preset) {
            return false;
        }
        let mut i: usize = 0;
        while i < preset.tags.len()
            invariant
                i <= preset.tags.len(),
                pv == preset_view(preset),
                forall|a: int, b: int| 0 <= b < a < i ==> !eq_ignore_case(#[trigger] pv.tags[b], #[trigger] pv.tags[a]),
            decreases preset.tags.len() - i,
        {
            let mut j: usize = 0;
            while j < i
                invariant
                    j <= i < preset.tags.len(),
                    pv == preset_view(preset),
                    forall|b: int| 0 <= b < j ==> !eq_ignore_case(#[trigger] pv.tags[b], pv.tags[i as int]),
                decreases i - j,
            {
                proof {
                    assert(pv.tags[j as int] == preset.tags@[j as int]@);
                    assert(pv.tags[i as int] == preset.tags@[i as int]@);
                }
                if eq_ignore_ascii_case(preset.tags[j].as_str(), preset.tags[i].as_str()) {
                    proof {
                        assert(eq_ignore_case(pv.tags[j as int], pv.tags[i as int]));
                        assert(!tags_distinct(pv.tags));
                    }
                    return false;
                }
                j += 1;
            }
            i += 1;
        }
        let mut k: usize = 0;
        while k < self.presets.len()
            invariant
                k <= self.presets.len(),
                ps == self.view_presets(),
                pv == preset_view(preset),
                forall|j: int| 0 <= j < k ==> #[trigger] ps[j].id != pv.id,
            decreases self.presets.len() - k,
        {
            proof {
                assert(ps[k as int].id == self.presets@[k as int].id@);
            }
            if str_eq(self.presets[k].id.as_str(), preset.id.as_str()) {
                proof {
                    assert(tags_distinct(pv.tags));
                }
                self.presets.set(k, preset);
                proof {
                    let f = find_preset(ps, pv.id);
                    assert(0 <= k < ps.len() && ps[k as int].id == pv.id);
                    if f < k {
                        assert(ps[f].id != pv.id);
                    }
                    if f > k {
                        assert(ps[k as int].id != pv.id);
                    }
                    assert(self.view_presets() =~= ps.update(k as int, pv));
                }
                return true;
            }
            k += 1;
        }
        proof {
            assert(tags_distinct(pv.tags));
            assert(!exists|j: int| 0 <= j < ps.len() && #[trigger] ps[j].id == pv.id);
        }
        if self.presets.len() >= 100_000 {
            return false;
        }
        self.presets.push(preset);
        proof {
            assert(self.view_presets() =~= ps.push(pv));
        }
        true
    }

    /// The presets that match, favorites first, then by lowercased name,
    /// then by id; presets that tie keep their order.
    #[verifier::loop_isolation(false)]
    pub fn search(&self, plugin_id: Option<&str>, query: &str, favorites_only: bool, compatible_only: bool) -> (r: Vec<PluginPreset>)
        ensures
            ({
                let plugin = match plugin_id {
                    Some(id) => Some(id@),
                    None => None,
                };
                let hits = search_hits(self.view_presets(), plugin, ascii_lower(spec_trim(query@)), favorites_only, compatible_only);
                sorted_hits(presets_view(r@), hits)
            }),
    {
        let ghost plugin = match plugin_id {
            Some(id) => Some(id@),
            None => None,
        };
        let qt = trim(query);
        let qc = chars_of(qt.as_str());
        let q = lower_chars(qc.as_slice());
        let ghost pred = |p: PresetView| matches(p, plugin, q@, favorites_only, compatible_only);
        let ghost ps = self.view_presets();
        let mut hits: Vec<PluginPreset> = Vec::new();
        let mut i: usize = 0;
        while i < self.presets.len()
            invariant
                i <= self.presets.len(),
                ps == self.view_presets(),
                pred == (|p: PresetView| matches(p, plugin, q@, favorites_only, compatible_only)),
                plugin == match plugin_id {
                    Some(id) => Some(id@),
                    None => None,
                },
                presets_view(hits@) == ps.take(i as int).filter(pred),
            decreases self.presets.len() - i,
        {
            proof {
                assert(ps.take(i + 1) =~= ps.take(i as int).push(ps[i as int]));
                ps.take(i as int).lemma_filter_push(ps[i as int], pred);
            }
            if preset_matches(&self.presets[i], plugin_id, &q, favorites_only, compatible_only) {
                let ghost before = hits@;
                hits.push(copy_preset(&self.presets[i]));
                proof {
                    assert(presets_view(hits@) =~= presets_view(before).push(ps[i as int]));
                }
            }
            i += 1;
        }
        proof {
            assert(ps.take(i as int) =~= ps);
        }
        let n = hits.len();
        let ghost hv = presets_view(hits@);
        let lt = |a: usize, b: usize| -> (c: bool)
            requires
                a < n && b < n,
            ensures
                c == preset_before(preset_view(hits@[a as int]), preset_view(hits@[b as int])),
            {
                let (x, y) = (&hits[a], &hits[b]);
                if x.favorite != y.favorite {
                    x.favorite
                } else {
                    let xn = to_ascii_lower(x.name.as_str());
                    let yn = to_ascii_lower(y.name.as_str());
                    str_lt(xn.as_str(), yn.as_str()) || (str_eq(xn.as_str(), yn.as_str()) && str_lt(
                        x.id.as_str(),
                        y.id.as_str(),
                    ))
                }
            };
        proof {
            lemma_preset_order(hv);
        }
        let p = stable_order(n, &lt, Ghost(by_preset_order(hv)));
        let mut r: Vec<PluginPreset> = Vec::new();
        let mut x: usize = 0;
        while x < n
            invariant
                x <= n,
                n == hits.len(),
                hv == presets_view(hits@),
                is_perm(p@, n as int),
                r@.len() == x,
                forall|y: int| 0 <= y < x ==> #[trigger] preset_view(r@[y]) == hv[p@[y] as int],
            decreases n - x,
        {
            r.push(copy_preset(&hits[p[x]]));
            x += 1;
        }
        proof {
            assert(q@ == ascii_lower(spec_trim(query@)));
            assert(pred =~= (|p: PresetView| matches(p, plugin, q@, favorites_only, compatible_only)));
            assert(hv == search_hits(ps, plugin, q@, favorites_only, compatible_only));
            let pp = p@;
            assert(forall|y: int| 0 <= y < n ==> #[trigger] presets_view(r@)[y] == hv[pp[y] as int]);
            assert(presets_view(r@).len() == hv.len());
            assert(is_perm(pp, hv.len() as int));
            assert(stably_sorted(pp, by_preset_order(hv)));
            let hits = search_hits(self.view_presets(), plugin, ascii_lower(spec_trim(query@)), favorites_only, compatible_only);
            assert(hits == hv);
            assert(is_perm(pp, hits.len() as int));
            assert(forall|x: int| 0 <= x < hits.len() ==> #[trigger] presets_view(r@)[x] == hits[pp[x] as int]);
            assert(sorted_hits(presets_view(r@), hits));
        }
        r
    }

    /// Drops every preset with the id; tells whether any was dropped.
    pub fn remove(&mut self, id: &str) -> (r: bool)
        ensures
            final(self).view_presets() == old(self).view_presets().filter(|p: PresetView| p.id != id@),
            r == (final(self).view_presets().len() != old(self).view_presets().len()),
    {
        let ghost ps = self.view_presets();
        let ghost keep = |p: PresetView| p.id != id@;
        let mut kept: Vec<PluginPreset> = Vec::new();
        let mut i: usize = 0;
        while i < self.presets.len()
            invariant
                i <= self.presets.len(),
                ps == self.view_presets(),
                keep == (|p: PresetView| p.id != id@),
                presets_view(kept@) == ps.take(i as int).filter(keep),
            decreases self.presets.len() - i,
        {
            proof {
                assert(ps.take(i + 1) =~= ps.take(i as int).push(ps[i as int]));
                ps.take(i as int).lemma_filter_push(ps[i as int], keep);
                assert(ps[i as int].id == self.presets@[i as int].id@);
            }
            if !str_eq(self.presets[i].id.as_str(), id) {
                let ghost before = kept@;
                kept.push(copy_preset(&self.presets[i]));
                proof {
                    assert(presets_view(kept@) =~= presets_view(before).push(ps[i as int]));
                }
            }
            i += 1;
        }
        proof {
            assert(ps.take(i as int) =~= ps);
            assert(keep =~= (|p: PresetView| p.id != id@));
        }
        let before = self.presets.len();
        self.presets = kept;
        before != self.presets.len()
    }

    /// At most 100000 presets with valid texts and tags and distinct ids.
    pub fn validate(&self) -> (r: bool)
        ensures
            r == (self.view_presets().len() <= 100_000 && (forall|i: int|
                0 <= i < self.view_presets().len() ==> #[trigger] preset_fields_ok(self.view_presets()[i]))
                && forall|i: int, j: int|
                0 <= j < i < self.view_presets().len() ==> #[trigger] self.view_presets()[j].id != #[trigger] self.view_presets()[i].id),
    {
        let ghost ps = self.view_presets();
        if self.presets.len() > 100_000 {
            return false;
        }
        let mut i: usize = 0;
        while i < self.presets.len()
            invariant
                i <= self.presets.len(),
                ps == self.view_presets(),
                forall|a: int| 0 <= a < i ==> #[trigger] preset_fields_ok(ps[a]),
                forall|a: int, b: int| 0 <= b < a < i ==> #[trigger] ps[b].id != #[trigger] ps[a].id,
            decreases self.presets.len() - i,
        {
            proof {
                assert(ps[i as int] == preset_view(self.presets@[i as int]));
            }
            if !fields_valid(&self.presets[i]) {
                return false;
            }
            let mut j: usize = 0;
            while j < i
                invariant
                    j <= i < self.presets.len(),
                    ps == self.view_presets(),
                    forall|b: int| 0 <= b < j ==> #[trigger] ps[b].id != ps[i as int].id,
                decreases i - j,
            {
                proof {
                    assert(ps[j as int].id == self.presets@[j as int].id@);
                    assert(ps[i as int].id == self.presets@[i as int].id@);
                }
                if str_eq(self.presets[j].id.as_str(), self.presets[i].id.as_str()) {
                    return false;
                }
                j += 1;
            }
            i += 1;
        }
        true
    }
}

impl Default for PluginPresetBrowser {
    fn default() -> (r: Self)
        ensures
            r.presets@.len() == 0,
    {
        PluginPresetBrowser { presets: Vec::new() }
    }
}

} // verus!
