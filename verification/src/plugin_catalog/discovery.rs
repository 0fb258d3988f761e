//! Discovery decisions of the plug-in catalog: which bundle formats are
//! plug-ins, the catalog entry of a scanned binary, one entry per catalog
//! id, and alias resolution.  Walking the plug-in folders and hashing the
//! binaries happen at the edge.
use vstd::prelude::*;
use vstd::utf8::encode_utf8;
use crate::digest::{hex_bytes, sha256_hex, sha256_of};
use crate::sorting::{is_perm, lemma_stable_sort_unique, lemma_strict_weak_agree, stable_order, stably_sorted};
use crate::keyed::{
    key_seq, key_slot, lemma_text_order, lemma_seq_lt_irrefl, lemma_seq_lt_total, lemma_seq_lt_trans, lemma_sorted_insert,
    strictly_sorted, text_views,
};
use crate::plugin_catalog::identity::{
    content_fingerprint, fnv1a, hex16, is_ascii_alnum, normalized, normalized_key, InstalledPlugin,
};
use crate::text::{
    ascii_lower, chars_of, chars_text, lower_char, first_index, first_pos, lemma_pos_of, pos_of, copy_str, push_str, seq_lt, str_eq, str_lt, string_push, to_ascii_lower,
};

verus! {

/// Which plug-in formats the sandbox host worker can open.
#[derive(Clone, Copy, Debug)]
pub struct WorkerCapabilities {
    pub clap: bool,
    pub au: bool,
    pub vst3: bool,
}

/// An installed plug-in as plain values.
pub struct PluginView {
    pub id: Seq<char>,
    pub name: Seq<char>,
    pub format: Seq<char>,
    pub path: Seq<char>,
    pub installed: bool,
    pub sandboxed: bool,
    pub capability: Seq<char>,
    pub binary_hash: Seq<char>,
    pub binary_bytes: u64,
    pub modified_unix_seconds: u64,
    pub quarantined: bool,
    pub tags: Seq<Seq<char>>,
    pub favorite: bool,
}

pub open spec fn plugin_view(p: InstalledPlugin) -> PluginView {
    PluginView {
        id: p.id@,
        name: p.name@,
        format: p.format@,
        path: p.path@,
        installed: p.installed,
        sandboxed: p.sandboxed,
        capability: p.capability@,
        binary_hash: p.binary_hash@,
        binary_bytes: p.binary_bytes,
        modified_unix_seconds: p.modified_unix_seconds,
        quarantined: p.quarantined,
        tags: text_views(p.tags@),
        favorite: p.favorite,
    }
}

pub open spec fn plugins_view(ps: Seq<InstalledPlugin>) -> Seq<PluginView> {
    ps.map_values(|p: InstalledPlugin| plugin_view(p))
}

/// The plug-in format of a bundle extension, ignoring ASCII case.
pub open spec fn format_of(ext: Seq<char>) -> Option<Seq<char>> {
    let e = ascii_lower(ext);
    if e == "clap"@ {
        Some("clap"@)
    } else if e == "vst3"@ {
        Some("vst3"@)
    } else if e == "component"@ {
        Some("au"@)
    } else {
        None
    }
}

/// The plug-in format of a bundle extension: CLAP, VST3 or AU
/// (`.component`).
pub fn format_for_extension(ext: &str) -> (r: Option<&'static str>)
    ensures
        match r {
            Some(f) => format_of(ext@) == Some(f@),
            None => format_of(ext@) is None,
        },
{
    let e = to_ascii_lower(ext);
    if str_eq(e.as_str(), "clap") {
        Some("clap")
    } else if str_eq(e.as_str(), "vst3") {
        Some("vst3")
    } else if str_eq(e.as_str(), "component") {
        Some("au")
    } else {
        None
    }
}

/// The capability shown for a scanned plug-in.
pub open spec fn capability_text(format: Seq<char>, quarantined: bool, caps: WorkerCapabilities) -> Seq<char> {
    if quarantined {
        "quarantined"@
    } else if format == "clap"@ && caps.clap {
        "sandbox-ready"@
    } else if format == "vst3"@ && caps.vst3 {
        "vst3-sandbox-ready"@
    } else if format == "vst3"@ {
        "vst3-sdk-required"@
    } else if format == "au"@ && caps.au {
        "au-sandbox-ready"@
    } else if format == "au"@ {
        "au-worker-unavailable"@
    } else {
        "worker-unavailable"@
    }
}

/// The catalog id of a binary: the alias key of its name, its format and
/// the fingerprint of its lowercased path, joined by dots.
pub open spec fn catalog_id(stem: Seq<char>, format: Seq<char>, path: Seq<char>) -> Seq<char> {
    normalized_key(stem) + "."@ + format + "."@ + hex16(fnv1a(encode_utf8(ascii_lower(path))))
}

proof fn lemma_key_has_no_dot(s: Seq<char>, i: int)
    requires
        0 <= i < normalized_key(s).len(),
    ensures
        normalized_key(s)[i] != '.',
{
    let f = s.filter(|c: char| is_ascii_alnum(c));
    assert(normalized_key(s).len() == f.len());
    s.lemma_filter_pred(|c: char| is_ascii_alnum(c), i);
    assert(is_ascii_alnum(f[i]));
    assert(normalized_key(s)[i] == lower_char(f[i]));
}

/// Every format of a plug-in stays selectable: binaries in two different
/// formats (neither with a dot in it) never share a catalog id, whatever
/// their names and paths.
pub proof fn lemma_formats_keep_ids_apart(
    stem1: Seq<char>,
    format1: Seq<char>,
    path1: Seq<char>,
    stem2: Seq<char>,
    format2: Seq<char>,
    path2: Seq<char>,
)
    requires
        format1 != format2,
        !format1.contains('.'),
        !format2.contains('.'),
    ensures
        catalog_id(stem1, format1, path1) != catalog_id(stem2, format2, path2),
{
    reveal_strlit(".");
    let k1 = normalized_key(stem1);
    let k2 = normalized_key(stem2);
    let a = catalog_id(stem1, format1, path1);
    let b = catalog_id(stem2, format2, path2);
    if a == b {
        if k1.len() < k2.len() {
            lemma_key_has_no_dot(stem2, k1.len() as int);
            assert(a[k1.len() as int] == '.');
            assert(b[k1.len() as int] == k2[k1.len() as int]);
        } else if k2.len() < k1.len() {
            lemma_key_has_no_dot(stem1, k2.len() as int);
            assert(b[k2.len() as int] == '.');
            assert(a[k2.len() as int] == k1[k2.len() as int]);
        } else {
            let n = k1.len() as int;
            if format1.len() < format2.len() {
                let j = n + 1 + format1.len();
                assert(a[j] == '.');
                assert(b[j] == format2[format1.len() as int]);
                assert(format2.contains(format2[format1.len() as int]));
            } else if format2.len() < format1.len() {
                let j = n + 1 + format2.len();
                assert(b[j] == '.');
                assert(a[j] == format1[format2.len() as int]);
                assert(format1.contains(format1[format2.len() as int]));
            } else {
                assert forall|j: int| 0 <= j < format1.len() implies format1[j] == format2[j] by {
                    assert(a[n + 1 + j] == format1[j]);
                    assert(b[n + 1 + j] == format2[j]);
                }
                assert(format1 =~= format2);
            }
        }
    }
}

/// The catalog entry of a scanned binary: none for an unreadable binary
/// or a name without letters or digits; otherwise its id joins the alias
/// key, the format and the fingerprint of the lowercased path, so every
/// format of a plug-in stays selectable.
pub open spec fn entry_of(
    path: Seq<char>,
    stem: Seq<char>,
    format: Seq<char>,
    hash: Seq<char>,
    bytes: u64,
    modified: u64,
    quarantined: bool,
    caps: WorkerCapabilities,
) -> Option<PluginView> {
    let key = normalized_key(stem);
    if bytes == 0 || hash.len() == 0 || key.len() == 0 {
        None
    } else {
        Some(
            PluginView {
                id: catalog_id(stem, format, path),
                name: stem,
                format,
                path,
                installed: true,
                sandboxed: if format == "clap"@ {
                    caps.clap
                } else if format == "vst3"@ {
                    caps.vst3
                } else {
                    caps.au
                },
                capability: capability_text(format, quarantined, caps),
                binary_hash: hash,
                binary_bytes: bytes,
                modified_unix_seconds: modified,
                quarantined,
                tags: seq![format],
                favorite: false,
            },
        )
    }
}

/// The catalog entry of one scanned binary (see `entry_of`).
pub fn catalog_entry(
    path: &str,
    stem: &str,
    format: &str,
    binary_hash: &str,
    binary_bytes: u64,
    modified_unix_seconds: u64,
    quarantined: bool,
    caps: WorkerCapabilities,
) -> (r: Option<InstalledPlugin>)
    ensures
        match r {
            Some(p) => entry_of(path@, stem@, format@, binary_hash@, binary_bytes, modified_unix_seconds, quarantined, caps)
                == Some(plugin_view(p)),
            None => entry_of(path@, stem@, format@, binary_hash@, binary_bytes, modified_unix_seconds, quarantined, caps) is None,
        },
{
    let key = normalized(stem);
    if binary_bytes == 0 || binary_hash.unicode_len() == 0 || key.as_str().unicode_len() == 0 {
        return None;
    }
    let path_key = to_ascii_lower(path);
    let mut id = key;
    push_str(&mut id, ".");
    push_str(&mut id, format);
    push_str(&mut id, ".");
    let fingerprint = content_fingerprint(path_key.as_str());
    push_str(&mut id, fingerprint.as_str());
    let is_clap = str_eq(format, "clap");
    let is_vst3 = str_eq(format, "vst3");
    let is_au = str_eq(format, "au");
    let capability = if quarantined {
        "quarantined"
    } else if is_clap && caps.clap {
        "sandbox-ready"
    } else if is_vst3 && caps.vst3 {
        "vst3-sandbox-ready"
    } else if is_vst3 {
        "vst3-sdk-required"
    } else if is_au && caps.au {
        "au-sandbox-ready"
    } else if is_au {
        "au-worker-unavailable"
    } else {
        "worker-unavailable"
    };
    let p = InstalledPlugin {
        id,
        name: copy_str(stem),
        format: copy_str(format),
        path: copy_str(path),
        installed: true,
        sandboxed: if is_clap {
            caps.clap
        } else if is_vst3 {
            caps.vst3
        } else {
            caps.au
        },
        capability: copy_str(capability),
        binary_hash: copy_str(binary_hash),
        binary_bytes,
        modified_unix_seconds,
        quarantined,
        tags: vec![copy_str(format)],
        favorite: false,
    };
    proof {
        assert(text_views(p.tags@) =~= seq![format@]);
    }
    Some(p)
}

pub(crate) fn copy_plugin(p: &InstalledPlugin) -> (r: InstalledPlugin)
    ensures
        plugin_view(r) == plugin_view(*p),
{
    let mut tags: Vec<String> = Vec::new();
    let mut i: usize = 0;
    while i < p.tags.len()
        invariant
            i <= p.tags@.len(),
            text_views(tags@) == text_views(p.tags@).take(i as int),
        decreases p.tags.len() - i,
    {
        let ghost before = tags@;
        let c = copy_str(p.tags[i].as_str());
        tags.push(c);
        proof {
            assert(text_views(tags@) =~= text_views(before).push(c@));
            assert(text_views(p.tags@).take(i + 1) =~= text_views(p.tags@).take(i as int).push(p.tags@[i as int]@));
        }
        i += 1;
    }
    proof {
        assert(text_views(p.tags@).take(i as int) =~= text_views(p.tags@));
    }
    InstalledPlugin {
        id: copy_str(p.id.as_str()),
        name: copy_str(p.name.as_str()),
        format: copy_str(p.format.as_str()),
        path: copy_str(p.path.as_str()),
        installed: p.installed,
        sandboxed: p.sandboxed,
        capability: copy_str(p.capability.as_str()),
        binary_hash: copy_str(p.binary_hash.as_str()),
        binary_bytes: p.binary_bytes,
        modified_unix_seconds: p.modified_unix_seconds,
        quarantined: p.quarantined,
        tags,
        favorite: p.favorite,
    }
}

/// The ids of a list of plug-ins.
pub open spec fn plugin_ids(ps: Seq<InstalledPlugin>) -> Seq<Seq<char>> {
    ps.map_values(|p: InstalledPlugin| p.id@)
}

/// `k` is the first candidate whose id is `id`.
pub open spec fn first_at(ps: Seq<PluginView>, id: Seq<char>, k: int) -> bool {
    &&& 0 <= k < ps.len()
    &&& ps[k].id == id
    &&& forall|x: int| 0 <= x < k ==> #[trigger] ps[x].id != id
}

/// The first candidate whose id is `id`, where there is one.
pub open spec fn first_with(ps: Seq<PluginView>, id: Seq<char>) -> int {
    choose|k: int| first_at(ps, id, k)
}

proof fn lemma_first_with(ps: Seq<PluginView>, id: Seq<char>, k: int)
    requires
        first_at(ps, id, k),
    ensures
        first_with(ps, id) == k,
{
    let c = first_with(ps, id);
    assert(first_at(ps, id, c));
    if c < k {
        assert(ps[c].id != id);
    }
    if k < c {
        assert(ps[k].id != id);
    }
}

/// Each entry names the first candidate of its id, one before `j`.
pub open spec fn firsts_before(cv: Seq<PluginView>, es: Seq<(String, usize)>, j: int) -> bool {
    forall|i: int| 0 <= i < es.len() ==> #[trigger] first_at(cv, es[i].0@, es[i].1 as int) && es[i].1 < j
}

/// One entry per catalog id, as a map keyed by id keeps them: the first
/// candidate of each id, in ascending id order.
pub fn catalog_by_id(candidates: &Vec<InstalledPlugin>) -> (r: Vec<InstalledPlugin>)
    ensures
        strictly_sorted(plugin_ids(r@)),
        forall|i: int|
            0 <= i < r@.len() ==> first_at(
                plugins_view(candidates@),
                #[trigger] r@[i].id@,
                first_with(plugins_view(candidates@), r@[i].id@),
            ) && plugin_view(r@[i]) == plugins_view(candidates@)[first_with(plugins_view(candidates@), r@[i].id@)],
        forall|k: int| 0 <= k < candidates@.len() ==> plugin_ids(r@).contains(#[trigger] candidates@[k].id@),
{
    let ghost cv = plugins_view(candidates@);
    let mut es: Vec<(String, usize)> = Vec::new();
    let mut j: usize = 0;
    while j < candidates.len()
        invariant
            j <= candidates@.len(),
            cv == plugins_view(candidates@),
            strictly_sorted(key_seq(es@)),
            firsts_before(cv, es@, j as int),
            forall|k: int| 0 <= k < j ==> key_seq(es@).contains(#[trigger] cv[k].id),
        decreases candidates.len() - j,
    {
        let id = candidates[j].id.as_str();
        proof {
            assert(cv[j as int].id == id@);
        }
        let (found, pos) = key_slot(&es, id);
        if !found {
            let ghost old_es = es@;
            let ghost ks = key_seq(old_es);
            proof {
                assert forall|x: int| 0 <= x < j implies #[trigger] cv[x].id != id@ by {
                    if cv[x].id == id@ {
                        assert(ks.contains(cv[x].id));
                    }
                }
                assert(first_at(cv, id@, j as int));
                lemma_sorted_insert(ks, pos as int, id@);
            }
            let key = copy_str(id);
            es.insert(pos, (key, j));
            proof {
                assert(es@ == old_es.insert(pos as int, (key, j)));
                assert(key_seq(es@) =~= ks.insert(pos as int, id@));
                assert forall|i: int| 0 <= i < es@.len() implies #[trigger] first_at(cv, es@[i].0@, es@[i].1 as int)
                    && es@[i].1 < j + 1 by {
                    if i < pos {
                        assert(es@[i] == old_es[i]);
                        assert(first_at(cv, old_es[i].0@, old_es[i].1 as int));
                        assert(old_es[i].1 < j);
                    } else if i > pos {
                        assert(es@[i] == old_es[i - 1]);
                        assert(first_at(cv, old_es[i - 1].0@, old_es[i - 1].1 as int));
                        assert(old_es[i - 1].1 < j);
                    } else {
                        assert(es@[i].0@ == id@ && es@[i].1 == j);
                    }
                }
                assert forall|k: int| 0 <= k < j + 1 implies key_seq(es@).contains(#[trigger] cv[k].id) by {
                    if k < j {
                        let x = choose|x: int| 0 <= x < ks.len() && ks[x] == cv[k].id;
                        if x < pos {
                            assert(key_seq(es@)[x] == ks[x]);
                        } else {
                            assert(key_seq(es@)[x + 1] == ks[x]);
                        }
                    } else {
                        assert(key_seq(es@)[pos as int] == id@);
                    }
                }
            }
        } else {
            proof {
                assert(key_seq(es@)[pos as int] == id@);
                assert forall|i: int| 0 <= i < es@.len() implies #[trigger] first_at(cv, es@[i].0@, es@[i].1 as int)
                    && es@[i].1 < j + 1 by {}
            }
        }
        assert(firsts_before(cv, es@, j + 1));
        j += 1;
    }
    let mut r: Vec<InstalledPlugin> = Vec::new();
    let mut i: usize = 0;
    while i < es.len()
        invariant
            i <= es@.len(),
            cv == plugins_view(candidates@),
            strictly_sorted(key_seq(es@)),
            forall|x: int| 0 <= x < es@.len() ==> #[trigger] first_at(cv, es@[x].0@, es@[x].1 as int),
            r@.len() == i,
            forall|x: int| 0 <= x < i ==> plugin_view(#[trigger] r@[x]) == cv[es@[x].1 as int] && r@[x].id@ == es@[x].0@,
        decreases es.len() - i,
    {
        proof {
            assert(first_at(cv, es@[i as int].0@, es@[i as int].1 as int));
        }
        let p = copy_plugin(&candidates[es[i].1]);
        r.push(p);
        i += 1;
    }
    proof {
        assert(plugin_ids(r@) =~= key_seq(es@));
        assert forall|k: int| 0 <= k < candidates@.len() implies plugin_ids(r@).contains(#[trigger] candidates@[k].id@) by {
            assert(cv[k] == plugin_view(candidates@[k]));
            assert(key_seq(es@).contains(cv[k].id));
        }
        assert forall|x: int| 0 <= x < r@.len() implies first_at(
            plugins_view(candidates@),
            #[trigger] r@[x].id@,
            first_with(plugins_view(candidates@), r@[x].id@),
        ) && plugin_view(r@[x]) == plugins_view(candidates@)[first_with(plugins_view(candidates@), r@[x].id@)] by {
            assert(first_at(cv, es@[x].0@, es@[x].1 as int));
            lemma_first_with(cv, r@[x].id@, es@[x].1 as int);
        }
    }
    r
}

/// The name and the requested format of an alias: it splits at its first
/// `@`, else at its first `:`, and the format ignores ASCII case.
pub open spec fn alias_parts(a: Seq<char>) -> (Seq<char>, Option<Seq<char>>) {
    if a.contains('@') {
        (a.take(pos_of(a, '@')), Some(ascii_lower(a.skip(pos_of(a, '@') + 1))))
    } else if a.contains(':') {
        (a.take(pos_of(a, ':')), Some(ascii_lower(a.skip(pos_of(a, ':') + 1))))
    } else {
        (a, None)
    }
}

/// Splits an alias into its name and requested format (see `alias_parts`).
pub fn split_alias(alias: &str) -> (r: (String, Option<String>))
    ensures
        r.0@ == alias_parts(alias@).0,
        match r.1 {
            Some(f) => alias_parts(alias@).1 == Some(f@),
            None => alias_parts(alias@).1 is None,
        },
{
    let cs = chars_of(alias);
    let at = first_index(&cs, '@');
    let colon = first_index(&cs, ':');
    let cut = if at.is_some() {
        at
    } else {
        colon
    };
    match cut {
        Some(i) => {
            proof {
                if at is Some {
                    assert(first_pos(cs@, '@', i as int));
                    lemma_pos_of(cs@, '@', i as int);
                } else {
                    assert(first_pos(cs@, ':', i as int));
                    lemma_pos_of(cs@, ':', i as int);
                }
                assert(i < cs@.len());
            }
            let name = chars_text(&cs, 0, i);
            let n = cs.len();
            let rest = chars_text(&cs, i + 1, n);
            let format = to_ascii_lower(rest.as_str());
            proof {
                assert(cs@.take(i as int) =~= cs@.subrange(0, i as int));
                assert(cs@.skip(i + 1) =~= cs@.subrange(i + 1, cs@.len() as int));
            }
            (name, Some(format))
        },
        None => (copy_str(alias), None),
    }
}

/// The preference among formats when a name is installed in several:
/// CLAP, then VST3, then AU, then the rest.
pub open spec fn format_rank(f: Seq<char>) -> int {
    if f == "clap"@ {
        0
    } else if f == "vst3"@ {
        1
    } else if f == "au"@ {
        2
    } else {
        3
    }
}

fn rank_of(f: &str) -> (r: u8)
    ensures
        r == format_rank(f@),
{
    if str_eq(f, "clap") {
        0
    } else if str_eq(f, "vst3") {
        1
    } else if str_eq(f, "au") {
        2
    } else {
        3
    }
}

/// `p` comes before `q` when a name matches both: by format preference,
/// then by lowercased path.
pub open spec fn ranks_before(p: PluginView, q: PluginView) -> bool {
    ||| format_rank(p.format) < format_rank(q.format)
    ||| format_rank(p.format) == format_rank(q.format) && seq_lt(ascii_lower(p.path), ascii_lower(q.path))
}

proof fn lemma_before_irrefl(p: PluginView)
    ensures
        !ranks_before(p, p),
{
    lemma_seq_lt_irrefl(ascii_lower(p.path));
}

proof fn lemma_before_trans(a: PluginView, b: PluginView, c: PluginView)
    requires
        ranks_before(a, b),
        ranks_before(b, c),
    ensures
        ranks_before(a, c),
{
    if format_rank(a.format) == format_rank(b.format) && format_rank(b.format) == format_rank(c.format) {
        lemma_seq_lt_trans(ascii_lower(a.path), ascii_lower(b.path), ascii_lower(c.path));
    }
}

proof fn lemma_before_split(a: PluginView, b: PluginView, c: PluginView)
    requires
        ranks_before(a, c),
    ensures
        ranks_before(a, b) || ranks_before(b, c),
{
    let (la, lb, lc) = (ascii_lower(a.path), ascii_lower(b.path), ascii_lower(c.path));
    if format_rank(a.format) == format_rank(c.format) && format_rank(b.format) == format_rank(a.format) {
        lemma_seq_lt_total(la, lb);
        if seq_lt(lb, la) {
            lemma_seq_lt_trans(lb, la, lc);
        }
    }
}

fn plugin_before(p: &InstalledPlugin, q: &InstalledPlugin) -> (r: bool)
    ensures
        r == ranks_before(plugin_view(*p), plugin_view(*q)),
{
    let rp = rank_of(p.format.as_str());
    let rq = rank_of(q.format.as_str());
    if rp != rq {
        return rp < rq;
    }
    let lp = to_ascii_lower(p.path.as_str());
    let lq = to_ascii_lower(q.path.as_str());
    str_lt(lp.as_str(), lq.as_str())
}

/// The plug-in is asked for by its catalog id, exactly or by alias key.
pub open spec fn id_hit(p: PluginView, alias: Seq<char>) -> bool {
    p.id == alias || normalized_key(p.id) == normalized_key(alias)
}

/// The plug-in's name has the alias key, in the requested format if any.
pub open spec fn name_hit(p: PluginView, key: Seq<char>, format: Option<Seq<char>>) -> bool {
    &&& normalized_key(p.name) == key
    &&& match format {
        Some(f) => f == p.format,
        None => true,
    }
}

/// `k` is the first plug-in asked for by id.
pub open spec fn first_id_hit(ps: Seq<PluginView>, alias: Seq<char>, k: int) -> bool {
    &&& 0 <= k < ps.len()
    &&& id_hit(ps[k], alias)
    &&& forall|j: int| 0 <= j < k ==> !id_hit(#[trigger] ps[j], alias)
}

/// `k` is the preferred plug-in among those whose name matches: none
/// comes before it, and none before it in the list ranks level with it.
pub open spec fn best_name_hit(ps: Seq<PluginView>, key: Seq<char>, format: Option<Seq<char>>, k: int) -> bool {
    &&& 0 <= k < ps.len()
    &&& name_hit(ps[k], key, format)
    &&& forall|i: int|
        0 <= i < ps.len() && #[trigger] name_hit(ps[i], key, format) ==> !ranks_before(ps[i], ps[k]) && (i < k
            ==> ranks_before(ps[k], ps[i]))
}

/// What an alias resolves to among the plug-ins: the first one asked for
/// by id; else the preferred one whose name matches; else nothing.
pub open spec fn resolved(ps: Seq<PluginView>, alias: Seq<char>) -> Option<PluginView> {
    let key = normalized_key(alias_parts(alias).0);
    let format = alias_parts(alias).1;
    if exists|k: int| first_id_hit(ps, alias, k) {
        Some(ps[choose|k: int| first_id_hit(ps, alias, k)])
    } else if exists|k: int| best_name_hit(ps, key, format, k) {
        Some(ps[choose|k: int| best_name_hit(ps, key, format, k)])
    } else {
        None
    }
}

proof fn lemma_first_id_hit(ps: Seq<PluginView>, alias: Seq<char>, k: int)
    requires
        first_id_hit(ps, alias, k),
    ensures
        (choose|x: int| first_id_hit(ps, alias, x)) == k,
{
    let c = choose|x: int| first_id_hit(ps, alias, x);
    assert(first_id_hit(ps, alias, c));
    if c < k {
        assert(!id_hit(ps[c], alias));
    }
    if k < c {
        assert(!id_hit(ps[k], alias));
    }
}

proof fn lemma_best_name_hit(ps: Seq<PluginView>, key: Seq<char>, format: Option<Seq<char>>, k: int)
    requires
        best_name_hit(ps, key, format, k),
    ensures
        (choose|x: int| best_name_hit(ps, key, format, x)) == k,
{
    let c = choose|x: int| best_name_hit(ps, key, format, x);
    assert(best_name_hit(ps, key, format, c));
    assert(name_hit(ps[c], key, format));
    assert(name_hit(ps[k], key, format));
    if c < k {
        assert(ranks_before(ps[k], ps[c]));
    }
    if k < c {
        assert(ranks_before(ps[c], ps[k]));
    }
}

proof fn lemma_first_id_hit_exists(ps: Seq<PluginView>, alias: Seq<char>, k: int)
    requires
        0 <= k < ps.len(),
        id_hit(ps[k], alias),
    ensures
        exists|j: int| first_id_hit(ps, alias, j),
    decreases k,
{
    if exists|j: int| 0 <= j < k && id_hit(#[trigger] ps[j], alias) {
        let j = choose|j: int| 0 <= j < k && id_hit(#[trigger] ps[j], alias);
        lemma_first_id_hit_exists(ps, alias, j);
    } else {
        assert(first_id_hit(ps, alias, k));
    }
}

/// An explicit catalog id wins: when some plug-in's id is the alias, the
/// alias resolves to a plug-in asked for by id, whatever the names and
/// formats of the others.
pub proof fn lemma_catalog_id_wins(ps: Seq<PluginView>, alias: Seq<char>, k: int)
    requires
        0 <= k < ps.len(),
        ps[k].id == alias,
    ensures
        resolved(ps, alias) is Some,
        id_hit(resolved(ps, alias)->0, alias),
{
    lemma_first_id_hit_exists(ps, alias, k);
    let j = choose|j: int| first_id_hit(ps, alias, j);
    assert(first_id_hit(ps, alias, j));
}

/// The plug-in an alias resolves to among `plugins`: the first one whose
/// catalog id is the alias (exactly or by alias key); else, of those whose
/// name has the alias key and that are in the requested format, the one of
/// the preferred format and then the least lowercased path, the earliest
/// of equals.
pub fn resolve_among(alias: &str, plugins: &Vec<InstalledPlugin>) -> (r: Option<InstalledPlugin>)
    ensures
        match r {
            Some(p) => resolved(plugins_view(plugins@), alias@) == Some(plugin_view(p)),
            None => resolved(plugins_view(plugins@), alias@) is None,
        },
        r is None <==> forall|k: int|
            0 <= k < plugins@.len() ==> !id_hit(#[trigger] plugins_view(plugins@)[k], alias@) && !name_hit(
                plugins_view(plugins@)[k],
                normalized_key(alias_parts(alias@).0),
                alias_parts(alias@).1,
            ),
{
    let ghost pv = plugins_view(plugins@);
    let alias_key = normalized(alias);
    let mut i: usize = 0;
    while i < plugins.len()
        invariant
            i <= plugins@.len(),
            pv == plugins_view(plugins@),
            alias_key@ == normalized_key(alias@),
            forall|j: int| 0 <= j < i ==> !id_hit(#[trigger] pv[j], alias@),
        decreases plugins.len() - i,
    {
        let p = &plugins[i];
        proof {
            assert(pv[i as int] == plugin_view(*p));
        }
        let id_key = normalized(p.id.as_str());
        if str_eq(p.id.as_str(), alias) || str_eq(id_key.as_str(), alias_key.as_str()) {
            proof {
                assert(first_id_hit(pv, alias@, i as int));
                lemma_first_id_hit(pv, alias@, i as int);
            }
            return Some(copy_plugin(p));
        }
        i += 1;
    }
    let (name, format) = split_alias(alias);
    let key = normalized(name.as_str());
    let ghost fmt = alias_parts(alias@).1;
    let mut best: Option<usize> = None;
    let mut i: usize = 0;
    while i < plugins.len()
        invariant
            i <= plugins@.len(),
            pv == plugins_view(plugins@),
            key@ == normalized_key(alias_parts(alias@).0),
            match format {
                Some(f) => fmt == Some(f@),
                None => fmt is None,
            },
            forall|j: int| 0 <= j < plugins@.len() ==> !id_hit(#[trigger] pv[j], alias@),
            match best {
                None => forall|j: int| 0 <= j < i ==> !#[trigger] name_hit(pv[j], key@, fmt),
                Some(b) => b < i && name_hit(pv[b as int], key@, fmt) && forall|j: int|
                    0 <= j < i && #[trigger] name_hit(pv[j], key@, fmt) ==> !ranks_before(pv[j], pv[b as int]) && (j
                        < b ==> ranks_before(pv[b as int], pv[j])),
            },
        decreases plugins.len() - i,
    {
        let p = &plugins[i];
        proof {
            assert(pv[i as int] == plugin_view(*p));
        }
        let name_key = normalized(p.name.as_str());
        let format_ok = match &format {
            Some(f) => str_eq(f.as_str(), p.format.as_str()),
            None => true,
        };
        let hit = str_eq(name_key.as_str(), key.as_str()) && format_ok;
        proof {
            assert(hit == name_hit(pv[i as int], key@, fmt));
        }
        if hit {
            match best {
                None => {
                    proof {
                        lemma_before_irrefl(pv[i as int]);
                    }
                    best = Some(i);
                },
                Some(b) => {
                    if plugin_before(p, &plugins[b]) {
                        proof {
                            assert(pv[b as int] == plugin_view(plugins@[b as int]));
                            let ghost pi = pv[i as int];
                            let ghost pb = pv[b as int];
                            assert forall|j: int| 0 <= j < i + 1 && #[trigger] name_hit(pv[j], key@, fmt) implies !ranks_before(
                                pv[j],
                                pi,
                            ) && (j < i ==> ranks_before(pi, pv[j])) by {
                                if j == i {
                                    lemma_before_irrefl(pi);
                                } else {
                                    if ranks_before(pv[j], pi) {
                                        lemma_before_trans(pv[j], pi, pb);
                                    }
                                    lemma_before_split(pi, pv[j], pb);
                                }
                            }
                        }
                        best = Some(i);
                    } else {
                        proof {
                            assert(pv[b as int] == plugin_view(plugins@[b as int]));
                        }
                    }
                },
            }
        }
        i += 1;
    }
    match best {
        Some(b) => {
            proof {
                assert(best_name_hit(pv, key@, fmt, b as int));
                lemma_best_name_hit(pv, key@, fmt, b as int);
                assert(!exists|k: int| first_id_hit(pv, alias@, k));
            }
            Some(copy_plugin(&plugins[b]))
        },
        None => {
            proof {
                assert(!exists|k: int| first_id_hit(pv, alias@, k));
                assert(!exists|k: int| best_name_hit(pv, key@, fmt, k));
            }
            None
        },
    }
}

/// A plug-in built into the host.
pub open spec fn builtin_view(
    id: Seq<char>,
    name: Seq<char>,
    path: Seq<char>,
    capability: Seq<char>,
    tags: Seq<Seq<char>>,
) -> PluginView {
    PluginView {
        id,
        name,
        format: "internal"@,
        path,
        installed: true,
        sandboxed: false,
        capability,
        binary_hash: "builtin"@,
        binary_bytes: 0,
        modified_unix_seconds: 0,
        quarantined: false,
        tags,
        favorite: false,
    }
}

/// The plug-ins built into the host, which aliases resolve to before any
/// installed one.
pub open spec fn builtin_views() -> Seq<PluginView> {
    seq![
        builtin_view("aura.internal.limiter"@, "Aura Limiter"@, "Aura/Limiter"@, "native realtime dynamics"@, seq!["dynamics"@, "internal"@]),
        builtin_view("aura.internal.compressor"@, "Aura Compressor"@, "Aura/Compressor"@, "native realtime dynamics · assistant-ready"@, seq!["dynamics"@, "internal"@]),
        builtin_view("aura.internal.gate"@, "Aura Gate"@, "Aura/Gate"@, "native realtime noise gate"@, seq!["dynamics"@, "gate"@, "internal"@]),
        builtin_view("aura.internal.saturation"@, "Aura Saturation"@, "Aura/Saturation"@, "native realtime tube saturation"@, seq!["color"@, "saturation"@, "internal"@]),
        builtin_view("aura.internal.transient"@, "Aura Transient Shaper"@, "Aura/Transient"@, "native realtime transient shaping"@, seq!["dynamics"@, "transient"@, "internal"@]),
        builtin_view("aura.internal.deesser"@, "Aura De-Esser"@, "Aura/DeEsser"@, "native realtime sibilance reduction"@, seq!["dynamics"@, "de-esser"@, "internal"@]),
        builtin_view("aura.internal.delay"@, "Aura Delay"@, "Aura/Delay"@, "native realtime tempo-synced delay"@, seq!["delay"@, "time-based"@, "internal"@]),
        builtin_view("aura.internal.reverb"@, "Aura Reverb"@, "Aura/Reverb"@, "native realtime algorithmic reverb"@, seq!["reverb"@, "time-based"@, "internal"@]),
        builtin_view("aura.internal.dynamiceq"@, "Aura Dynamic EQ"@, "Aura/DynamicEQ"@, "native realtime dynamic equalization"@, seq!["eq"@, "dynamic"@, "internal"@]),
        builtin_view("aura.internal.midside"@, "Aura Mid/Side"@, "Aura/MidSide"@, "native realtime mid-side processing"@, seq!["mid-side"@, "stereo"@, "internal"@]),
        builtin_view("aura.internal.width"@, "Aura Stereo Width"@, "Aura/Width"@, "native realtime stereo width"@, seq!["stereo"@, "width"@, "internal"@]),
    ]
}

fn builtin(id: &str, name: &str, path: &str, capability: &str, tags: Vec<String>) -> (r: InstalledPlugin)
    ensures
        plugin_view(r) == builtin_view(id@, name@, path@, capability@, text_views(tags@)),
{
    InstalledPlugin {
        id: copy_str(id),
        name: copy_str(name),
        format: copy_str("internal"),
        path: copy_str(path),
        installed: true,
        sandboxed: false,
        capability: copy_str(capability),
        binary_hash: copy_str("builtin"),
        binary_bytes: 0,
        modified_unix_seconds: 0,
        quarantined: false,
        tags,
        favorite: false,
    }
}

fn texts2(a: &str, b: &str) -> (r: Vec<String>)
    ensures
        text_views(r@) == seq![a@, b@],
{
    let r = vec![copy_str(a), copy_str(b)];
    proof {
        assert(text_views(r@) =~= seq![a@, b@]);
    }
    r
}

fn texts3(a: &str, b: &str, c: &str) -> (r: Vec<String>)
    ensures
        text_views(r@) == seq![a@, b@, c@],
{
    let r = vec![copy_str(a), copy_str(b), copy_str(c)];
    proof {
        assert(text_views(r@) =~= seq![a@, b@, c@]);
    }
    r
}

/// The plug-ins built into the host (see `builtin_views`).
pub fn builtin_plugins() -> (r: Vec<InstalledPlugin>)
    ensures
        plugins_view(r@) == builtin_views(),
{
    let r = vec![
        builtin("aura.internal.limiter", "Aura Limiter", "Aura/Limiter", "native realtime dynamics", texts2("dynamics", "internal")),
        builtin("aura.internal.compressor", "Aura Compressor", "Aura/Compressor", "native realtime dynamics · assistant-ready", texts2("dynamics", "internal")),
        builtin("aura.internal.gate", "Aura Gate", "Aura/Gate", "native realtime noise gate", texts3("dynamics", "gate", "internal")),
        builtin("aura.internal.saturation", "Aura Saturation", "Aura/Saturation", "native realtime tube saturation", texts3("color", "saturation", "internal")),
        builtin("aura.internal.transient", "Aura Transient Shaper", "Aura/Transient", "native realtime transient shaping", texts3("dynamics", "transient", "internal")),
        builtin("aura.internal.deesser", "Aura De-Esser", "Aura/DeEsser", "native realtime sibilance reduction", texts3("dynamics", "de-esser", "internal")),
        builtin("aura.internal.delay", "Aura Delay", "Aura/Delay", "native realtime tempo-synced delay", texts3("delay", "time-based", "internal")),
        builtin("aura.internal.reverb", "Aura Reverb", "Aura/Reverb", "native realtime algorithmic reverb", texts3("reverb", "time-based", "internal")),
        builtin("aura.internal.dynamiceq", "Aura Dynamic EQ", "Aura/DynamicEQ", "native realtime dynamic equalization", texts3("eq", "dynamic", "internal")),
        builtin("aura.internal.midside", "Aura Mid/Side", "Aura/MidSide", "native realtime mid-side processing", texts3("mid-side", "stereo", "internal")),
        builtin("aura.internal.width", "Aura Stereo Width", "Aura/Width", "native realtime stereo width", texts3("stereo", "width", "internal")),
    ];
    proof {
        assert(plugins_view(r@) =~= builtin_views());
    }
    r
}

/// The plug-in an alias resolves to among the built-in plug-ins followed
/// by the scanned ones (see `resolve_among`).
pub fn resolve(alias: &str, scanned: &Vec<InstalledPlugin>) -> (r: Option<InstalledPlugin>)
    ensures
        match r {
            Some(p) => resolved(builtin_views() + plugins_view(scanned@), alias@) == Some(plugin_view(p)),
            None => resolved(builtin_views() + plugins_view(scanned@), alias@) is None,
        },
{
    let mut plugins = builtin_plugins();
    let ghost first = plugins_view(plugins@);
    let mut i: usize = 0;
    while i < scanned.len()
        invariant
            i <= scanned@.len(),
            first == builtin_views(),
            plugins_view(plugins@) == first + plugins_view(scanned@).take(i as int),
        decreases scanned.len() - i,
    {
        let ghost before = plugins@;
        let p = copy_plugin(&scanned[i]);
        plugins.push(p);
        proof {
            assert(plugins_view(plugins@) =~= plugins_view(before).push(plugin_view(p)));
            assert(plugins_view(scanned@).take(i + 1) =~= plugins_view(scanned@).take(i as int).push(
                plugin_view(scanned@[i as int]),
            ));
            assert(first + plugins_view(scanned@).take(i + 1) =~= (first + plugins_view(scanned@).take(
                i as int,
            )).push(plugin_view(scanned@[i as int])));
        }
        i += 1;
    }
    proof {
        assert(plugins_view(scanned@).take(i as int) =~= plugins_view(scanned@));
    }
    resolve_among(alias, &plugins)
}

/// One file of a plug-in bundle as read at the edge: its path relative to
/// the bundle, its contents where they could be read, and its modification
/// time in whole seconds since the Unix epoch where known.
pub struct BundleFile {
    pub relative: String,
    pub contents: Option<Vec<u8>>,
    pub modified_unix_seconds: Option<u64>,
}

/// The eight little-endian bytes of a number.
pub open spec fn le_u64(v: u64) -> Seq<u8> {
    Seq::new(8, |i: int| ((v >> ((8 * i) as u64)) % 256) as u8)
}

/// What one file adds to the hashed stream: its relative path, a zero
/// byte, and, where it was read, its length as eight little-endian bytes
/// and its contents.
pub open spec fn file_bytes(f: BundleFile) -> Seq<u8> {
    encode_utf8(f.relative@) + seq![0u8] + match f.contents {
        Some(c) => le_u64(c@.len() as u64) + c@,
        None => Seq::empty(),
    }
}

/// The hashed stream of the files, in order.
pub open spec fn stream_of(fs: Seq<BundleFile>) -> Seq<u8>
    decreases fs.len(),
{
    if fs.len() == 0 {
        Seq::empty()
    } else {
        stream_of(fs.drop_last()) + file_bytes(fs.last())
    }
}

/// The bytes read, summed without passing `u64::MAX`.
pub open spec fn total_of(fs: Seq<BundleFile>) -> u64
    decreases fs.len(),
{
    if fs.len() == 0 {
        0
    } else {
        let t = total_of(fs.drop_last());
        match fs.last().contents {
            Some(c) => if t + c@.len() > u64::MAX {
                u64::MAX
            } else {
                (t + c@.len()) as u64
            },
            None => t,
        }
    }
}

/// The newest known modification time (0 if none is known).
pub open spec fn newest_of(fs: Seq<BundleFile>) -> u64
    decreases fs.len(),
{
    if fs.len() == 0 {
        0
    } else {
        let n = newest_of(fs.drop_last());
        match fs.last().modified_unix_seconds {
            Some(m) => if m > n {
                m
            } else {
                n
            },
            None => n,
        }
    }
}

/// Files by relative path.
pub open spec fn by_relative(fs: Seq<BundleFile>) -> spec_fn(int, int) -> bool {
    |a: int, b: int| seq_lt(fs[a].relative@, fs[b].relative@)
}

/// The files in the order of the positions.
pub open spec fn ordered(fs: Seq<BundleFile>, p: Seq<usize>) -> Seq<BundleFile> {
    Seq::new(p.len(), |k: int| fs[p[k] as int])
}

/// The files stably sorted by relative path.
pub open spec fn sorted_files(fs: Seq<BundleFile>) -> Seq<BundleFile> {
    ordered(fs, choose|p: Seq<usize>| is_perm(p, fs.len() as int) && stably_sorted(p, by_relative(fs)))
}

/// The identity of a bundle: the SHA-256 of its files' stream in hex, the
/// bytes read and the newest modification time, the files taken by
/// relative path.
pub open spec fn bundle_identity(fs: Seq<BundleFile>) -> (Seq<char>, u64, u64) {
    let sorted = sorted_files(fs);
    (hex_bytes(sha256_of(stream_of(sorted))), total_of(sorted), newest_of(sorted))
}

fn push_bytes(out: &mut Vec<u8>, bs: &[u8])
    ensures
        final(out)@ == old(out)@ + bs@,
{
    let mut i: usize = 0;
    while i < bs.len()
        invariant
            i <= bs@.len(),
            out@ == old(out)@ + bs@.take(i as int),
        decreases bs.len() - i,
    {
        out.push(bs[i]);
        proof {
            assert(old(out)@ + bs@.take(i + 1) =~= (old(out)@ + bs@.take(i as int)).push(bs@[i as int]));
        }
        i += 1;
    }
    proof {
        assert(bs@.take(i as int) =~= bs@);
    }
}

fn push_le_u64(out: &mut Vec<u8>, v: u64)
    ensures
        final(out)@ == old(out)@ + le_u64(v),
{
    let mut k: u64 = 0;
    while k < 8
        invariant
            k <= 8,
            out@ == old(out)@ + le_u64(v).take(k as int),
        decreases 8 - k,
    {
        let b = ((v >> (8 * k)) % 256) as u8;
        out.push(b);
        proof {
            assert(le_u64(v)[k as int] == b);
            assert(old(out)@ + le_u64(v).take(k + 1) =~= (old(out)@ + le_u64(v).take(k as int)).push(b));
        }
        k += 1;
    }
    proof {
        assert(le_u64(v).take(8) =~= le_u64(v));
    }
}

/// The identity of a bundle from its files as read (see
/// `bundle_identity`).
pub fn binary_identity(files: &Vec<BundleFile>) -> (r: (String, u64, u64))
    ensures
        (r.0@, r.1, r.2) == bundle_identity(files@),
{
    let n = files.len();
    let ghost fs = files@;
    let ghost ks = fs.map_values(|f: BundleFile| f.relative@);
    let ghost rel = by_relative(fs);
    let lt = |a: usize, b: usize| -> (c: bool)
        requires
            a < n && b < n,
        ensures
            c == seq_lt(files@[a as int].relative@, files@[b as int].relative@),
        { str_lt(files[a].relative.as_str(), files[b].relative.as_str()) };
    proof {
        lemma_text_order(ks);
        assert forall|a: int, b: int| 0 <= a < n && 0 <= b < n implies #[trigger] rel(a, b) == (|x: int, y: int|
            seq_lt(ks[x], ks[y]))(a, b) by {}
        lemma_strict_weak_agree(|x: int, y: int| seq_lt(ks[x], ks[y]), rel, n as int);
    }
    let p = stable_order(n, &lt, Ghost(rel));
    let ghost sorted = ordered(fs, p@);
    let mut stream: Vec<u8> = Vec::new();
    let mut total: u64 = 0;
    let mut newest: u64 = 0;
    let mut k: usize = 0;
    while k < n
        invariant
            k <= n,
            n == files@.len(),
            fs == files@,
            is_perm(p@, n as int),
            sorted == ordered(fs, p@),
            stream@ == stream_of(sorted.take(k as int)),
            total == total_of(sorted.take(k as int)),
            newest == newest_of(sorted.take(k as int)),
        decreases n - k,
    {
        let f = &files[p[k]];
        proof {
            assert(sorted[k as int] == *f);
            assert(sorted.take(k + 1).drop_last() =~= sorted.take(k as int));
            assert(sorted.take(k + 1).last() == *f);
        }
        let ghost before = stream@;
        push_bytes(&mut stream, f.relative.as_str().as_bytes());
        stream.push(0u8);
        match &f.contents {
            Some(c) => {
                let len = c.len() as u64;
                push_le_u64(&mut stream, len);
                push_bytes(&mut stream, c.as_slice());
                total = if len > u64::MAX - total {
                    u64::MAX
                } else {
                    total + len
                };
            },
            None => {},
        }
        match f.modified_unix_seconds {
            Some(m) => {
                if m > newest {
                    newest = m;
                }
            },
            None => {},
        }
        proof {
            assert(stream@ =~= before + file_bytes(*f));
        }
        k += 1;
    }
    proof {
        assert(sorted.take(n as int) =~= sorted);
        let q = choose|q: Seq<usize>| is_perm(q, fs.len() as int) && stably_sorted(q, by_relative(fs));
        assert(is_perm(p@, fs.len() as int) && stably_sorted(p@, by_relative(fs)));
        lemma_stable_sort_unique(p@, q, n as int, rel);
    }
    let hash = sha256_hex(stream.as_slice());
    (hash, total, newest)
}

/// The content hash of a bundle from its files as read, or none when no
/// byte could be read: an absent or unreadable binary is unavailable, not
/// the hash of an empty stream.
pub fn binary_hash_for_path(files: &Vec<BundleFile>) -> (r: Option<String>)
    ensures
        match r {
            Some(h) => bundle_identity(files@).1 > 0 && h@ == bundle_identity(files@).0,
            None => bundle_identity(files@).1 == 0,
        },
{
    let (hash, bytes, _) = binary_identity(files);
    if bytes > 0 {
        Some(hash)
    } else {
        None
    }
}

/// A plug-in binary found under a scan root, as read at the edge: its
/// canonical path, file stem and format, its content identity, and whether
/// that identity is quarantined.
pub struct ScannedBinary {
    pub path: String,
    pub stem: String,
    pub extension: String,
    pub binary_hash: String,
    pub binary_bytes: u64,
    pub modified_unix_seconds: u64,
    pub quarantined: bool,
}

/// The catalog entries of the scanned binaries, in scan order, skipping
/// those whose extension names no plug-in format (see `format_of`) and
/// those that are no entry (see `entry_of`).
pub open spec fn scanned_entries(bs: Seq<ScannedBinary>, caps: WorkerCapabilities) -> Seq<PluginView>
    decreases bs.len(),
{
    if bs.len() == 0 {
        Seq::empty()
    } else {
        let b = bs.last();
        let before = scanned_entries(bs.drop_last(), caps);
        match format_of(b.extension@) {
            None => before,
            Some(f) => match entry_of(
                b.path@,
                b.stem@,
                f,
                b.binary_hash@,
                b.binary_bytes,
                b.modified_unix_seconds,
                b.quarantined,
                caps,
            ) {
                Some(v) => before.push(v),
                None => before,
            },
        }
    }
}

/// Every scanned entry is a CLAP, VST3 or AU plug-in, tagged with its
/// format.
pub proof fn lemma_scanned_formats(bs: Seq<ScannedBinary>, caps: WorkerCapabilities)
    ensures
        forall|k: int|
            0 <= k < scanned_entries(bs, caps).len() ==> {
                let e = #[trigger] scanned_entries(bs, caps)[k];
                &&& e.format == "clap"@ || e.format == "vst3"@ || e.format == "au"@
                &&& e.tags == seq![e.format]
            },
    decreases bs.len(),
{
    if bs.len() > 0 {
        lemma_scanned_formats(bs.drop_last(), caps);
        let before = scanned_entries(bs.drop_last(), caps);
        assert forall|k: int| 0 <= k < scanned_entries(bs, caps).len() implies {
            let e = #[trigger] scanned_entries(bs, caps)[k];
            &&& e.format == "clap"@ || e.format == "vst3"@ || e.format == "au"@
            &&& e.tags == seq![e.format]
        } by {
            if k < before.len() {
                assert(scanned_entries(bs, caps)[k] == before[k]);
            }
        }
    }
}

/// The installed-plug-in catalog of a scan: one entry per concrete binary
/// whose extension names a plug-in format, keyed by catalog id; where two
/// binaries share an id, the one scanned first stays.
pub fn scan(binaries: &Vec<ScannedBinary>, caps: WorkerCapabilities) -> (r: Vec<InstalledPlugin>)
    ensures
        strictly_sorted(plugin_ids(r@)),
        forall|i: int|
            0 <= i < r@.len() ==> first_at(
                scanned_entries(binaries@, caps),
                #[trigger] r@[i].id@,
                first_with(scanned_entries(binaries@, caps), r@[i].id@),
            ) && plugin_view(r@[i]) == scanned_entries(binaries@, caps)[first_with(
                scanned_entries(binaries@, caps),
                r@[i].id@,
            )],
        forall|k: int|
            0 <= k < scanned_entries(binaries@, caps).len() ==> plugin_ids(r@).contains(
                #[trigger] scanned_entries(binaries@, caps)[k].id,
            ),
        forall|i: int|
            0 <= i < r@.len() ==> {
                let f = (#[trigger] r@[i]).format@;
                &&& f == "clap"@ || f == "vst3"@ || f == "au"@
                &&& plugin_view(r@[i]).tags == seq![f]
            },
{
    let mut candidates: Vec<InstalledPlugin> = Vec::new();
    let mut i: usize = 0;
    while i < binaries.len()
        invariant
            i <= binaries@.len(),
            plugins_view(candidates@) == scanned_entries(binaries@.take(i as int), caps),
        decreases binaries.len() - i,
    {
        let b = &binaries[i];
        proof {
            assert(binaries@.take(i + 1).drop_last() =~= binaries@.take(i as int));
            assert(binaries@.take(i + 1).last() == *b);
        }
        let ghost before = candidates@;
        match format_for_extension(b.extension.as_str()) {
            None => {},
            Some(f) => match catalog_entry(
                b.path.as_str(),
                b.stem.as_str(),
                f,
                b.binary_hash.as_str(),
                b.binary_bytes,
                b.modified_unix_seconds,
                b.quarantined,
                caps,
            ) {
                Some(p) => {
                    candidates.push(p);
                    proof {
                        assert(plugins_view(candidates@) =~= plugins_view(before).push(plugin_view(p)));
                    }
                },
                None => {},
            },
        }
        i += 1;
    }
    proof {
        assert(binaries@.take(i as int) =~= binaries@);
    }
    let r = catalog_by_id(&candidates);
    proof {
        assert forall|k: int| 0 <= k < candidates@.len() implies plugins_view(candidates@)[k].id == candidates@[k].id@ by {}
        assert forall|k: int|
            0 <= k < scanned_entries(binaries@, caps).len() implies plugin_ids(r@).contains(
                #[trigger] scanned_entries(binaries@, caps)[k].id,
            ) by {
            assert(plugin_ids(r@).contains(candidates@[k].id@));
        }
        lemma_scanned_formats(binaries@, caps);
        assert forall|i: int| 0 <= i < r@.len() implies {
            let f = (#[trigger] r@[i]).format@;
            &&& f == "clap"@ || f == "vst3"@ || f == "au"@
            &&& plugin_view(r@[i]).tags == seq![f]
        } by {
            let es = scanned_entries(binaries@, caps);
            let k = first_with(es, r@[i].id@);
            assert(first_at(es, r@[i].id@, k));
            assert(plugin_view(r@[i]) == es[k]);
        }
    }
    r
}

/// Whether the bytes are one JSON value.
pub uninterp spec fn json_bytes_parse(bytes: Seq<u8>) -> bool;

/// The boolean under `key` of the JSON object the bytes hold, if they hold
/// one with a boolean there.
pub uninterp spec fn json_flag(bytes: Seq<u8>, key: Seq<char>) -> Option<bool>;

/// `serde_json::from_slice::<serde_json::Value>(bytes).is_ok()`: whether
/// the bytes are one JSON value, as `json_bytes_parse` names it.
#[verifier::external_body]
fn parses_json_bytes(bytes: &[u8]) -> (r: bool)
    ensures
        r == json_bytes_parse(bytes@),
{
    serde_json::from_slice::<serde_json::Value>(bytes).is_ok()
}

/// `serde_json::from_slice::<serde_json::Value>`, then `Value::get(key)`
/// and `Value::as_bool`: the boolean under the key, as `json_flag` names
/// it.
#[verifier::external_body]
fn json_flag_of(bytes: &[u8], key: &str) -> (r: Option<bool>)
    ensures
        r == json_flag(bytes@, key@),
{
    match serde_json::from_slice::<serde_json::Value>(bytes) {
        Ok(value) => value.get(key).and_then(serde_json::Value::as_bool),
        Err(_) => None,
    }
}

/// The capabilities the host worker reports on its standard output: none
/// when the output is not JSON; otherwise each format is supported only
/// where the report holds `true` for it.
pub fn capabilities_from_output(stdout: &[u8]) -> (r: Option<WorkerCapabilities>)
    ensures
        r is Some <==> json_bytes_parse(stdout@),
        match r {
            Some(c) => {
                &&& c.clap == (json_flag(stdout@, "clap"@) == Some(true))
                &&& c.au == (json_flag(stdout@, "au"@) == Some(true))
                &&& c.vst3 == (json_flag(stdout@, "vst3"@) == Some(true))
            },
            None => true,
        },
{
    if !parses_json_bytes(stdout) {
        return None;
    }
    let clap = json_flag_of(stdout, "clap");
    let au = json_flag_of(stdout, "au");
    let vst3 = json_flag_of(stdout, "vst3");
    Some(
        WorkerCapabilities {
            clap: match clap {
                Some(b) => b,
                None => false,
            },
            au: match au {
                Some(b) => b,
                None => false,
            },
            vst3: match vst3 {
                Some(b) => b,
                None => false,
            },
        },
    )
}

/// The format preference: a CLAP plug-in comes before any of another
/// format, a VST3 one before an AU or other one, an AU one before one of
/// any other format; two plug-ins of one format go by lowercased path.
pub proof fn lemma_format_preference(p: PluginView, q: PluginView)
    ensures
        p.format == "clap"@ && q.format != "clap"@ ==> ranks_before(p, q) && !ranks_before(q, p),
        p.format == "vst3"@ && q.format != "clap"@ && q.format != "vst3"@ ==> ranks_before(p, q) && !ranks_before(q, p),
        p.format == "au"@ && q.format != "clap"@ && q.format != "vst3"@ && q.format != "au"@ ==> ranks_before(p, q)
            && !ranks_before(q, p),
        p.format == q.format ==> (ranks_before(p, q) <==> seq_lt(ascii_lower(p.path), ascii_lower(q.path))),
{
    reveal_strlit("clap");
    reveal_strlit("vst3");
    reveal_strlit("au");
    assert("clap"@[0] != "vst3"@[0]);
    assert("clap"@.len() != "au"@.len());
    assert("vst3"@.len() != "au"@.len());
}

/// Among the plug-ins whose name matches an alias (none being asked for by
/// id), the one it resolves to is of the preferred format: CLAP when a
/// CLAP plug-in matches, else VST3 when a VST3 one does, else AU when an AU
/// one does.
pub proof fn lemma_resolution_prefers_formats(ps: Seq<PluginView>, alias: Seq<char>, i: int)
    requires
        !(exists|k: int| first_id_hit(ps, alias, k)),
        0 <= i < ps.len(),
        name_hit(ps[i], normalized_key(alias_parts(alias).0), alias_parts(alias).1),
    ensures
        resolved(ps, alias) matches Some(r) ==> {
            &&& ps[i].format == "clap"@ ==> r.format == "clap"@
            &&& ps[i].format == "vst3"@ ==> r.format == "clap"@ || r.format == "vst3"@
            &&& ps[i].format == "au"@ ==> r.format == "clap"@ || r.format == "vst3"@ || r.format == "au"@
        },
{
    let key = normalized_key(alias_parts(alias).0);
    let format = alias_parts(alias).1;
    if resolved(ps, alias) is Some {
        let k = choose|k: int| best_name_hit(ps, key, format, k);
        assert(best_name_hit(ps, key, format, k));
        assert(!ranks_before(ps[i], ps[k]));
        lemma_format_preference(ps[i], ps[k]);
    }
}

} // verus!

