//! Plug-in presets with metadata hashes, and the project template search.
use vstd::prelude::*;
use vstd::utf8::encode_utf8;
use crate::keyed::text_views;
use crate::text::{
    ascii_lower, blank, byte_len, chars_of, contains_chars, contains_text, copy_str, is_blank, lower_chars, spec_trim,
    str_eq, to_ascii_lower, trim, within_bytes,
};

verus! {

#[derive(Debug, Clone)]
pub struct PresetMetadata {
    pub name: String,
    pub author: String,
    pub category: String,
    pub tags: Vec<String>,
    pub version_hash: u64,
}

#[derive(Debug, Clone)]
pub struct Preset {
    pub metadata: PresetMetadata,
    pub plugin_id: u32,
    pub binary_data: Vec<u8>,
}

#[derive(Debug, Clone)]
pub struct ProjectTemplate {
    pub name: String,
    pub author: String,
    pub version: u32,
    pub layout_json: String,
    pub tags: Vec<String>,
}

pub struct PresetOrchestrator {
    pub library: Vec<Preset>,
}

/// Whether the text parses as one JSON value.
pub uninterp spec fn json_parses(text: Seq<char>) -> bool;

/// `serde_json::from_str::<serde_json::Value>(text).is_ok()`: whether the
/// text is a single JSON value, as `json_parses` names it.
#[verifier::external_body]
fn parses_as_json(text: &str) -> (r: bool)
    ensures
        r == json_parses(text@),
{
    serde_json::from_str::<serde_json::Value>(text).is_ok()
}

/// A template is usable: a non-blank name and an author of at most 256
/// bytes, a positive version, a layout of at most 64 MiB that parses as
/// JSON, and at most 64 tags.
pub open spec fn template_ok(t: ProjectTemplate) -> bool {
    &&& !is_blank(t.name@)
    &&& byte_len(t.name@) <= 256
    &&& byte_len(t.author@) <= 256
    &&& t.version > 0
    &&& byte_len(t.layout_json@) <= 64 * 1024 * 1024
    &&& json_parses(t.layout_json@)
    &&& t.tags@.len() <= 64
}

/// The template is usable and matches the lowercased query in its name or
/// a tag (an empty query matches every usable template).
pub open spec fn template_hit(t: ProjectTemplate, q: Seq<char>) -> bool {
    template_ok(t) && (q.len() == 0 || contains_text(ascii_lower(t.name@), q) || exists|i: int|
        0 <= i < t.tags@.len() && contains_text(ascii_lower(#[trigger] t.tags@[i]@), q))
}

impl ProjectTemplate {
    pub fn validate(&self) -> (r: bool)
        ensures
            r == template_ok(*self),
    {
        !blank(self.name.as_str()) && within_bytes(self.name.as_str(), 256) && within_bytes(self.author.as_str(), 256)
            && self.version > 0 && within_bytes(self.layout_json.as_str(), 64 * 1024 * 1024) && parses_as_json(
            self.layout_json.as_str(),
        ) && self.tags.len() <= 64
    }
}

/// FNV-1a from the state `h` over the bytes.
pub open spec fn fnv_from(h: u64, bytes: Seq<u8>) -> u64
    decreases bytes.len(),
{
    if bytes.len() == 0 {
        h
    } else {
        (fnv_from(h, bytes.drop_last()) ^ (bytes.last() as u64)).wrapping_mul(0x100000001b3u64)
    }
}

/// The UTF-8 bytes of the tags, one after another.
pub open spec fn tag_bytes(tags: Seq<Seq<char>>) -> Seq<u8>
    decreases tags.len(),
{
    if tags.len() == 0 {
        Seq::empty()
    } else {
        tag_bytes(tags.drop_last()) + encode_utf8(tags.last())
    }
}

/// The bytes the metadata hash covers: name, author, category and tags.
pub open spec fn metadata_bytes(m: PresetMetadata) -> Seq<u8> {
    encode_utf8(m.name@) + encode_utf8(m.author@) + encode_utf8(m.category@) + tag_bytes(text_views(m.tags@))
}

proof fn lemma_fnv_append(h: u64, a: Seq<u8>, b: Seq<u8>)
    ensures
        fnv_from(h, a + b) == fnv_from(fnv_from(h, a), b),
    decreases b.len(),
{
    if b.len() > 0 {
        lemma_fnv_append(h, a, b.drop_last());
        assert((a + b).drop_last() =~= a + b.drop_last());
        assert((a + b).last() == b.last());
    } else {
        assert(a + b =~= a);
    }
}

fn feed(h: u64, bytes: &[u8]) -> (r: u64)
    ensures
        r == fnv_from(h, bytes@),
{
    let mut hash = h;
    let mut i: usize = 0;
    while i < bytes.len()
        invariant
            i <= bytes@.len(),
            hash == fnv_from(h, bytes@.take(i as int)),
        decreases bytes.len() - i,
    {
        proof {
            assert(bytes@.take(i + 1).drop_last() =~= bytes@.take(i as int));
        }
        hash = (hash ^ (bytes[i] as u64)).wrapping_mul(0x100000001b3u64);
        i += 1;
    }
    proof {
        assert(bytes@.take(i as int) =~= bytes@);
    }
    hash
}

fn copy_texts(v: &Vec<String>) -> (r: Vec<String>)
    ensures
        text_views(r@) == text_views(v@),
{
    let mut r: Vec<String> = Vec::new();
    let mut i: usize = 0;
    while i < v.len()
        invariant
            i <= v@.len(),
            text_views(r@) == text_views(v@).take(i as int),
        decreases v.len() - i,
    {
        let ghost before = r@;
        let c = copy_str(v[i].as_str());
        r.push(c);
        proof {
            assert(text_views(r@) =~= text_views(before).push(c@));
            assert(text_views(v@).take(i + 1) =~= text_views(v@).take(i as int).push(v@[i as int]@));
        }
        i += 1;
    }
    proof {
        assert(text_views(v@).take(i as int) =~= text_views(v@));
    }
    r
}

/// A preset as plain values.
pub open spec fn preset_view(p: Preset) -> (Seq<char>, Seq<char>, Seq<char>, Seq<Seq<char>>, u64, u32, Seq<u8>) {
    (
        p.metadata.name@,
        p.metadata.author@,
        p.metadata.category@,
        text_views(p.metadata.tags@),
        p.metadata.version_hash,
        p.plugin_id,
        p.binary_data@,
    )
}

fn copy_preset(p: &Preset) -> (r: Preset)
    ensures
        preset_view(r) == preset_view(*p),
{
    let mut data: Vec<u8> = Vec::new();
    let mut i: usize = 0;
    while i < p.binary_data.len()
        invariant
            i <= p.binary_data@.len(),
            data@ == p.binary_data@.take(i as int),
        decreases p.binary_data.len() - i,
    {
        data.push(p.binary_data[i]);
        i += 1;
        proof {
            assert(data@ =~= p.binary_data@.take(i as int));
        }
    }
    proof {
        assert(data@ =~= p.binary_data@);
    }
    Preset {
        metadata: PresetMetadata {
            name: copy_str(p.metadata.name.as_str()),
            author: copy_str(p.metadata.author.as_str()),
            category: copy_str(p.metadata.category.as_str()),
            tags: copy_texts(&p.metadata.tags),
            version_hash: p.metadata.version_hash,
        },
        plugin_id: p.plugin_id,
        binary_data: data,
    }
}

/// The values behind the references.
pub open spec fn deref_all<T>(s: Seq<&T>) -> Seq<T> {
    s.map_values(|t: &T| *t)
}

impl PresetOrchestrator {
    pub fn new() -> (r: Self)
        ensures
            r.library@.len() == 0,
    {
        PresetOrchestrator { library: Vec::new() }
    }

    /// The usable templates that match the trimmed, lowercased query in
    /// their lowercased name or a tag, in order.
    pub fn search_templates<'a>(templates: &'a [ProjectTemplate], query: &str) -> (r: Vec<&'a ProjectTemplate>)
        ensures
            deref_all(r@) == templates@.filter(|t: ProjectTemplate| template_hit(t, ascii_lower(spec_trim(query@)))),
    {
        let qt = trim(query);
        let qc = chars_of(qt.as_str());
        let q = lower_chars(qc.as_slice());
        let ghost pred = |t: ProjectTemplate| template_hit(t, q@);
        let mut r: Vec<&'a ProjectTemplate> = Vec::new();
        let mut i: usize = 0;
        while i < templates.len()
            invariant
                i <= templates@.len(),
                pred == (|t: ProjectTemplate| template_hit(t, q@)),
                deref_all(r@) == templates@.take(i as int).filter(pred),
            decreases templates.len() - i,
        {
            proof {
                assert(templates@.take(i + 1) =~= templates@.take(i as int).push(templates@[i as int]));
                templates@.take(i as int).lemma_filter_push(templates@[i as int], pred);
            }
            let t = &templates[i];
            let mut hit = false;
            if t.validate() {
                if q.len() == 0 {
                    hit = true;
                } else {
                    let name = to_ascii_lower(t.name.as_str());
                    let nc = chars_of(name.as_str());
                    if contains_chars(nc.as_slice(), q.as_slice()) {
                        hit = true;
                    } else {
                        let mut k: usize = 0;
                        while k < t.tags.len()
                            invariant
                                k <= t.tags@.len(),
                                !hit ==> forall|j: int| 0 <= j < k ==> !contains_text(ascii_lower(#[trigger] t.tags@[j]@), q@),
                                hit ==> exists|j: int| 0 <= j < t.tags@.len() && contains_text(ascii_lower(#[trigger] t.tags@[j]@), q@),
                            decreases t.tags.len() - k,
                        {
                            let tag = to_ascii_lower(t.tags[k].as_str());
                            let tc = chars_of(tag.as_str());
                            if contains_chars(tc.as_slice(), q.as_slice()) {
                                hit = true;
                            }
                            k += 1;
                        }
                    }
                }
            }
            proof {
                assert(hit == template_hit(*t, q@));
            }
            if hit {
                let ghost before = r@;
                r.push(t);
                proof {
                    assert(deref_all(r@) =~= deref_all(before).push(*t));
                }
            }
            i += 1;
        }
        proof {
            assert(templates@.take(i as int) =~= templates@);
            assert(pred =~= (|t: ProjectTemplate| template_hit(t, ascii_lower(spec_trim(query@)))));
        }
        r
    }

    /// The presets whose tags include the tag exactly, in order.
    pub fn search_by_tag(&self, tag: &str) -> (r: Vec<Preset>)
        ensures
            r@.map_values(|p: Preset| preset_view(p)) == self.library@.filter(
                |p: Preset| text_views(p.metadata.tags@).contains(tag@),
            ).map_values(|p: Preset| preset_view(p)),
    {
        let ghost pred = |p: Preset| text_views(p.metadata.tags@).contains(tag@);
        let mut r: Vec<Preset> = Vec::new();
        let mut i: usize = 0;
        while i < self.library.len()
            invariant
                i <= self.library@.len(),
                pred == (|p: Preset| text_views(p.metadata.tags@).contains(tag@)),
                r@.map_values(|p: Preset| preset_view(p)) == self.library@.take(i as int).filter(pred).map_values(
                    |p: Preset| preset_view(p),
                ),
            decreases self.library.len() - i,
        {
            proof {
                assert(self.library@.take(i + 1) =~= self.library@.take(i as int).push(self.library@[i as int]));
                self.library@.take(i as int).lemma_filter_push(self.library@[i as int], pred);
            }
            let p = &self.library[i];
            let ghost tv = text_views(p.metadata.tags@);
            let mut found = false;
            let mut k: usize = 0;
            while k < p.metadata.tags.len()
                invariant
                    k <= p.metadata.tags@.len(),
                    tv == text_views(p.metadata.tags@),
                    found == exists|j: int| 0 <= j < k && #[trigger] tv[j] == tag@,
                decreases p.metadata.tags.len() - k,
            {
                proof {
                    assert(tv[k as int] == p.metadata.tags@[k as int]@);
                }
                if str_eq(p.metadata.tags[k].as_str(), tag) {
                    found = true;
                }
                k += 1;
            }
            if found {
                let ghost before = r@;
                let c = copy_preset(p);
                r.push(c);
                proof {
                    assert(r@.map_values(|p: Preset| preset_view(p)) =~= before.map_values(|p: Preset| preset_view(p)).push(
                        preset_view(*p),
                    ));
                }
            }
            i += 1;
        }
        proof {
            assert(self.library@.take(i as int) =~= self.library@);
        }
        r
    }

    /// FNV-1a over the metadata's name, author, category and tags, as one
    /// run of UTF-8 bytes: a fast key against preset collisions.
    pub fn calculate_metadata_hash(&self, meta: &PresetMetadata) -> (r: u64)
        ensures
            r == fnv_from(0xcbf29ce484222325u64, metadata_bytes(*meta)),
    {
        let basis: u64 = 0xcbf29ce484222325u64;
        let h1 = feed(basis, meta.name.as_str().as_bytes());
        let h2 = feed(h1, meta.author.as_str().as_bytes());
        let h3 = feed(h2, meta.category.as_str().as_bytes());
        let ghost nb = encode_utf8(meta.name@);
        let ghost ab = encode_utf8(meta.author@);
        let ghost cb = encode_utf8(meta.category@);
        proof {
            lemma_fnv_append(basis, nb, ab);
            lemma_fnv_append(basis, nb + ab, cb);
        }
        let ghost tv = text_views(meta.tags@);
        let mut hash = h3;
        let mut i: usize = 0;
        while i < meta.tags.len()
            invariant
                i <= meta.tags@.len(),
                tv == text_views(meta.tags@),
                hash == fnv_from(basis, nb + ab + cb + tag_bytes(tv.take(i as int))),
            decreases meta.tags.len() - i,
        {
            let ghost tb = encode_utf8(tv[i as int]);
            proof {
                assert(tv[i as int] == meta.tags@[i as int]@);
                assert(tv.take(i + 1).drop_last() =~= tv.take(i as int));
                assert(tag_bytes(tv.take(i + 1)) == tag_bytes(tv.take(i as int)) + tb);
                lemma_fnv_append(basis, nb + ab + cb + tag_bytes(tv.take(i as int)), tb);
                assert(nb + ab + cb + tag_bytes(tv.take(i + 1)) =~= nb + ab + cb + tag_bytes(tv.take(i as int)) + tb);
            }
            hash = feed(hash, meta.tags[i].as_str().as_bytes());
            i += 1;
        }
        proof {
            assert(tv.take(i as int) =~= tv);
            assert(nb + ab + cb + Seq::<u8>::empty() =~= nb + ab + cb);
        }
        hash
    }
}

impl Default for PresetOrchestrator {
    fn default() -> (r: Self)
        ensures
            r.library@.len() == 0,
    {
        Self::new()
    }
}

} // verus!
