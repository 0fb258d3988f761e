//! The plug-in instances a loaded track layout implies: one per plug-in
//! slot of each track, in track and slot order. A built-in plug-in is named
//! by its type number; a sandboxed one by the file stem of its bundle path,
//! with its format read from the path's extension and its state and binary
//! hash taken in the order the sandboxed slots come.
use vstd::prelude::*;
use crate::openutau::{extension_of, path_extension};
use crate::plugin_state::PLUGIN_STATE_SCHEMA_VERSION;
use crate::project_contracts::PluginFormat;
use crate::text::{ascii_lower, copy_str, decimal, push_decimal, push_str, str_eq, to_ascii_lower};

verus! {

/// What `Path::file_stem` gives for a path, as text.
pub uninterp spec fn path_stem(path: Seq<char>) -> Option<Seq<char>>;

/// `Path::new(path).file_stem()` as text: the file name without its last
/// extension, or `None` when the path has no file name. `path_stem` names
/// the result.
#[verifier::external_body]
fn stem_of_path(path: &str) -> (r: Option<&str>)
    ensures
        match r {
            Some(s) => path_stem(path@) == Some(s@),
            None => path_stem(path@) is None,
        },
{
    std::path::Path::new(path).file_stem().and_then(|v| v.to_str())
}

/// The plug-ins of one loaded track, as instance derivation reads them.
pub struct InstanceSource {
    pub track_id: u32,
    pub plugin_types: Vec<u32>,
    pub plugin_bypasses: Vec<bool>,
    pub plugin_states: Vec<Vec<u8>>,
    pub plugin_gui_states: Vec<Vec<u8>>,
    pub sandbox_plugin_paths: Vec<String>,
    pub sandbox_plugin_states: Vec<Vec<u8>>,
    pub sandbox_binary_hashes: Vec<String>,
}

/// A plug-in instance of the project, without its parameter values.
pub struct PluginInstancePlain {
    pub instance_id: String,
    pub track_id: u32,
    pub slot_index: u32,
    pub format: PluginFormat,
    pub bundle_path: String,
    pub plugin_id: String,
    pub output_channels: u16,
    pub state_blob: Vec<u8>,
    pub gui_state: Vec<u8>,
    pub bypassed: bool,
    pub capability: String,
    pub binary_hash: String,
    pub architecture: String,
    pub state_schema_version: u32,
}

/// The type number that marks a sandboxed plug-in.
pub const SANDBOX_PLUGIN_TYPE: u32 = 0xffff_ffff;

/// The format a bundle path names by its extension, ignoring ASCII case.
pub open spec fn format_for_path(path: Seq<char>) -> PluginFormat {
    match path_extension(path) {
        Some(e) => if ascii_lower(e) == "clap"@ {
            PluginFormat::Clap
        } else if ascii_lower(e) == "vst3"@ {
            PluginFormat::Vst3
        } else if ascii_lower(e) == "component"@ {
            PluginFormat::AudioUnit
        } else {
            PluginFormat::BuiltIn
        },
        None => PluginFormat::BuiltIn,
    }
}

/// How many of the first `s` slots are sandboxed.
pub open spec fn sandbox_rank(types: Seq<u32>, s: int) -> int
    decreases s,
{
    if s <= 0 {
        0
    } else {
        sandbox_rank(types, s - 1) + if types[s - 1] == SANDBOX_PLUGIN_TYPE { 1int } else { 0int }
    }
}

pub open spec fn text_at(v: Seq<String>, i: int) -> Seq<char> {
    if 0 <= i < v.len() { v[i]@ } else { Seq::empty() }
}

pub open spec fn blob_at(v: Seq<Vec<u8>>, i: int) -> Seq<u8> {
    if 0 <= i < v.len() { v[i]@ } else { Seq::empty() }
}

/// The plug-in id of a sandboxed bundle: its file stem, or
/// `external-plugin` when it has none.
pub open spec fn sandbox_id(path: Seq<char>) -> Seq<char> {
    match path_stem(path) {
        Some(s) => if s.len() > 0 { s } else { "external-plugin"@ },
        None => "external-plugin"@,
    }
}

/// `p` is the instance of slot `s` of track `t` on architecture `arch`.
pub open spec fn instance_of(t: InstanceSource, s: int, arch: Seq<char>, p: PluginInstancePlain) -> bool {
    let ty = t.plugin_types@[s];
    let k = sandbox_rank(t.plugin_types@, s);
    &&& p.instance_id@ == "track:"@ + decimal(t.track_id as nat) + ":slot:"@ + decimal(s as nat)
    &&& p.track_id == t.track_id
    &&& p.slot_index == s as u32
    &&& p.output_channels == 2
    &&& p.gui_state@ == blob_at(t.plugin_gui_states@, s)
    &&& p.bypassed == (s < t.plugin_bypasses@.len() && t.plugin_bypasses@[s])
    &&& p.architecture@ == arch
    &&& p.state_schema_version == PLUGIN_STATE_SCHEMA_VERSION
    &&& if ty == SANDBOX_PLUGIN_TYPE {
        &&& p.format == format_for_path(text_at(t.sandbox_plugin_paths@, k))
        &&& p.bundle_path@ == text_at(t.sandbox_plugin_paths@, k)
        &&& p.plugin_id@ == sandbox_id(text_at(t.sandbox_plugin_paths@, k))
        &&& p.state_blob@ == blob_at(t.sandbox_plugin_states@, k)
        &&& p.capability@ == "sandbox"@
        &&& p.binary_hash@ == text_at(t.sandbox_binary_hashes@, k)
    } else {
        &&& p.format == PluginFormat::BuiltIn
        &&& p.bundle_path@ == "builtin://"@ + decimal(ty as nat)
        &&& p.plugin_id@ == "builtin:"@ + decimal(ty as nat)
        &&& p.state_blob@ == blob_at(t.plugin_states@, s)
        &&& p.capability@ == "builtin"@
        &&& p.binary_hash@ == Seq::<char>::empty()
    }
}

/// Where the instances of track `a` start: the slots of the tracks before.
pub open spec fn slot_offset(ts: Seq<InstanceSource>, a: int) -> int
    decreases a,
{
    if a <= 0 {
        0
    } else {
        slot_offset(ts, a - 1) + ts[a - 1].plugin_types@.len()
    }
}

fn format_of_path(path: &str) -> (r: PluginFormat)
    ensures
        r == format_for_path(path@),
{
    match extension_of(path) {
        Some(e) => {
            let l = to_ascii_lower(e);
            if str_eq(l.as_str(), "clap") {
                PluginFormat::Clap
            } else if str_eq(l.as_str(), "vst3") {
                PluginFormat::Vst3
            } else if str_eq(l.as_str(), "component") {
                PluginFormat::AudioUnit
            } else {
                PluginFormat::BuiltIn
            }
        },
        None => PluginFormat::BuiltIn,
    }
}

fn copy_blob(v: &Vec<Vec<u8>>, i: usize) -> (r: Vec<u8>)
    ensures
        r@ == blob_at(v@, i as int),
{
    let mut r: Vec<u8> = Vec::new();
    if i < v.len() {
        let b = &v[i];
        let mut k: usize = 0;
        while k < b.len()
            invariant
                k <= b@.len(),
                r@ == b@.take(k as int),
            decreases b.len() - k,
        {
            r.push(b[k]);
            proof {
                assert(b@.take(k + 1) =~= b@.take(k as int).push(b@[k as int]));
            }
            k += 1;
        }
        proof {
            assert(b@.take(b@.len() as int) =~= b@);
        }
    }
    r
}

fn copy_text_at(v: &Vec<String>, i: usize) -> (r: String)
    ensures
        r@ == text_at(v@, i as int),
{
    if i < v.len() {
        copy_str(v[i].as_str())
    } else {
        String::new()
    }
}

fn instance_at(t: &InstanceSource, s: usize, k: usize, arch: &str) -> (p: PluginInstancePlain)
    requires
        s < t.plugin_types@.len(),
        k == sandbox_rank(t.plugin_types@, s as int),
    ensures
        instance_of(*t, s as int, arch@, p),
{
    let ty = t.plugin_types[s];
    let mut instance_id = copy_str("track:");
    push_decimal(&mut instance_id, t.track_id as u64);
    push_str(&mut instance_id, ":slot:");
    push_decimal(&mut instance_id, s as u64);
    let gui_state = copy_blob(&t.plugin_gui_states, s);
    let bypassed = s < t.plugin_bypasses.len() && t.plugin_bypasses[s];
    if ty == SANDBOX_PLUGIN_TYPE {
        let path = copy_text_at(&t.sandbox_plugin_paths, k);
        let plugin_id = match stem_of_path(path.as_str()) {
            Some(stem) => if stem.unicode_len() > 0 {
                copy_str(stem)
            } else {
                copy_str("external-plugin")
            },
            None => copy_str("external-plugin"),
        };
        PluginInstancePlain {
            instance_id,
            track_id: t.track_id,
            slot_index: s as u32,
            format: format_of_path(path.as_str()),
            bundle_path: path,
            plugin_id,
            output_channels: 2,
            state_blob: copy_blob(&t.sandbox_plugin_states, k),
            gui_state,
            bypassed,
            capability: copy_str("sandbox"),
            binary_hash: copy_text_at(&t.sandbox_binary_hashes, k),
            architecture: copy_str(arch),
            state_schema_version: PLUGIN_STATE_SCHEMA_VERSION,
        }
    } else {
        let mut bundle_path = copy_str("builtin://");
        push_decimal(&mut bundle_path, ty as u64);
        let mut plugin_id = copy_str("builtin:");
        push_decimal(&mut plugin_id, ty as u64);
        PluginInstancePlain {
            instance_id,
            track_id: t.track_id,
            slot_index: s as u32,
            format: PluginFormat::BuiltIn,
            bundle_path,
            plugin_id,
            output_channels: 2,
            state_blob: copy_blob(&t.plugin_states, s),
            gui_state,
            bypassed,
            capability: copy_str("builtin"),
            binary_hash: String::new(),
            architecture: copy_str(arch),
            state_schema_version: PLUGIN_STATE_SCHEMA_VERSION,
        }
    }
}

/// One instance per plug-in slot, track by track and slot by slot (see
/// `instance_of`), on the architecture `arch`.
pub fn derive_plugin_instances(tracks: &Vec<InstanceSource>, arch: &str) -> (r: Vec<PluginInstancePlain>)
    requires
        slot_offset(tracks@, tracks@.len() as int) <= usize::MAX,
    ensures
        r@.len() == slot_offset(tracks@, tracks@.len() as int),
        forall|a: int, s: int|
            0 <= a < tracks@.len() && 0 <= s < tracks@[a].plugin_types@.len() ==> instance_of(
                tracks@[a],
                s,
                arch@,
                #[trigger] r@[slot_offset(tracks@, a) + s],
            ),
{
    let mut r: Vec<PluginInstancePlain> = Vec::new();
    let mut a: usize = 0;
    while a < tracks.len()
        invariant
            a <= tracks@.len(),
            slot_offset(tracks@, tracks@.len() as int) <= usize::MAX,
            r@.len() == slot_offset(tracks@, a as int),
            forall|b: int, s: int|
                0 <= b < a && 0 <= s < tracks@[b].plugin_types@.len() ==> instance_of(
                    tracks@[b],
                    s,
                    arch@,
                    #[trigger] r@[slot_offset(tracks@, b) + s],
                ),
        decreases tracks.len() - a,
    {
        let t = &tracks[a];
        proof {
            lemma_offset_mono(tracks@, a + 1, tracks@.len() as int);
        }
        let mut s: usize = 0;
        let mut k: usize = 0;
        while s < t.plugin_types.len()
            invariant
                a < tracks@.len(),
                *t == tracks@[a as int],
                s <= t.plugin_types@.len(),
                k == sandbox_rank(t.plugin_types@, s as int),
                k <= s,
                r@.len() == slot_offset(tracks@, a as int) + s,
                slot_offset(tracks@, a + 1) <= usize::MAX,
                forall|b: int, s2: int|
                    0 <= b < a && 0 <= s2 < tracks@[b].plugin_types@.len() ==> instance_of(
                        tracks@[b],
                        s2,
                        arch@,
                        #[trigger] r@[slot_offset(tracks@, b) + s2],
                    ),
                forall|s2: int|
                    0 <= s2 < s ==> instance_of(
                        tracks@[a as int],
                        s2,
                        arch@,
                        #[trigger] r@[slot_offset(tracks@, a as int) + s2],
                    ),
            decreases t.plugin_types.len() - s,
        {
            let p = instance_at(t, s, k, arch);
            let ghost r0 = r@;
            r.push(p);
            proof {
                assert forall|b: int, s2: int|
                    0 <= b < a && 0 <= s2 < tracks@[b].plugin_types@.len() implies instance_of(
                        tracks@[b],
                        s2,
                        arch@,
                        #[trigger] r@[slot_offset(tracks@, b) + s2],
                    ) by {
                    lemma_offset_mono(tracks@, b + 1, a as int);
                    lemma_offset_mono(tracks@, 0, b);
                    assert(slot_offset(tracks@, b + 1) == slot_offset(tracks@, b) + tracks@[b].plugin_types@.len());
                    assert(r@ == r0.push(p));
                    assert(r@[slot_offset(tracks@, b) + s2] == r0[slot_offset(tracks@, b) + s2]);
                }
                assert forall|s2: int| 0 <= s2 < s + 1 implies instance_of(
                    tracks@[a as int],
                    s2,
                    arch@,
                    #[trigger] r@[slot_offset(tracks@, a as int) + s2],
                ) by {
                    lemma_offset_mono(tracks@, 0, a as int);
                    assert(r@ == r0.push(p));
                    if s2 < s {
                        assert(r@[slot_offset(tracks@, a as int) + s2] == r0[slot_offset(tracks@, a as int) + s2]);
                    }
                }
            }
            if t.plugin_types[s] == SANDBOX_PLUGIN_TYPE {
                k = k + 1;
            }
            s += 1;
        }
        a += 1;
    }
    r
}

proof fn lemma_offset_mono(ts: Seq<InstanceSource>, a: int, b: int)
    requires
        0 <= a <= b <= ts.len(),
    ensures
        slot_offset(ts, a) <= slot_offset(ts, b),
    decreases b - a,
{
    if a < b {
        lemma_offset_mono(ts, a, b - 1);
    }
}

/// A sandboxed plug-in's format follows its path's extension, in any ASCII
/// case: `.clap` is CLAP, `.vst3` is VST3, `.component` is an Audio Unit,
/// and only a path without one of these extensions is built in.
pub proof fn lemma_format_follows_extension(path: Seq<char>)
    ensures
        match path_extension(path) {
            Some(e) => {
                &&& (format_for_path(path) == PluginFormat::Clap <==> ascii_lower(e) == "clap"@)
                &&& (format_for_path(path) == PluginFormat::Vst3 <==> ascii_lower(e) == "vst3"@)
                &&& (format_for_path(path) == PluginFormat::AudioUnit <==> ascii_lower(e) == "component"@)
                &&& (format_for_path(path) == PluginFormat::BuiltIn <==> ascii_lower(e) != "clap"@ && ascii_lower(e)
                    != "vst3"@ && ascii_lower(e) != "component"@)
            },
            None => format_for_path(path) == PluginFormat::BuiltIn,
        },
{
    reveal_strlit("clap");
    reveal_strlit("vst3");
    reveal_strlit("component");
    assert("clap"@[0] != "vst3"@[0]);
    assert("clap"@.len() != "component"@.len());
    assert("vst3"@.len() != "component"@.len());
}

} // verus!

