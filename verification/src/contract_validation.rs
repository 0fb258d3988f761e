//! The cross-record checks of a project's plug-in instances, macro and
//! MIDI-learn mappings, warp markers and render targets. Each record is
//! read as the plain values the checks need; the checks on floating-point
//! values (parameter values, mapping ranges, marker pitch) come in already
//! decided, as one flag per record. The first violation, in the order
//! plug-ins, macro mappings, MIDI mappings, markers, targets, is reported.
use vstd::prelude::*;
use crate::project_contracts::RenderTargetContract;
use crate::text::{blank, byte_len, contains_char, copy_str, is_blank, is_valid_text, push_str, str_eq, valid_text, within_bytes};

verus! {

/// A plug-in instance as the checks read it. `parameter_values_in_range`
/// says every parameter value is finite and within `0..=1`.
#[derive(Clone, Debug)]
pub struct PluginInstanceCheck {
    pub instance_id: String,
    pub plugin_id: String,
    pub bundle_path: String,
    pub component_ids: Vec<String>,
    pub input_channels: u16,
    pub output_channels: u16,
    pub sidechain_channels: u16,
    pub binary_hash: String,
    pub plugin_version: String,
    pub architecture: String,
    pub state_schema_version: u32,
    pub state_blob_bytes: usize,
    pub gui_state_bytes: usize,
    pub latency_samples: u32,
    pub parameter_ids: Vec<String>,
    pub parameter_value_count: usize,
    pub parameter_values_in_range: bool,
}

/// A macro mapping as the checks read it. `range_ok` says its minimum and
/// maximum are finite with the minimum not above the maximum, and its curve
/// is finite within `-1..=1`.
#[derive(Clone, Debug)]
pub struct MacroMappingCheck {
    pub mapping_id: String,
    pub macro_index: u8,
    pub target_instance_id: String,
    pub target_parameter_id: String,
    pub range_ok: bool,
}

/// A MIDI-learn mapping as the checks read it. `range_ok` says its minimum
/// and maximum are finite with the minimum not above the maximum, and its
/// curve is finite.
#[derive(Clone, Debug)]
pub struct MidiLearnCheck {
    pub mapping_id: String,
    pub device_id: String,
    pub channel: u8,
    pub controller: u16,
    pub target_instance_id: String,
    pub target_parameter_id: String,
    pub range_ok: bool,
}

/// A warp marker as the checks read it. `pitch_ok` says its pitch is finite
/// within `-48..=48` semitones.
#[derive(Clone, Debug)]
pub struct WarpMarkerCheck {
    pub marker_id: String,
    pub pitch_ok: bool,
}

/// The text at `i` is blank or repeats one before it.
pub open spec fn blank_or_taken(ids: Seq<Seq<char>>, i: int) -> bool {
    is_blank(ids[i]) || exists|j: int| 0 <= j < i && ids[j] == ids[i]
}

/// `prefix`, the record's id, then `suffix`.
pub open spec fn named(prefix: Seq<char>, id: Seq<char>, suffix: Seq<char>) -> Seq<char> {
    prefix + id + suffix
}

pub open spec fn texts(v: Seq<String>) -> Seq<Seq<char>> {
    v.map_values(|s: String| s@)
}

pub open spec fn plugin_ids(ps: Seq<PluginInstanceCheck>) -> Seq<Seq<char>> {
    ps.map_values(|p: PluginInstanceCheck| p.instance_id@)
}

/// The bus layout is sound: at most 64 named components of at most 256
/// bytes without NUL, at most 256 channels of each kind, and a sidechain
/// only beside outputs.
pub open spec fn bus_ok(p: PluginInstanceCheck) -> bool {
    &&& p.component_ids@.len() <= 64
    &&& forall|k: int| 0 <= k < p.component_ids@.len() ==> valid_text(#[trigger] p.component_ids@[k]@, 256)
    &&& p.input_channels <= 256 && p.output_channels <= 256 && p.sidechain_channels <= 256
    &&& !(p.sidechain_channels > 0 && p.output_channels == 0)
}

/// The parameter ids are named, at most 256 bytes, free of NUL and distinct.
pub open spec fn parameter_ids_ok(ids: Seq<Seq<char>>) -> bool {
    forall|k: int| 0 <= k < ids.len() ==> valid_text(#[trigger] ids[k], 256) && !blank_or_taken(ids, k)
}

/// The first violation of plug-in instance `i`, if any.
pub open spec fn plugin_fault(ps: Seq<PluginInstanceCheck>, i: int) -> Option<Seq<char>> {
    let p = ps[i];
    let id = p.instance_id@;
    if blank_or_taken(plugin_ids(ps), i) {
        Some("plugin instance ids must be non-empty and unique"@)
    } else if is_blank(p.plugin_id@) || p.bundle_path@.contains('\0') {
        Some(named("plugin instance "@, id, " has invalid identity"@))
    } else if !bus_ok(p) {
        Some(named("plugin instance "@, id, " has invalid bus layout"@))
    } else if byte_len(p.binary_hash@) != 0 && byte_len(p.binary_hash@) != 64 {
        Some(named("plugin instance "@, id, " has invalid binary hash"@))
    } else if byte_len(p.plugin_version@) > 256 || byte_len(p.architecture@) > 32 || p.plugin_version@.contains(
        '\0',
    ) || p.architecture@.contains('\0') {
        Some(named("plugin instance "@, id, " has invalid binary identity"@))
    } else if p.state_schema_version > 1 {
        Some(named("plugin instance "@, id, " has unsupported state schema"@))
    } else if p.state_blob_bytes > 4 * 1024 * 1024 || p.gui_state_bytes > 1024 * 1024 {
        Some(named("plugin instance "@, id, " exceeds state limits"@))
    } else if p.latency_samples > 16 * 1024 * 1024 {
        Some(named("plugin instance "@, id, " has invalid latency"@))
    } else if p.parameter_value_count > 65_536 || (p.parameter_ids@.len() != 0 && p.parameter_ids@.len()
        != p.parameter_value_count) || !p.parameter_values_in_range {
        Some(named("plugin instance "@, id, " has invalid parameter state"@))
    } else if !parameter_ids_ok(texts(p.parameter_ids@)) {
        Some(named("plugin instance "@, id, " has duplicate or invalid parameter ids"@))
    } else {
        None
    }
}

/// The position of the first plug-in below `k` with the instance id, or -1.
pub open spec fn find_plugin(ps: Seq<PluginInstanceCheck>, id: Seq<char>, k: int) -> int
    decreases k,
{
    if k <= 0 {
        -1
    } else if find_plugin(ps, id, k - 1) >= 0 {
        find_plugin(ps, id, k - 1)
    } else if ps[k - 1].instance_id@ == id {
        k - 1
    } else {
        -1
    }
}

pub open spec fn macro_ids(ms: Seq<MacroMappingCheck>) -> Seq<Seq<char>> {
    ms.map_values(|m: MacroMappingCheck| m.mapping_id@)
}

/// The first violation of macro mapping `i`, if any.
pub open spec fn macro_fault(ps: Seq<PluginInstanceCheck>, ms: Seq<MacroMappingCheck>, i: int) -> Option<Seq<char>> {
    let m = ms[i];
    let t = find_plugin(ps, m.target_instance_id@, ps.len() as int);
    if blank_or_taken(macro_ids(ms), i) {
        Some("macro mapping ids must be non-empty and unique"@)
    } else if t < 0 {
        Some(named("macro mapping "@, m.mapping_id@, " targets an unknown plugin"@))
    } else if m.macro_index >= 128 || is_blank(m.target_parameter_id@) || (ps[t].parameter_ids@.len() != 0
        && !texts(ps[t].parameter_ids@).contains(m.target_parameter_id@)) || !m.range_ok {
        Some(named("macro mapping "@, m.mapping_id@, " is invalid"@))
    } else {
        None
    }
}

pub open spec fn midi_ids(ms: Seq<MidiLearnCheck>) -> Seq<Seq<char>> {
    ms.map_values(|m: MidiLearnCheck| m.mapping_id@)
}

/// The first violation of MIDI-learn mapping `i`, if any.
pub open spec fn midi_fault(ms: Seq<MidiLearnCheck>, i: int) -> Option<Seq<char>> {
    let m = ms[i];
    if blank_or_taken(midi_ids(ms), i) {
        Some("MIDI mapping ids must be non-empty and unique"@)
    } else if is_blank(m.device_id@) || is_blank(m.target_instance_id@) || is_blank(m.target_parameter_id@)
        || m.channel > 15 || m.controller > 16_383 || !m.range_ok {
        Some(named("MIDI mapping "@, m.mapping_id@, " is invalid"@))
    } else {
        None
    }
}

pub open spec fn marker_ids(ms: Seq<WarpMarkerCheck>) -> Seq<Seq<char>> {
    ms.map_values(|m: WarpMarkerCheck| m.marker_id@)
}

/// The first violation of warp marker `i`, if any.
pub open spec fn marker_fault(ms: Seq<WarpMarkerCheck>, i: int) -> Option<Seq<char>> {
    if blank_or_taken(marker_ids(ms), i) {
        Some("warp marker ids must be non-empty and unique"@)
    } else if !ms[i].pitch_ok {
        Some(named("warp marker "@, ms[i].marker_id@, " has invalid pitch"@))
    } else {
        None
    }
}

pub open spec fn target_ids(ts: Seq<RenderTargetContract>) -> Seq<Seq<char>> {
    ts.map_values(|t: RenderTargetContract| t.target_id@)
}

/// The first violation of render target `i`, if any.
pub open spec fn target_fault(ts: Seq<RenderTargetContract>, i: int) -> Option<Seq<char>> {
    if blank_or_taken(target_ids(ts), i) {
        Some("render target ids must be non-empty and unique"@)
    } else if ts[i].offline_generation == 0 {
        Some(named("render target "@, ts[i].target_id@, " has no offline generation"@))
    } else {
        None
    }
}

pub open spec fn plugin_faults(ps: Seq<PluginInstanceCheck>) -> spec_fn(int) -> Option<Seq<char>> {
    |i: int| plugin_fault(ps, i)
}

pub open spec fn macro_faults(ps: Seq<PluginInstanceCheck>, ms: Seq<MacroMappingCheck>) -> spec_fn(int) -> Option<Seq<char>> {
    |i: int| macro_fault(ps, ms, i)
}

pub open spec fn midi_faults(ms: Seq<MidiLearnCheck>) -> spec_fn(int) -> Option<Seq<char>> {
    |i: int| midi_fault(ms, i)
}

pub open spec fn marker_faults(ms: Seq<WarpMarkerCheck>) -> spec_fn(int) -> Option<Seq<char>> {
    |i: int| marker_fault(ms, i)
}

pub open spec fn target_faults(ts: Seq<RenderTargetContract>) -> spec_fn(int) -> Option<Seq<char>> {
    |i: int| target_fault(ts, i)
}

/// The first of the faults at `0..k`, if any.
pub open spec fn first_fault(fault: spec_fn(int) -> Option<Seq<char>>, k: int) -> Option<Seq<char>>
    decreases k,
{
    if k <= 0 {
        None
    } else if first_fault(fault, k - 1) is Some {
        first_fault(fault, k - 1)
    } else {
        fault(k - 1)
    }
}

/// The first violation among all records, in the order plug-ins, macro
/// mappings, MIDI mappings, markers, targets.
pub open spec fn contracts_fault(
    plugins: Seq<PluginInstanceCheck>,
    mappings: Seq<MidiLearnCheck>,
    macros: Seq<MacroMappingCheck>,
    markers: Seq<WarpMarkerCheck>,
    targets: Seq<RenderTargetContract>,
) -> Option<Seq<char>> {
    let a = first_fault(plugin_faults(plugins), plugins.len() as int);
    let b = first_fault(macro_faults(plugins, macros), macros.len() as int);
    let c = first_fault(midi_faults(mappings), mappings.len() as int);
    let d = first_fault(marker_faults(markers), markers.len() as int);
    let e = first_fault(target_faults(targets), targets.len() as int);
    if a is Some {
        a
    } else if b is Some {
        b
    } else if c is Some {
        c
    } else if d is Some {
        d
    } else {
        e
    }
}

fn message(prefix: &str, id: &str, suffix: &str) -> (r: String)
    ensures
        r@ == named(prefix@, id@, suffix@),
{
    let mut s = copy_str(prefix);
    push_str(&mut s, id);
    push_str(&mut s, suffix);
    s
}

/// Whether the text at `i` is blank or repeats one before it.
fn blank_or_taken_at(ids: &Vec<&str>, i: usize) -> (r: bool)
    requires
        i < ids@.len(),
    ensures
        r == blank_or_taken(ids@.map_values(|s: &str| s@), i as int),
{
    let ghost v = ids@.map_values(|s: &str| s@);
    if blank(ids[i]) {
        return true;
    }
    let mut j: usize = 0;
    while j < i
        invariant
            j <= i < ids@.len(),
            v == ids@.map_values(|s: &str| s@),
            forall|x: int| 0 <= x < j ==> v[x] != v[i as int],
        decreases i - j,
    {
        if str_eq(ids[j], ids[i]) {
            proof {
                assert(v[j as int] == v[i as int]);
            }
            return true;
        }
        j += 1;
    }
    false
}

fn views_of(v: &Vec<String>) -> (r: Vec<&str>)
    ensures
        r@.len() == v@.len(),
        r@.map_values(|s: &str| s@) == texts(v@),
{
    let mut r: Vec<&str> = Vec::new();
    let mut i: usize = 0;
    while i < v.len()
        invariant
            i <= v.len(),
            r@.len() == i,
            forall|x: int| 0 <= x < i ==> #[trigger] r@[x]@ == v@[x]@,
        decreases v.len() - i,
    {
        r.push(v[i].as_str());
        i += 1;
    }
    proof {
        assert(r@.map_values(|s: &str| s@) =~= texts(v@));
    }
    r
}

fn parameter_ids_valid(ids: &Vec<String>) -> (r: bool)
    ensures
        r == parameter_ids_ok(texts(ids@)),
{
    let vs = views_of(ids);
    let ghost t = texts(ids@);
    let mut k: usize = 0;
    while k < ids.len()
        invariant
            k <= ids.len(),
            vs@.map_values(|s: &str| s@) == t,
            vs@.len() == ids@.len(),
            t == texts(ids@),
            forall|x: int| 0 <= x < k ==> valid_text(#[trigger] t[x], 256) && !blank_or_taken(t, x),
        decreases ids.len() - k,
    {
        let ok = is_valid_text(ids[k].as_str(), 256) && !blank_or_taken_at(&vs, k);
        proof {
            assert(t[k as int] == ids@[k as int]@);
        }
        if !ok {
            return false;
        }
        k += 1;
    }
    true
}

fn bus_layout_ok(p: &PluginInstanceCheck) -> (r: bool)
    ensures
        r == bus_ok(*p),
{
    if p.component_ids.len() > 64 {
        return false;
    }
    let mut k: usize = 0;
    while k < p.component_ids.len()
        invariant
            k <= p.component_ids@.len() <= 64,
            forall|x: int| 0 <= x < k ==> valid_text(#[trigger] p.component_ids@[x]@, 256),
        decreases p.component_ids.len() - k,
    {
        if !is_valid_text(p.component_ids[k].as_str(), 256) {
            return false;
        }
        k += 1;
    }
    p.input_channels <= 256 && p.output_channels <= 256 && p.sidechain_channels <= 256 && !(p.sidechain_channels > 0
        && p.output_channels == 0)
}

fn byte_count(s: &str) -> (r: usize)
    ensures
        r == if byte_len(s@) < usize::MAX { byte_len(s@) } else { usize::MAX as nat },
{
    crate::text::byte_length(s)
}

fn plugin_fault_at(ps: &[PluginInstanceCheck], ids: &Vec<&str>, i: usize) -> (r: Option<String>)
    requires
        i < ps@.len(),
        ids@.len() == ps@.len(),
        ids@.map_values(|s: &str| s@) == plugin_ids(ps@),
    ensures
        match r {
            Some(e) => plugin_fault(ps@, i as int) == Some(e@),
            None => plugin_fault(ps@, i as int) is None,
        },
{
    let p = &ps[i];
    let id = p.instance_id.as_str();
    if blank_or_taken_at(ids, i) {
        return Some(copy_str("plugin instance ids must be non-empty and unique"));
    }
    if blank(p.plugin_id.as_str()) || contains_char(p.bundle_path.as_str(), '\0') {
        return Some(message("plugin instance ", id, " has invalid identity"));
    }
    if !bus_layout_ok(p) {
        return Some(message("plugin instance ", id, " has invalid bus layout"));
    }
    let hash_bytes = byte_count(p.binary_hash.as_str());
    if hash_bytes != 0 && hash_bytes != 64 {
        return Some(message("plugin instance ", id, " has invalid binary hash"));
    }
    if !within_bytes(p.plugin_version.as_str(), 256) || !within_bytes(p.architecture.as_str(), 32) || contains_char(
        p.plugin_version.as_str(),
        '\0',
    ) || contains_char(p.architecture.as_str(), '\0') {
        return Some(message("plugin instance ", id, " has invalid binary identity"));
    }
    if p.state_schema_version > 1 {
        return Some(message("plugin instance ", id, " has unsupported state schema"));
    }
    if p.state_blob_bytes > 4 * 1024 * 1024 || p.gui_state_bytes > 1024 * 1024 {
        return Some(message("plugin instance ", id, " exceeds state limits"));
    }
    if p.latency_samples > 16 * 1024 * 1024 {
        return Some(message("plugin instance ", id, " has invalid latency"));
    }
    if p.parameter_value_count > 65_536 || (p.parameter_ids.len() != 0 && p.parameter_ids.len()
        != p.parameter_value_count) || !p.parameter_values_in_range {
        return Some(message("plugin instance ", id, " has invalid parameter state"));
    }
    if !parameter_ids_valid(&p.parameter_ids) {
        return Some(message("plugin instance ", id, " has duplicate or invalid parameter ids"));
    }
    None
}

fn plugin_views(ps: &[PluginInstanceCheck]) -> (r: Vec<&str>)
    ensures
        r@.len() == ps@.len(),
        r@.map_values(|s: &str| s@) == plugin_ids(ps@),
{
    let mut r: Vec<&str> = Vec::new();
    let mut i: usize = 0;
    while i < ps.len()
        invariant
            i <= ps@.len(),
            r@.len() == i,
            forall|x: int| 0 <= x < i ==> #[trigger] r@[x]@ == ps@[x].instance_id@,
        decreases ps.len() - i,
    {
        r.push(ps[i].instance_id.as_str());
        i += 1;
    }
    proof {
        assert(r@.map_values(|s: &str| s@) =~= plugin_ids(ps@));
    }
    r
}

/// The first plug-in with the instance id.
fn plugin_with(ps: &[PluginInstanceCheck], id: &str) -> (r: Option<usize>)
    ensures
        match r {
            Some(t) => t < ps@.len() && find_plugin(ps@, id@, ps@.len() as int) == t,
            None => find_plugin(ps@, id@, ps@.len() as int) < 0,
        },
{
    let mut k: usize = 0;
    while k < ps.len()
        invariant
            k <= ps@.len(),
            find_plugin(ps@, id@, k as int) < 0,
        decreases ps.len() - k,
    {
        if str_eq(ps[k].instance_id.as_str(), id) {
            proof {
                lemma_find_stays(ps@, id@, k + 1, ps@.len() as int);
            }
            return Some(k);
        }
        k += 1;
    }
    None
}

proof fn lemma_find_stays(ps: Seq<PluginInstanceCheck>, id: Seq<char>, k: int, m: int)
    requires
        0 <= k <= m,
        find_plugin(ps, id, k) >= 0,
    ensures
        find_plugin(ps, id, m) == find_plugin(ps, id, k),
    decreases m - k,
{
    if m > k {
        lemma_find_stays(ps, id, k, m - 1);
    }
}

fn text_in(v: &Vec<String>, t: &str) -> (r: bool)
    ensures
        r == texts(v@).contains(t@),
{
    let mut k: usize = 0;
    while k < v.len()
        invariant
            k <= v@.len(),
            forall|x: int| 0 <= x < k ==> v@[x]@ != t@,
        decreases v.len() - k,
    {
        if str_eq(v[k].as_str(), t) {
            proof {
                assert(texts(v@)[k as int] == t@);
            }
            return true;
        }
        k += 1;
    }
    proof {
        if texts(v@).contains(t@) {
            let x = choose|x: int| 0 <= x < texts(v@).len() && texts(v@)[x] == t@;
            assert(v@[x]@ == t@);
        }
    }
    false
}

/// Checks the records against each other and on their own, and reports the
/// first violation: plug-in instances first, then macro mappings, MIDI-learn
/// mappings, warp markers and render targets.
pub fn validate_contracts(
    plugins: &[PluginInstanceCheck],
    mappings: &[MidiLearnCheck],
    macro_mappings: &[MacroMappingCheck],
    markers: &[WarpMarkerCheck],
    targets: &[RenderTargetContract],
) -> (r: Result<(), String>)
    ensures
        match contracts_fault(plugins@, mappings@, macro_mappings@, markers@, targets@) {
            Some(m) => r matches Err(e) && e@ == m,
            None => r is Ok,
        },
{
    let ghost fa = plugin_faults(plugins@);
    let ghost fb = macro_faults(plugins@, macro_mappings@);
    let ghost fc = midi_faults(mappings@);
    let ghost fd = marker_faults(markers@);
    let ghost fe = target_faults(targets@);
    // plug-in instances
    let pids = plugin_views(plugins);
    let mut i: usize = 0;
    while i < plugins.len()
        invariant
            i <= plugins@.len(),
            pids@.map_values(|s: &str| s@) == plugin_ids(plugins@),
            pids@.len() == plugins@.len(),
            fa == plugin_faults(plugins@),
            fb == macro_faults(plugins@, macro_mappings@),
            fc == midi_faults(mappings@),
            fd == marker_faults(markers@),
            fe == target_faults(targets@),
            first_fault(fa, i as int) is None,
        decreases plugins.len() - i,
    {
        let fault = plugin_fault_at(plugins, &pids, i);
        proof {
            assert(fa(i as int) == plugin_fault(plugins@, i as int));
        }
        match fault {
            Some(e) => {
                proof {
                    lemma_first_fault_stays(fa, i + 1, plugins@.len() as int);
                }
                return Err(e);
            },
            None => {},
        }
        i += 1;
    }
    // macro mappings
    let mut mids: Vec<&str> = Vec::new();
    let mut i: usize = 0;
    while i < macro_mappings.len()
        invariant
            i <= macro_mappings@.len(),
            fa == plugin_faults(plugins@),
            fb == macro_faults(plugins@, macro_mappings@),
            fc == midi_faults(mappings@),
            fd == marker_faults(markers@),
            fe == target_faults(targets@),
            first_fault(fa, plugins@.len() as int) is None,
            mids@.len() == i,
            forall|x: int| 0 <= x < i ==> #[trigger] mids@[x]@ == macro_mappings@[x].mapping_id@,
            first_fault(fb, i as int) is None,
        decreases macro_mappings.len() - i,
    {
        mids.push(macro_mappings[i].mapping_id.as_str());
        let m = &macro_mappings[i];
        proof {
            assert(mids@.map_values(|s: &str| s@) =~= macro_ids(macro_mappings@).take(i + 1));
        }
        let taken = blank_or_taken_at(&mids, i);
        proof {
            assert(blank_or_taken(mids@.map_values(|s: &str| s@), i as int) == blank_or_taken(
                macro_ids(macro_mappings@),
                i as int,
            )) by {
                let a = mids@.map_values(|s: &str| s@);
                let b = macro_ids(macro_mappings@);
                assert forall|j: int| 0 <= j <= i implies a[j] == b[j] by {}
            }
        }
        let fault: Option<String> = if taken {
            Some(copy_str("macro mapping ids must be non-empty and unique"))
        } else {
            match plugin_with(plugins, m.target_instance_id.as_str()) {
                None => Some(message("macro mapping ", m.mapping_id.as_str(), " targets an unknown plugin")),
                Some(t) => {
                    let target = &plugins[t];
                    if m.macro_index >= 128 || blank(m.target_parameter_id.as_str()) || (target.parameter_ids.len()
                        != 0 && !text_in(&target.parameter_ids, m.target_parameter_id.as_str())) || !m.range_ok {
                        Some(message("macro mapping ", m.mapping_id.as_str(), " is invalid"))
                    } else {
                        None
                    }
                },
            }
        };
        match fault {
            Some(e) => {
                proof {
                    assert(fb(i as int) == macro_fault(plugins@, macro_mappings@, i as int));
                    assert(fb(i as int) == Some(e@));
                    lemma_first_fault_stays(fb, i + 1, macro_mappings@.len() as int);
                }
                return Err(e);
            },
            None => {
                proof {
                    assert(fb(i as int) == macro_fault(plugins@, macro_mappings@, i as int));
                    assert(fb(i as int) is None);
                }
            },
        }
        i += 1;
    }
    // MIDI-learn mappings
    let mut ids: Vec<&str> = Vec::new();
    let mut i: usize = 0;
    while i < mappings.len()
        invariant
            i <= mappings@.len(),
            fa == plugin_faults(plugins@),
            fb == macro_faults(plugins@, macro_mappings@),
            fc == midi_faults(mappings@),
            fd == marker_faults(markers@),
            fe == target_faults(targets@),
            first_fault(fa, plugins@.len() as int) is None,
            first_fault(fb, macro_mappings@.len() as int) is None,
            ids@.len() == i,
            forall|x: int| 0 <= x < i ==> #[trigger] ids@[x]@ == mappings@[x].mapping_id@,
            first_fault(fc, i as int) is None,
        decreases mappings.len() - i,
    {
        ids.push(mappings[i].mapping_id.as_str());
        let m = &mappings[i];
        let taken = blank_or_taken_at(&ids, i);
        proof {
            let a = ids@.map_values(|s: &str| s@);
            let b = midi_ids(mappings@);
            assert forall|j: int| 0 <= j <= i implies a[j] == b[j] by {}
            assert(blank_or_taken(a, i as int) == blank_or_taken(b, i as int));
        }
        let fault: Option<String> = if taken {
            Some(copy_str("MIDI mapping ids must be non-empty and unique"))
        } else if blank(m.device_id.as_str()) || blank(m.target_instance_id.as_str()) || blank(
            m.target_parameter_id.as_str(),
        ) || m.channel > 15 || m.controller > 16_383 || !m.range_ok {
            Some(message("MIDI mapping ", m.mapping_id.as_str(), " is invalid"))
        } else {
            None
        };
        match fault {
            Some(e) => {
                proof {
                    assert(fc(i as int) == midi_fault(mappings@, i as int));
                    assert(fc(i as int) == Some(e@));
                    lemma_first_fault_stays(fc, i + 1, mappings@.len() as int);
                }
                return Err(e);
            },
            None => {
                proof {
                    assert(fc(i as int) == midi_fault(mappings@, i as int));
                    assert(fc(i as int) is None);
                }
            },
        }
        i += 1;
    }
    // warp markers
    let mut ids: Vec<&str> = Vec::new();
    let mut i: usize = 0;
    while i < markers.len()
        invariant
            i <= markers@.len(),
            fa == plugin_faults(plugins@),
            fb == macro_faults(plugins@, macro_mappings@),
            fc == midi_faults(mappings@),
            fd == marker_faults(markers@),
            fe == target_faults(targets@),
            first_fault(fa, plugins@.len() as int) is None,
            first_fault(fb, macro_mappings@.len() as int) is None,
            first_fault(fc, mappings@.len() as int) is None,
            ids@.len() == i,
            forall|x: int| 0 <= x < i ==> #[trigger] ids@[x]@ == markers@[x].marker_id@,
            first_fault(fd, i as int) is None,
        decreases markers.len() - i,
    {
        ids.push(markers[i].marker_id.as_str());
        let taken = blank_or_taken_at(&ids, i);
        proof {
            let a = ids@.map_values(|s: &str| s@);
            let b = marker_ids(markers@);
            assert forall|j: int| 0 <= j <= i implies a[j] == b[j] by {}
            assert(blank_or_taken(a, i as int) == blank_or_taken(b, i as int));
        }
        let fault: Option<String> = if taken {
            Some(copy_str("warp marker ids must be non-empty and unique"))
        } else if !markers[i].pitch_ok {
            Some(message("warp marker ", markers[i].marker_id.as_str(), " has invalid pitch"))
        } else {
            None
        };
        match fault {
            Some(e) => {
                proof {
                    assert(fd(i as int) == marker_fault(markers@, i as int));
                    assert(fd(i as int) == Some(e@));
                    lemma_first_fault_stays(fd, i + 1, markers@.len() as int);
                }
                return Err(e);
            },
            None => {
                proof {
                    assert(fd(i as int) == marker_fault(markers@, i as int));
                    assert(fd(i as int) is None);
                }
            },
        }
        i += 1;
    }
    // render targets
    let mut ids: Vec<&str> = Vec::new();
    let mut i: usize = 0;
    while i < targets.len()
        invariant
            i <= targets@.len(),
            fa == plugin_faults(plugins@),
            fb == macro_faults(plugins@, macro_mappings@),
            fc == midi_faults(mappings@),
            fd == marker_faults(markers@),
            fe == target_faults(targets@),
            first_fault(fa, plugins@.len() as int) is None,
            first_fault(fb, macro_mappings@.len() as int) is None,
            first_fault(fc, mappings@.len() as int) is None,
            first_fault(fd, markers@.len() as int) is None,
            ids@.len() == i,
            forall|x: int| 0 <= x < i ==> #[trigger] ids@[x]@ == targets@[x].target_id@,
            first_fault(fe, i as int) is None,
        decreases targets.len() - i,
    {
        ids.push(targets[i].target_id.as_str());
        let taken = blank_or_taken_at(&ids, i);
        proof {
            let a = ids@.map_values(|s: &str| s@);
            let b = target_ids(targets@);
            assert forall|j: int| 0 <= j <= i implies a[j] == b[j] by {}
            assert(blank_or_taken(a, i as int) == blank_or_taken(b, i as int));
        }
        let fault: Option<String> = if taken {
            Some(copy_str("render target ids must be non-empty and unique"))
        } else if targets[i].offline_generation == 0 {
            Some(message("render target ", targets[i].target_id.as_str(), " has no offline generation"))
        } else {
            None
        };
        match fault {
            Some(e) => {
                proof {
                    assert(fe(i as int) == target_fault(targets@, i as int));
                    assert(fe(i as int) == Some(e@));
                    lemma_first_fault_stays(fe, i + 1, targets@.len() as int);
                }
                return Err(e);
            },
            None => {
                proof {
                    assert(fe(i as int) == target_fault(targets@, i as int));
                    assert(fe(i as int) is None);
                }
            },
        }
        i += 1;
    }
    Ok(())
}

proof fn lemma_first_fault_stays(f: spec_fn(int) -> Option<Seq<char>>, k: int, m: int)
    requires
        0 < k <= m,
        first_fault(f, k - 1) is None,
        f(k - 1) is Some,
    ensures
        first_fault(f, m) == f(k - 1),
    decreases m - k,
{
    if m > k {
        lemma_first_fault_stays(f, k, m - 1);
    }
}

proof fn lemma_first_fault_found(fault: spec_fn(int) -> Option<Seq<char>>, j: int, k: int)
    requires
        0 <= j < k,
        fault(j) is Some,
    ensures
        first_fault(fault, k) is Some,
    decreases k,
{
    if j < k - 1 {
        lemma_first_fault_found(fault, j, k - 1);
    }
}

proof fn lemma_first_fault_at(fault: spec_fn(int) -> Option<Seq<char>>, j: int, k: int)
    requires
        0 <= j < k,
        fault(j) is Some,
        forall|x: int| 0 <= x < j ==> #[trigger] fault(x) is None,
    ensures
        first_fault(fault, k) == fault(j),
    decreases k,
{
    if j < k - 1 {
        lemma_first_fault_at(fault, j, k - 1);
    } else {
        lemma_no_fault(fault, j);
    }
}

proof fn lemma_no_fault(fault: spec_fn(int) -> Option<Seq<char>>, k: int)
    requires
        forall|x: int| 0 <= x < k ==> #[trigger] fault(x) is None,
    ensures
        first_fault(fault, k) is None,
    decreases k,
{
    if k > 0 {
        lemma_no_fault(fault, k - 1);
    }
}

/// Render targets need an offline generation.  A target whose generation
/// is 0 makes the contracts invalid, whatever the other records hold.
/// With no other records and target ids that are non-blank and distinct,
/// the first such target is reported as "render target <id> has no offline
/// generation", and without one the contracts are valid.
pub proof fn lemma_targets_need_a_generation(
    plugins: Seq<PluginInstanceCheck>,
    mappings: Seq<MidiLearnCheck>,
    macros: Seq<MacroMappingCheck>,
    markers: Seq<WarpMarkerCheck>,
    targets: Seq<RenderTargetContract>,
)
    ensures
        (exists|i: int| 0 <= i < targets.len() && #[trigger] targets[i].offline_generation == 0) ==> contracts_fault(
            plugins,
            mappings,
            macros,
            markers,
            targets,
        ) is Some,
        ({
            let clean = plugins.len() == 0 && mappings.len() == 0 && macros.len() == 0 && markers.len() == 0
                && (forall|i: int| 0 <= i < targets.len() ==> !is_blank(#[trigger] targets[i].target_id@))
                && (forall|i: int, j: int|
                0 <= i < j < targets.len() ==> #[trigger] targets[i].target_id@ != #[trigger] targets[j].target_id@);
            &&& clean && (forall|i: int| 0 <= i < targets.len() ==> #[trigger] targets[i].offline_generation != 0)
                ==> contracts_fault(plugins, mappings, macros, markers, targets) is None
            &&& forall|i: int|
                clean && 0 <= i < targets.len() && #[trigger] targets[i].offline_generation == 0 && (forall|j: int|
                    0 <= j < i ==> targets[j].offline_generation != 0) ==> contracts_fault(
                    plugins,
                    mappings,
                    macros,
                    markers,
                    targets,
                ) == Some("render target "@ + targets[i].target_id@ + " has no offline generation"@)
        }),
{
    let n = targets.len() as int;
    let f = target_faults(targets);
    if exists|i: int| 0 <= i < n && #[trigger] targets[i].offline_generation == 0 {
        let i = choose|i: int| 0 <= i < n && #[trigger] targets[i].offline_generation == 0;
        assert(f(i) is Some);
        lemma_first_fault_found(f, i, n);
    }
    let clean = plugins.len() == 0 && mappings.len() == 0 && macros.len() == 0 && markers.len() == 0
        && (forall|i: int| 0 <= i < targets.len() ==> !is_blank(#[trigger] targets[i].target_id@))
        && (forall|i: int, j: int|
        0 <= i < j < targets.len() ==> #[trigger] targets[i].target_id@ != #[trigger] targets[j].target_id@);
    if clean {
        assert forall|x: int| 0 <= x < n implies !blank_or_taken(target_ids(targets), x) by {
            assert(target_ids(targets)[x] == targets[x].target_id@);
            if exists|j: int| 0 <= j < x && target_ids(targets)[j] == target_ids(targets)[x] {
                let j = choose|j: int| 0 <= j < x && target_ids(targets)[j] == target_ids(targets)[x];
                assert(target_ids(targets)[j] == targets[j].target_id@);
            }
        }
        if forall|i: int| 0 <= i < n ==> #[trigger] targets[i].offline_generation != 0 {
            assert forall|x: int| 0 <= x < n implies #[trigger] f(x) is None by {
                assert(!blank_or_taken(target_ids(targets), x));
            }
            lemma_no_fault(f, n);
        }
        assert forall|i: int|
            0 <= i < n && #[trigger] targets[i].offline_generation == 0 && (forall|j: int|
                0 <= j < i ==> targets[j].offline_generation != 0) implies contracts_fault(
            plugins,
            mappings,
            macros,
            markers,
            targets,
        ) == Some("render target "@ + targets[i].target_id@ + " has no offline generation"@) by {
            assert forall|x: int| 0 <= x < i implies #[trigger] f(x) is None by {
                assert(!blank_or_taken(target_ids(targets), x));
            }
            assert(!blank_or_taken(target_ids(targets), i));
            lemma_first_fault_at(f, i, n);
        }
    }
}

} // verus!

