//! Loading a saved track layout into project state: track ids must be
//! distinct, sidechain routes must end at their track and feedback routes
//! start at it, a frozen track needs its readable cache with sound metadata,
//! and the plug-in bypass flags, parameter lists, state blobs in hex and
//! their schema versions must agree with the plug-ins. The first violation,
//! track by track, refuses the whole layout.
use vstd::prelude::*;
use vstd::utf8::encode_utf8;
use crate::persistence::{checksum_of, PersistenceOrchestrator};
use crate::plugin_state::{all_hex, decode_hex, hex_decoded, plugin_bypasses, state_versions, PLUGIN_STATE_SCHEMA_VERSION};
use crate::project_contracts::{FreezeArtifactContract, SidechainRouteContract};
use crate::text::{blank, copy_str, decimal, is_blank, push_decimal, push_str};

verus! {

/// A track of a saved layout as loading reads it. The floating-point parts
/// (gains, automation, parameter values) are left to the caller; of the
/// feedback routes come their ends and whether each gain is finite within
/// `0..=2`, of the parameter value lists their lengths, and of a frozen
/// track the bytes of its cache file when it could be read.
pub struct LayoutTrackPlain {
    pub id: u32,
    pub sidechain_routes: Vec<SidechainRouteContract>,
    pub feedback_ends: Vec<(u32, u32)>,
    pub feedback_gains_ok: Vec<bool>,
    pub frozen: bool,
    pub frozen_path: String,
    pub frozen_total_samples: u64,
    pub frozen_sample_rate: u32,
    pub frozen_bytes: Option<Vec<u8>>,
    pub plugin_types: Vec<u32>,
    pub plugin_bypasses: Vec<bool>,
    pub plugin_parameter_counts: Vec<usize>,
    pub plugin_state_hex: Vec<String>,
    pub plugin_gui_state_hex: Vec<String>,
    pub plugin_state_versions: Vec<u32>,
    pub sandbox_plugin_state_hex: Vec<String>,
    pub sandbox_plugin_state_versions: Vec<u32>,
}

/// The plug-in state of a loaded track.
pub struct HydratedTrack {
    pub id: u32,
    pub plugin_bypasses: Vec<bool>,
    pub plugin_states: Vec<Vec<u8>>,
    pub plugin_gui_states: Vec<Vec<u8>>,
    pub plugin_state_versions: Vec<u32>,
    pub sandbox_plugin_states: Vec<Vec<u8>>,
    pub sandbox_plugin_state_versions: Vec<u32>,
}

/// What a layout loads into: the tracks' plug-in state, the routes and the
/// freeze artifacts, each in track order.
pub struct HydratedLayout {
    pub tracks: Vec<HydratedTrack>,
    pub sidechain_routes: Vec<SidechainRouteContract>,
    pub feedback_ends: Vec<(u32, u32)>,
    pub freeze_artifacts: Vec<FreezeArtifactContract>,
}

pub type TrackView = (u32, Seq<bool>, Seq<Seq<u8>>, Seq<Seq<u8>>, Seq<u32>, Seq<Seq<u8>>, Seq<u32>);

pub type ArtifactView = (u32, u64, u64, u64, u32, Seq<char>, u64);

pub type RouteView = (u32, u32, u32, u32);

pub open spec fn blobs(v: Seq<Vec<u8>>) -> Seq<Seq<u8>> {
    v.map_values(|b: Vec<u8>| b@)
}

pub open spec fn track_view(h: HydratedTrack) -> TrackView {
    (
        h.id,
        h.plugin_bypasses@,
        blobs(h.plugin_states@),
        blobs(h.plugin_gui_states@),
        h.plugin_state_versions@,
        blobs(h.sandbox_plugin_states@),
        h.sandbox_plugin_state_versions@,
    )
}

pub open spec fn artifact_view(a: FreezeArtifactContract) -> ArtifactView {
    (a.track_id, a.project_generation, a.audio_generation, a.total_samples, a.sample_rate, a.path@, a.content_checksum)
}

pub open spec fn route_view(r: SidechainRouteContract) -> RouteView {
    (r.source_id, r.destination_id, r.plugin_index, r.tap_point)
}

pub open spec fn routes_view(rs: Seq<SidechainRouteContract>) -> Seq<RouteView> {
    rs.map_values(|r: SidechainRouteContract| route_view(r))
}

/// A state blob in hex, decoded (see `decode_hex`).
pub open spec fn hex_result(s: Seq<char>) -> Result<Seq<u8>, Seq<char>> {
    let bs = encode_utf8(s);
    if bs.len() % 2 == 1 {
        Err("plugin state hex has odd length"@)
    } else if !all_hex(bs) {
        Err("plugin state contains invalid hex"@)
    } else {
        Ok(hex_decoded(bs))
    }
}

/// The first `k` blobs decoded, or the first refusal.
pub open spec fn hex_all(hs: Seq<String>, k: int) -> Result<Seq<Seq<u8>>, Seq<char>>
    decreases k,
{
    if k <= 0 {
        Ok(Seq::empty())
    } else {
        match hex_all(hs, k - 1) {
            Err(e) => Err(e),
            Ok(v) => match hex_result(hs[k - 1]@) {
                Err(e) => Err(e),
                Ok(b) => Ok(v.push(b)),
            },
        }
    }
}

/// The first version among the first `k` that is unknown, if any.
pub open spec fn first_bad_version(vs: Seq<u32>, k: int) -> Option<u32>
    decreases k,
{
    if k <= 0 {
        None
    } else if first_bad_version(vs, k - 1) is Some {
        first_bad_version(vs, k - 1)
    } else if vs[k - 1] > PLUGIN_STATE_SCHEMA_VERSION {
        Some(vs[k - 1])
    } else {
        None
    }
}

/// The versions of `count` blobs (see `state_versions`).
pub open spec fn versions_result(vs: Seq<u32>, count: nat) -> Result<Seq<u32>, Seq<char>> {
    if vs.len() == 0 {
        Ok(Seq::new(count, |i: int| PLUGIN_STATE_SCHEMA_VERSION))
    } else if vs.len() != count {
        Err("plugin state version count does not match state count"@)
    } else {
        match first_bad_version(vs, vs.len() as int) {
            Some(v) => Err("unsupported plugin state version "@ + decimal(v as nat)),
            None => Ok(Seq::new(count, |i: int| PLUGIN_STATE_SCHEMA_VERSION)),
        }
    }
}

/// The bypass flags of `count` plug-ins (see `plugin_bypasses`).
pub open spec fn bypass_result(vs: Seq<bool>, count: nat) -> Result<Seq<bool>, Seq<char>> {
    if vs.len() == 0 {
        Ok(Seq::new(count, |i: int| false))
    } else if vs.len() != count {
        Err("plugin bypass/type counts differ"@)
    } else {
        Ok(vs)
    }
}

/// Why the parameter lists of `count` plug-ins are refused, if they are.
pub open spec fn parameters_fault(counts: Seq<usize>, count: nat) -> Option<Seq<char>> {
    if counts.len() == 0 {
        None
    } else if counts.len() != count {
        Some("plugin parameter/type counts differ"@)
    } else if exists|i: int| 0 <= i < counts.len() && #[trigger] counts[i] > 65_536 {
        Some("plugin parameter values exceed aggregate limit"@)
    } else {
        None
    }
}

/// A sidechain route of track `id` is refused when it loops on one track,
/// ends at another track or taps past the last tap point.
pub open spec fn sidechain_bad(r: SidechainRouteContract, id: u32) -> bool {
    r.source_id == r.destination_id || r.destination_id != id || r.tap_point > 2
}

/// A feedback route of track `id` is refused when it loops on one track,
/// starts at another track or its gain is not finite within `0..=2`.
pub open spec fn feedback_bad(e: (u32, u32), gain_ok: bool, id: u32) -> bool {
    e.0 == e.1 || e.0 != id || !gain_ok
}

pub open spec fn gain_ok_at(t: LayoutTrackPlain, k: int) -> bool {
    k < t.feedback_gains_ok@.len() && t.feedback_gains_ok@[k]
}

/// What loading gives of one track once its id and routes are accepted:
/// its freeze artifact, if frozen, and its plug-in state; or the first
/// refusal.
pub open spec fn track_rest(t: LayoutTrackPlain) -> Result<(TrackView, Seq<ArtifactView>), Seq<char>> {
    let n = t.plugin_types@.len();
    let id = t.id;
    let frozen_used = t.frozen && !is_blank(t.frozen_path@);
    if frozen_used && t.frozen_bytes is None {
        Err("frozen audio cache is unreadable: "@ + t.frozen_path@)
    } else if frozen_used && (t.frozen_total_samples == 0 || t.frozen_sample_rate == 0) {
        Err("frozen audio metadata is invalid for track "@ + decimal(id as nat))
    } else {
        let art: Seq<ArtifactView> = if frozen_used {
            seq![(id, 1u64, 1u64, t.frozen_total_samples, t.frozen_sample_rate, t.frozen_path@, checksum_of(t.frozen_bytes->0@))]
        } else {
            Seq::empty()
        };
        match bypass_result(t.plugin_bypasses@, n) {
            Err(e) => Err(e),
            Ok(bypasses) => match parameters_fault(t.plugin_parameter_counts@, n) {
                Some(e) => Err(e),
                None => match hex_all(t.plugin_state_hex@, t.plugin_state_hex@.len() as int) {
                    Err(e) => Err(e),
                    Ok(states) => match hex_all(t.plugin_gui_state_hex@, t.plugin_gui_state_hex@.len() as int) {
                        Err(e) => Err(e),
                        Ok(gui0) => {
                            let gui = if gui0.len() == 0 {
                                Seq::new(n, |i: int| Seq::<u8>::empty())
                            } else {
                                gui0
                            };
                            match versions_result(t.plugin_state_versions@, t.plugin_state_hex@.len()) {
                                Err(e) => Err(e),
                                Ok(versions) => match hex_all(
                                    t.sandbox_plugin_state_hex@,
                                    t.sandbox_plugin_state_hex@.len() as int,
                                ) {
                                    Err(e) => Err(e),
                                    Ok(sandbox) => match versions_result(
                                        t.sandbox_plugin_state_versions@,
                                        t.sandbox_plugin_state_hex@.len(),
                                    ) {
                                        Err(e) => Err(e),
                                        Ok(sandbox_versions) => Ok(
                                            ((id, bypasses, states, gui, versions, sandbox, sandbox_versions), art),
                                        ),
                                    },
                                },
                            }
                        },
                    },
                },
            },
        }
    }
}

/// Why track `i` is refused before its own state is read: a repeated id,
/// then a bad sidechain route, then a bad feedback route.
pub open spec fn track_head_fault(tracks: Seq<LayoutTrackPlain>, i: int) -> Option<Seq<char>> {
    let t = tracks[i];
    if exists|j: int| 0 <= j < i && tracks[j].id == t.id {
        Some("duplicate track id "@ + decimal(t.id as nat))
    } else if exists|k: int| 0 <= k < t.sidechain_routes@.len() && sidechain_bad(#[trigger] t.sidechain_routes@[k], t.id) {
        Some("invalid sidechain route for track "@ + decimal(t.id as nat))
    } else if exists|k: int| 0 <= k < t.feedback_ends@.len() && feedback_bad(#[trigger] t.feedback_ends@[k], gain_ok_at(t, k), t.id) {
        Some("invalid feedback route for track "@ + decimal(t.id as nat))
    } else {
        None
    }
}

pub type LayoutView = (Seq<TrackView>, Seq<RouteView>, Seq<(u32, u32)>, Seq<ArtifactView>);

/// The first `k` tracks loaded, or the first refusal.
pub open spec fn hydrate_upto(tracks: Seq<LayoutTrackPlain>, k: int) -> Result<LayoutView, Seq<char>>
    decreases k,
{
    if k <= 0 {
        Ok((Seq::empty(), Seq::empty(), Seq::empty(), Seq::empty()))
    } else {
        match hydrate_upto(tracks, k - 1) {
            Err(e) => Err(e),
            Ok(acc) => match track_head_fault(tracks, k - 1) {
                Some(e) => Err(e),
                None => match track_rest(tracks[k - 1]) {
                    Err(e) => Err(e),
                    Ok(r) => Ok(
                        (
                            acc.0.push(r.0),
                            acc.1 + routes_view(tracks[k - 1].sidechain_routes@),
                            acc.2 + tracks[k - 1].feedback_ends@,
                            acc.3 + r.1,
                        ),
                    ),
                },
            },
        }
    }
}

pub open spec fn layout_view(h: HydratedLayout) -> LayoutView {
    (
        h.tracks@.map_values(|t: HydratedTrack| track_view(t)),
        routes_view(h.sidechain_routes@),
        h.feedback_ends@,
        h.freeze_artifacts@.map_values(|a: FreezeArtifactContract| artifact_view(a)),
    )
}

fn decode_all(hs: &Vec<String>) -> (r: Result<Vec<Vec<u8>>, String>)
    ensures
        match hex_all(hs@, hs@.len() as int) {
            Ok(v) => r matches Ok(x) && blobs(x@) == v,
            Err(e) => r matches Err(x) && x@ == e,
        },
{
    let mut out: Vec<Vec<u8>> = Vec::new();
    let mut i: usize = 0;
    while i < hs.len()
        invariant
            i <= hs@.len(),
            out@.len() == i,
            hex_all(hs@, i as int) is Ok,
            hex_all(hs@, i as int)->Ok_0 == blobs(out@),
        decreases hs.len() - i,
    {
        match decode_hex(hs[i].as_str()) {
            Ok(b) => {
                let ghost o0 = blobs(out@);
                out.push(b);
                proof {
                    assert(blobs(out@) =~= o0.push(out@[i as int]@));
                }
            },
            Err(e) => {
                proof {
                    lemma_hex_err_stays(hs@, i + 1, hs@.len() as int);
                }
                return Err(e);
            },
        }
        i += 1;
    }
    Ok(out)
}

proof fn lemma_hex_err_stays(hs: Seq<String>, k: int, m: int)
    requires
        0 < k <= m,
        hex_all(hs, k) is Err,
    ensures
        hex_all(hs, m) == hex_all(hs, k),
    decreases m - k,
{
    if m > k {
        lemma_hex_err_stays(hs, k, m - 1);
    }
}

proof fn lemma_first_bad(vs: Seq<u32>, k: int, m: int)
    requires
        0 <= k < m <= vs.len(),
        vs[k] > PLUGIN_STATE_SCHEMA_VERSION,
        forall|j: int| 0 <= j < k ==> #[trigger] vs[j] <= PLUGIN_STATE_SCHEMA_VERSION,
    ensures
        first_bad_version(vs, m) == Some(vs[k]),
    decreases m,
{
    if m > k + 1 {
        lemma_first_bad(vs, k, m - 1);
    } else {
        lemma_no_bad(vs, k);
    }
}

proof fn lemma_no_bad(vs: Seq<u32>, m: int)
    requires
        0 <= m <= vs.len(),
        forall|j: int| 0 <= j < m ==> #[trigger] vs[j] <= PLUGIN_STATE_SCHEMA_VERSION,
    ensures
        first_bad_version(vs, m) is None,
    decreases m,
{
    if m > 0 {
        lemma_no_bad(vs, m - 1);
    }
}

fn versions_of(vs: &Vec<u32>, count: usize) -> (r: Result<Vec<u32>, String>)
    ensures
        match versions_result(vs@, count as nat) {
            Ok(v) => r matches Ok(x) && x@ == v,
            Err(e) => r matches Err(x) && x@ == e,
        },
{
    let r = state_versions(vs.as_slice(), count);
    proof {
        if vs@.len() > 0 && vs@.len() == count {
            match &r {
                Ok(_) => {
                    lemma_no_bad(vs@, vs@.len() as int);
                },
                Err(e) => {
                    let k = choose|k: int|
                        0 <= k < vs@.len() && vs@[k] > PLUGIN_STATE_SCHEMA_VERSION && (forall|j: int|
                            0 <= j < k ==> #[trigger] vs@[j] <= PLUGIN_STATE_SCHEMA_VERSION) && e@
                            == "unsupported plugin state version "@ + decimal(vs@[k] as nat);
                    lemma_first_bad(vs@, k, vs@.len() as int);
                },
            }
        }
    }
    r
}

fn decimal_text(prefix: &str, n: u32) -> (r: String)
    ensures
        r@ == prefix@ + decimal(n as nat),
{
    let mut s = copy_str(prefix);
    push_decimal(&mut s, n as u64);
    s
}

fn copy_route(r: &SidechainRouteContract) -> (c: SidechainRouteContract)
    ensures
        route_view(c) == route_view(*r),
{
    SidechainRouteContract {
        source_id: r.source_id,
        destination_id: r.destination_id,
        plugin_index: r.plugin_index,
        tap_point: r.tap_point,
    }
}

/// Loads one track whose id and routes are accepted.
fn load_track(t: &LayoutTrackPlain) -> (r: Result<(HydratedTrack, Option<FreezeArtifactContract>), String>)
    ensures
        match track_rest(*t) {
            Ok(v) => r matches Ok(x) && track_view(x.0) == v.0 && match x.1 {
                Some(a) => v.1 == seq![artifact_view(a)],
                None => v.1.len() == 0,
            },
            Err(e) => r matches Err(x) && x@ == e,
        },
{
    let n = t.plugin_types.len();
    let frozen_used = t.frozen && !blank(t.frozen_path.as_str());
    let mut art: Option<FreezeArtifactContract> = None;
    if frozen_used {
        match &t.frozen_bytes {
            None => {
                let mut e = copy_str("frozen audio cache is unreadable: ");
                push_str(&mut e, t.frozen_path.as_str());
                return Err(e);
            },
            Some(bytes) => {
                if t.frozen_total_samples == 0 || t.frozen_sample_rate == 0 {
                    return Err(decimal_text("frozen audio metadata is invalid for track ", t.id));
                }
                art = Some(
                    FreezeArtifactContract {
                        track_id: t.id,
                        project_generation: 1,
                        audio_generation: 1,
                        total_samples: t.frozen_total_samples,
                        sample_rate: t.frozen_sample_rate,
                        path: copy_str(t.frozen_path.as_str()),
                        content_checksum: PersistenceOrchestrator::calculate_checksum(bytes.as_slice()),
                    },
                );
            },
        }
    }
    let bypasses = match plugin_bypasses(t.plugin_bypasses.as_slice(), n) {
        Ok(v) => v,
        Err(e) => return Err(e),
    };
    if t.plugin_parameter_counts.len() != 0 {
        if t.plugin_parameter_counts.len() != n {
            return Err(copy_str("plugin parameter/type counts differ"));
        }
        if !counts_within(&t.plugin_parameter_counts) {
            return Err(copy_str("plugin parameter values exceed aggregate limit"));
        }
    }
    let states = match decode_all(&t.plugin_state_hex) {
        Ok(v) => v,
        Err(e) => return Err(e),
    };
    let gui0 = match decode_all(&t.plugin_gui_state_hex) {
        Ok(v) => v,
        Err(e) => return Err(e),
    };
    let gui = if gui0.len() == 0 {
        let mut g: Vec<Vec<u8>> = Vec::new();
        let mut i: usize = 0;
        while i < n
            invariant
                i <= n,
                g@.len() == i,
                blobs(g@) == Seq::new(i as nat, |k: int| Seq::<u8>::empty()),
            decreases n - i,
        {
            let ghost g0 = blobs(g@);
            g.push(Vec::new());
            proof {
                assert(g@[i as int]@ == Seq::<u8>::empty());
                assert(blobs(g@) =~= g0.push(Seq::<u8>::empty()));
                assert(blobs(g@) =~= Seq::new((i + 1) as nat, |k: int| Seq::<u8>::empty()));
            }
            i += 1;
        }
        g
    } else {
        gui0
    };
    let versions = match versions_of(&t.plugin_state_versions, t.plugin_state_hex.len()) {
        Ok(v) => v,
        Err(e) => return Err(e),
    };
    let sandbox = match decode_all(&t.sandbox_plugin_state_hex) {
        Ok(v) => v,
        Err(e) => return Err(e),
    };
    let sandbox_versions = match versions_of(&t.sandbox_plugin_state_versions, t.sandbox_plugin_state_hex.len()) {
        Ok(v) => v,
        Err(e) => return Err(e),
    };
    let h = HydratedTrack {
        id: t.id,
        plugin_bypasses: bypasses,
        plugin_states: states,
        plugin_gui_states: gui,
        plugin_state_versions: versions,
        sandbox_plugin_states: sandbox,
        sandbox_plugin_state_versions: sandbox_versions,
    };
    Ok((h, art))
}

fn counts_within(counts: &Vec<usize>) -> (r: bool)
    ensures
        r == !(exists|i: int| 0 <= i < counts@.len() && #[trigger] counts@[i] > 65_536),
{
    let mut i: usize = 0;
    while i < counts.len()
        invariant
            i <= counts@.len(),
            forall|j: int| 0 <= j < i ==> #[trigger] counts@[j] <= 65_536,
        decreases counts.len() - i,
    {
        if counts[i] > 65_536 {
            proof {
                assert(counts@[i as int] > 65_536);
            }
            return false;
        }
        i += 1;
    }
    true
}

/// Whether track `i` repeats an earlier id, has a bad sidechain route or a
/// bad feedback route, and the refusal if so.
fn head_fault(tracks: &Vec<LayoutTrackPlain>, i: usize) -> (r: Option<String>)
    requires
        i < tracks@.len(),
    ensures
        match track_head_fault(tracks@, i as int) {
            Some(e) => r matches Some(x) && x@ == e,
            None => r is None,
        },
{
    let t = &tracks[i];
    let mut j: usize = 0;
    while j < i
        invariant
            j <= i < tracks@.len(),
            *t == tracks@[i as int],
            forall|x: int| 0 <= x < j ==> tracks@[x].id != tracks@[i as int].id,
        decreases i - j,
    {
        if tracks[j].id == t.id {
            proof {
                assert(tracks@[j as int].id == tracks@[i as int].id);
            }
            return Some(decimal_text("duplicate track id ", t.id));
        }
        j += 1;
    }
    let mut k: usize = 0;
    while k < t.sidechain_routes.len()
        invariant
            k <= t.sidechain_routes@.len(),
            *t == tracks@[i as int],
            i < tracks@.len(),
            !(exists|j: int| 0 <= j < i && tracks@[j].id == tracks@[i as int].id),
            forall|x: int| 0 <= x < k ==> !sidechain_bad(#[trigger] t.sidechain_routes@[x], t.id),
        decreases t.sidechain_routes.len() - k,
    {
        let r = &t.sidechain_routes[k];
        if r.source_id == r.destination_id || r.destination_id != t.id || r.tap_point > 2 {
            proof {
                assert(sidechain_bad(t.sidechain_routes@[k as int], t.id));
            }
            return Some(decimal_text("invalid sidechain route for track ", t.id));
        }
        k += 1;
    }
    let mut k: usize = 0;
    while k < t.feedback_ends.len()
        invariant
            k <= t.feedback_ends@.len(),
            *t == tracks@[i as int],
            i < tracks@.len(),
            !(exists|j: int| 0 <= j < i && tracks@[j].id == tracks@[i as int].id),
            !(exists|x: int| 0 <= x < t.sidechain_routes@.len() && sidechain_bad(#[trigger] t.sidechain_routes@[x], t.id)),
            forall|x: int| 0 <= x < k ==> !feedback_bad(#[trigger] t.feedback_ends@[x], gain_ok_at(*t, x), t.id),
        decreases t.feedback_ends.len() - k,
    {
        let e = t.feedback_ends[k];
        let gain_ok = k < t.feedback_gains_ok.len() && t.feedback_gains_ok[k];
        if e.0 == e.1 || e.0 != t.id || !gain_ok {
            proof {
                assert(gain_ok == gain_ok_at(*t, k as int));
                assert(feedback_bad(t.feedback_ends@[k as int], gain_ok_at(*t, k as int), t.id));
            }
            return Some(decimal_text("invalid feedback route for track ", t.id));
        }
        k += 1;
    }
    None
}

proof fn lemma_hydrate_err_stays(tracks: Seq<LayoutTrackPlain>, k: int, m: int)
    requires
        0 < k <= m,
        hydrate_upto(tracks, k) is Err,
    ensures
        hydrate_upto(tracks, m) == hydrate_upto(tracks, k),
    decreases m - k,
{
    if m > k {
        lemma_hydrate_err_stays(tracks, k, m - 1);
    }
}

/// Loads a saved track layout: the tracks' plug-in state, their sidechain
/// and feedback routes and the freeze artifacts, in track order; or the
/// first refusal (see `hydrate_upto`).
pub fn hydrate_layout(tracks: &Vec<LayoutTrackPlain>) -> (r: Result<HydratedLayout, String>)
    ensures
        match hydrate_upto(tracks@, tracks@.len() as int) {
            Ok(v) => r matches Ok(h) && layout_view(h) == v,
            Err(e) => r matches Err(x) && x@ == e,
        },
{
    let mut out = HydratedLayout {
        tracks: Vec::new(),
        sidechain_routes: Vec::new(),
        feedback_ends: Vec::new(),
        freeze_artifacts: Vec::new(),
    };
    let mut i: usize = 0;
    while i < tracks.len()
        invariant
            i <= tracks@.len(),
            hydrate_upto(tracks@, i as int) is Ok,
            hydrate_upto(tracks@, i as int)->Ok_0.0 == layout_view(out).0,
            hydrate_upto(tracks@, i as int)->Ok_0.1 == layout_view(out).1,
            hydrate_upto(tracks@, i as int)->Ok_0.2 == layout_view(out).2,
            hydrate_upto(tracks@, i as int)->Ok_0.3 == layout_view(out).3,
        decreases tracks.len() - i,
    {
        let ghost acc = layout_view(out);
        match head_fault(tracks, i) {
            Some(e) => {
                proof {
                    lemma_hydrate_err_stays(tracks@, i + 1, tracks@.len() as int);
                }
                return Err(e);
            },
            None => {},
        }
        let t = &tracks[i];
        let (h, art) = match load_track(t) {
            Ok(x) => x,
            Err(e) => {
                proof {
                    lemma_hydrate_err_stays(tracks@, i + 1, tracks@.len() as int);
                }
                return Err(e);
            },
        };
        let ghost rv = track_rest(*t)->Ok_0;
        let ghost t0 = out.tracks@;
        out.tracks.push(h);
        proof {
            assert(out.tracks@.map_values(|x: HydratedTrack| track_view(x)) =~= t0.map_values(
                |x: HydratedTrack| track_view(x),
            ).push(rv.0));
        }
        let mut k: usize = 0;
        while k < t.sidechain_routes.len()
            invariant
                k <= t.sidechain_routes@.len(),
                routes_view(out.sidechain_routes@) == acc.1 + routes_view(t.sidechain_routes@.take(k as int)),
                out.tracks@.map_values(|x: HydratedTrack| track_view(x)) == acc.0.push(rv.0),
                out.feedback_ends@ == acc.2,
                out.freeze_artifacts@.map_values(|a: FreezeArtifactContract| artifact_view(a)) == acc.3,
            decreases t.sidechain_routes.len() - k,
        {
            let ghost o0 = routes_view(out.sidechain_routes@);
            out.sidechain_routes.push(copy_route(&t.sidechain_routes[k]));
            proof {
                assert(routes_view(out.sidechain_routes@) =~= o0.push(route_view(t.sidechain_routes@[k as int])));
                assert(t.sidechain_routes@.take(k + 1) =~= t.sidechain_routes@.take(k as int).push(t.sidechain_routes@[k as int]));
                assert(routes_view(t.sidechain_routes@.take(k + 1)) =~= routes_view(t.sidechain_routes@.take(k as int)).push(
                    route_view(t.sidechain_routes@[k as int]),
                ));
            }
            k += 1;
        }
        proof {
            assert(acc.2 + t.feedback_ends@.take(0) =~= acc.2);
            assert(t.sidechain_routes@.take(t.sidechain_routes@.len() as int) =~= t.sidechain_routes@);
        }
        let mut k: usize = 0;
        while k < t.feedback_ends.len()
            invariant
                k <= t.feedback_ends@.len(),
                out.feedback_ends@ == acc.2 + t.feedback_ends@.take(k as int),
                out.tracks@.map_values(|x: HydratedTrack| track_view(x)) == acc.0.push(rv.0),
                routes_view(out.sidechain_routes@) == acc.1 + routes_view(t.sidechain_routes@),
                out.freeze_artifacts@.map_values(|a: FreezeArtifactContract| artifact_view(a)) == acc.3,
            decreases t.feedback_ends.len() - k,
        {
            out.feedback_ends.push(t.feedback_ends[k]);
            proof {
                assert(t.feedback_ends@.take(k + 1) =~= t.feedback_ends@.take(k as int).push(t.feedback_ends@[k as int]));
            }
            k += 1;
        }
        let ghost a0 = out.freeze_artifacts@;
        match art {
            Some(a) => {
                out.freeze_artifacts.push(a);
            },
            None => {},
        }
        proof {
            assert(t.sidechain_routes@.take(t.sidechain_routes@.len() as int) =~= t.sidechain_routes@);
            assert(t.feedback_ends@.take(t.feedback_ends@.len() as int) =~= t.feedback_ends@);
            let v = layout_view(out);
            assert(v.0 =~= acc.0.push(rv.0));
            assert(v.3 =~= acc.3 + rv.1);
        }
        i += 1;
    }
    Ok(out)
}

} // verus!
