//! Plug-in delay compensation: per-channel offsets, Cubase-style
//! constrained delay compensation, and compensation schedules for routing
//! graphs.
use vstd::prelude::*;
use crate::graph::{acyclic, edge, is_rank, kahn_order, model, simple, wf};
use crate::sorting::{is_perm, stable_order, stably_sorted};
use crate::text::{blank, byte_len, contains_char, copy_str, is_blank, str_eq, within_bytes};

verus! {

pub struct PdcOrchestrator {
    pub track_latencies: Vec<u32>,
    pub bus_latencies: Vec<u32>,
    pub track_offsets: Vec<u32>,
    pub bus_offsets: Vec<u32>,
}

/// The highest value (0 for none).
pub open spec fn seq_max(s: Seq<u32>) -> u32
    decreases s.len(),
{
    if s.len() == 0 {
        0
    } else if seq_max(s.drop_last()) < s.last() {
        s.last()
    } else {
        seq_max(s.drop_last())
    }
}

pub proof fn lemma_seq_max(s: Seq<u32>)
    ensures
        forall|i: int| 0 <= i < s.len() ==> #[trigger] s[i] <= seq_max(s),
        s.len() > 0 ==> exists|i: int| 0 <= i < s.len() && #[trigger] s[i] == seq_max(s),
    decreases s.len(),
{
    if s.len() > 0 {
        let t = s.drop_last();
        lemma_seq_max(t);
        assert forall|i: int| 0 <= i < s.len() implies #[trigger] s[i] <= seq_max(s) by {
            if i < s.len() - 1 {
                assert(s[i] == t[i]);
            }
        }
        if seq_max(t) < s.last() || t.len() == 0 {
            assert(s[s.len() - 1] == s.last());
        } else {
            let i = choose|i: int| 0 <= i < t.len() && #[trigger] t[i] == seq_max(t);
            assert(s[i] == t[i]);
        }
    }
}

fn max_of(v: &Vec<u32>) -> (m: u32)
    ensures
        m == seq_max(v@),
{
    let mut m: u32 = 0;
    let mut i: usize = 0;
    while i < v.len()
        invariant
            i <= v.len(),
            m == seq_max(v@.take(i as int)),
        decreases v.len() - i,
    {
        proof {
            assert(v@.take(i + 1).drop_last() =~= v@.take(i as int));
        }
        if m < v[i] {
            m = v[i];
        }
        i += 1;
    }
    proof {
        assert(v@.take(i as int) =~= v@);
    }
    m
}

/// Offsets that line every entry up with the slowest: over the entries
/// that have a latency, the offset is the highest latency minus the own.
pub open spec fn aligned(offsets: Seq<u32>, old_offsets: Seq<u32>, lat: Seq<u32>) -> bool {
    &&& offsets.len() == old_offsets.len()
    &&& forall|i: int|
        0 <= i < offsets.len() ==> #[trigger] offsets[i] == if i < lat.len() {
            (seq_max(lat) - lat[i]) as u32
        } else {
            old_offsets[i]
        }
}

/// Sets each offset that has a latency beside it.
fn align(offsets: &mut Vec<u32>, lat: &Vec<u32>)
    ensures
        aligned(final(offsets)@, old(offsets)@, lat@),
{
    let m = max_of(lat);
    proof {
        lemma_seq_max(lat@);
    }
    let mut i: usize = 0;
    while i < offsets.len() && i < lat.len()
        invariant
            i <= offsets.len(),
            i <= lat.len(),
            offsets.len() == old(offsets).len(),
            m == seq_max(lat@),
            forall|j: int| 0 <= j < lat.len() ==> #[trigger] lat@[j] <= m,
            forall|j: int|
                0 <= j < offsets.len() ==> #[trigger] offsets@[j] == if j < i {
                    (m - lat@[j]) as u32
                } else {
                    old(offsets)@[j]
                },
        decreases offsets.len() - i,
    {
        offsets.set(i, m - lat[i]);
        i += 1;
    }
}

impl PdcOrchestrator {
    /// 512 tracks and 128 buses, all without latency or offset.
    pub fn new() -> (r: Self)
        ensures
            r.track_latencies@ == Seq::new(512, |i: int| 0u32),
            r.bus_latencies@ == Seq::new(128, |i: int| 0u32),
            r.track_offsets@ == Seq::new(512, |i: int| 0u32),
            r.bus_offsets@ == Seq::new(128, |i: int| 0u32),
    {
        let r = PdcOrchestrator {
            track_latencies: zeros(512),
            bus_latencies: zeros(128),
            track_offsets: zeros(512),
            bus_offsets: zeros(128),
        };
        r
    }

    /// Offsets every track and bus so that all line up with the slowest of
    /// their kind.
    pub fn recalculate(&mut self)
        ensures
            aligned(final(self).track_offsets@, old(self).track_offsets@, old(self).track_latencies@),
            aligned(final(self).bus_offsets@, old(self).bus_offsets@, old(self).bus_latencies@),
            final(self).track_latencies@ == old(self).track_latencies@,
            final(self).bus_latencies@ == old(self).bus_latencies@,
    {
        align(&mut self.track_offsets, &self.track_latencies);
        align(&mut self.bus_offsets, &self.bus_latencies);
    }

    /// Latencies and offsets pair up, and no offset added to its latency
    /// overflows.
    pub fn audit_pdc_manager(&self) -> (r: bool)
        ensures
            r == (self.track_latencies.len() == self.track_offsets.len() && self.bus_latencies.len()
                == self.bus_offsets.len() && (forall|i: int|
                0 <= i < self.track_offsets.len() ==> #[trigger] self.track_offsets@[i] + self.track_latencies@[i]
                    <= u32::MAX) && (forall|i: int|
                0 <= i < self.bus_offsets.len() ==> #[trigger] self.bus_offsets@[i] + self.bus_latencies@[i]
                    <= u32::MAX)),
    {
        if self.track_latencies.len() != self.track_offsets.len() || self.bus_latencies.len()
            != self.bus_offsets.len() {
            return false;
        }
        fits(&self.track_offsets, &self.track_latencies) && fits(&self.bus_offsets, &self.bus_latencies)
    }
}

fn fits(offsets: &Vec<u32>, lat: &Vec<u32>) -> (r: bool)
    requires
        offsets.len() == lat.len(),
    ensures
        r == forall|i: int| 0 <= i < offsets.len() ==> #[trigger] offsets@[i] + lat@[i] <= u32::MAX,
{
    let mut i: usize = 0;
    while i < offsets.len()
        invariant
            i <= offsets.len(),
            offsets.len() == lat.len(),
            forall|j: int| 0 <= j < i ==> #[trigger] offsets@[j] + lat@[j] <= u32::MAX,
        decreases offsets.len() - i,
    {
        if offsets[i] > u32::MAX - lat[i] {
            return false;
        }
        i += 1;
    }
    true
}

fn zeros(n: usize) -> (v: Vec<u32>)
    ensures
        v@ == Seq::new(n as nat, |i: int| 0u32),
{
    let mut v: Vec<u32> = Vec::new();
    let mut i: usize = 0;
    while i < n
        invariant
            i <= n,
            v@ == Seq::new(i as nat, |j: int| 0u32),
        decreases n - i,
    {
        v.push(0);
        i += 1;
        proof {
            assert(v@ =~= Seq::new(i as nat, |j: int| 0u32));
        }
    }
    v
}

impl Default for PdcOrchestrator {
    fn default() -> (r: Self)
        ensures
            r.track_latencies@ == Seq::new(512, |i: int| 0u32),
            r.bus_latencies@ == Seq::new(128, |i: int| 0u32),
            r.track_offsets@ == Seq::new(512, |i: int| 0u32),
            r.bus_offsets@ == Seq::new(128, |i: int| 0u32),
    {
        Self::new()
    }
}

#[derive(Clone, Copy, Debug, PartialEq, Eq, Structural)]
pub enum PdcChannelKind {
    AudioTrack,
    Instrument,
    Group,
    Output,
    Effect,
}

#[derive(Clone, Debug, PartialEq, Eq)]
pub struct PluginDelayState {
    pub plugin_id: String,
    pub reported_latency: u32,
    pub low_latency_samples: u32,
    pub supports_low_latency: bool,
    pub enabled: bool,
    pub low_latency_active: bool,
    pub bypassed_by_constraint: bool,
}

/// A plug-in's delay state as plain values.
pub struct DelayView {
    pub plugin_id: Seq<char>,
    pub reported_latency: u32,
    pub low_latency_samples: u32,
    pub supports_low_latency: bool,
    pub enabled: bool,
    pub low_latency_active: bool,
    pub bypassed_by_constraint: bool,
}

pub open spec fn delay_view(p: PluginDelayState) -> DelayView {
    DelayView {
        plugin_id: p.plugin_id@,
        reported_latency: p.reported_latency,
        low_latency_samples: p.low_latency_samples,
        supports_low_latency: p.supports_low_latency,
        enabled: p.enabled,
        low_latency_active: p.low_latency_active,
        bypassed_by_constraint: p.bypassed_by_constraint,
    }
}

/// The latency the plug-in adds: none when disabled or bypassed, its
/// low-latency figure when that mode is active.
pub open spec fn delay_of(p: DelayView) -> u32 {
    if !p.enabled || p.bypassed_by_constraint {
        0
    } else if p.low_latency_active {
        p.low_latency_samples
    } else {
        p.reported_latency
    }
}

pub open spec fn delay_ok(p: DelayView) -> bool {
    &&& !is_blank(p.plugin_id)
    &&& byte_len(p.plugin_id) <= 256
    &&& !p.plugin_id.contains('\0')
    &&& p.low_latency_samples <= p.reported_latency
    &&& (!p.low_latency_active || p.supports_low_latency)
    &&& !(p.low_latency_active && p.bypassed_by_constraint)
}

/// Saturating sum of the plug-ins' latencies.
pub open spec fn chain_delay(ps: Seq<DelayView>) -> u32
    decreases ps.len(),
{
    if ps.len() == 0 {
        0
    } else {
        let s = chain_delay(ps.drop_last()) as int + delay_of(ps.last()) as int;
        if s > u32::MAX {
            u32::MAX
        } else {
            s as u32
        }
    }
}

impl PluginDelayState {
    fn validate(&self) -> (r: bool)
        ensures
            r == delay_ok(delay_view(*self)),
    {
        let id = self.plugin_id.as_str();
        !blank(id) && within_bytes(id, 256) && !contains_char(id, '\0') && self.low_latency_samples
            <= self.reported_latency && (!self.low_latency_active || self.supports_low_latency) && !(
        self.low_latency_active && self.bypassed_by_constraint)
    }

    pub fn effective_latency(&self) -> (r: u32)
        ensures
            r == delay_of(delay_view(*self)),
    {
        if !self.enabled || self.bypassed_by_constraint {
            0
        } else if self.low_latency_active {
            self.low_latency_samples
        } else {
            self.reported_latency
        }
    }
}

#[derive(Clone, Debug, PartialEq, Eq)]
pub struct PdcChannelState {
    pub channel_id: u32,
    pub kind: PdcChannelKind,
    pub record_enabled: bool,
    pub plugins: Vec<PluginDelayState>,
}

/// A channel as plain values.
pub struct ChannelView {
    pub channel_id: u32,
    pub kind: PdcChannelKind,
    pub record_enabled: bool,
    pub plugins: Seq<DelayView>,
}

pub open spec fn delays_view(ps: Seq<PluginDelayState>) -> Seq<DelayView> {
    ps.map_values(|p: PluginDelayState| delay_view(p))
}

pub open spec fn channel_view(c: PdcChannelState) -> ChannelView {
    ChannelView {
        channel_id: c.channel_id,
        kind: c.kind,
        record_enabled: c.record_enabled,
        plugins: delays_view(c.plugins@),
    }
}

pub open spec fn channel_ok(c: ChannelView) -> bool {
    &&& c.channel_id != 0
    &&& c.plugins.len() <= 256
    &&& forall|i: int| 0 <= i < c.plugins.len() ==> #[trigger] delay_ok(c.plugins[i])
    &&& forall|i: int, j: int|
        0 <= j < i < c.plugins.len() ==> #[trigger] c.plugins[j].plugin_id != #[trigger] c.plugins[i].plugin_id
}

impl PdcChannelState {
    pub fn effective_latency(&self) -> (r: u32)
        ensures
            r == chain_delay(delays_view(self.plugins@)),
    {
        let ghost ps = delays_view(self.plugins@);
        let mut total: u32 = 0;
        let mut i: usize = 0;
        while i < self.plugins.len()
            invariant
                i <= self.plugins.len(),
                ps == delays_view(self.plugins@),
                total == chain_delay(ps.take(i as int)),
            decreases self.plugins.len() - i,
        {
            proof {
                assert(ps.take(i + 1).drop_last() =~= ps.take(i as int));
                assert(ps.take(i + 1).last() == delay_view(self.plugins@[i as int]));
            }
            total = total.saturating_add(self.plugins[i].effective_latency());
            i += 1;
        }
        proof {
            assert(ps.take(i as int) =~= ps);
        }
        total
    }

    fn validate(&self) -> (r: bool)
        ensures
            r == channel_ok(channel_view(*self)),
    {
        let ghost ps = delays_view(self.plugins@);
        if self.channel_id == 0 || self.plugins.len() > 256 {
            return false;
        }
        let mut i: usize = 0;
        while i < self.plugins.len()
            invariant
                i <= self.plugins.len(),
                ps == delays_view(self.plugins@),
                forall|a: int| 0 <= a < i ==> #[trigger] delay_ok(ps[a]),
                forall|a: int, b: int| 0 <= b < a < i ==> #[trigger] ps[b].plugin_id != #[trigger] ps[a].plugin_id,
            decreases self.plugins.len() - i,
        {
            proof {
                assert(ps[i as int] == delay_view(self.plugins@[i as int]));
            }
            if !self.plugins[i].validate() {
                return false;
            }
            let mut j: usize = 0;
            while j < i
                invariant
                    j <= i < self.plugins.len(),
                    ps == delays_view(self.plugins@),
                    forall|b: int| 0 <= b < j ==> #[trigger] ps[b].plugin_id != ps[i as int].plugin_id,
                decreases i - j,
            {
                if str_eq(self.plugins[j].plugin_id.as_str(), self.plugins[i].plugin_id.as_str()) {
                    proof {
                        assert(ps[j as int].plugin_id == ps[i as int].plugin_id);
                    }
                    return false;
                }
                j += 1;
            }
            i += 1;
        }
        true
    }
}

/// Whether constrained compensation holds back the channel's plug-ins.
pub open spec fn constrains(enabled: bool, c: ChannelView) -> bool {
    enabled && match c.kind {
        PdcChannelKind::AudioTrack => c.record_enabled,
        PdcChannelKind::Effect => false,
        _ => true,
    }
}

/// A plug-in after constraints are re-applied: on a constrained channel an
/// enabled plug-in above the threshold switches to low latency when it can
/// and is bypassed otherwise; every other plug-in runs unconstrained.
pub open spec fn constrained(p: DelayView, hold: bool, threshold: u32) -> DelayView {
    let over = hold && p.enabled && p.reported_latency > threshold;
    DelayView {
        low_latency_active: over && p.supports_low_latency,
        bypassed_by_constraint: over && !p.supports_low_latency,
        ..p
    }
}

pub open spec fn constrained_channel(c: ChannelView, enabled: bool, threshold: u32) -> ChannelView {
    ChannelView {
        plugins: c.plugins.map_values(
            |p: DelayView| constrained(p, constrains(enabled, c), threshold),
        ),
        ..c
    }
}

#[derive(Clone, Debug, PartialEq, Eq)]
pub struct ConstrainDelayCompensation {
    pub enabled: bool,
    pub threshold_samples: u32,
    pub channels: Vec<PdcChannelState>,
}

fn copy_delay(p: &PluginDelayState) -> (r: PluginDelayState)
    ensures
        delay_view(r) == delay_view(*p),
{
    PluginDelayState {
        plugin_id: copy_str(p.plugin_id.as_str()),
        reported_latency: p.reported_latency,
        low_latency_samples: p.low_latency_samples,
        supports_low_latency: p.supports_low_latency,
        enabled: p.enabled,
        low_latency_active: p.low_latency_active,
        bypassed_by_constraint: p.bypassed_by_constraint,
    }
}

fn copy_channel(c: &PdcChannelState) -> (r: PdcChannelState)
    ensures
        channel_view(r) == channel_view(*c),
{
    let mut ps: Vec<PluginDelayState> = Vec::new();
    let mut i: usize = 0;
    while i < c.plugins.len()
        invariant
            i <= c.plugins.len(),
            delays_view(ps@) == delays_view(c.plugins@).take(i as int),
        decreases c.plugins.len() - i,
    {
        ps.push(copy_delay(&c.plugins[i]));
        proof {
            assert(delays_view(c.plugins@).take(i + 1) =~= delays_view(c.plugins@).take(i as int).push(
                delay_view(c.plugins@[i as int]),
            ));
        }
        i += 1;
        proof {
            assert(delays_view(ps@) =~= delays_view(c.plugins@).take(i as int));
        }
    }
    proof {
        assert(delays_view(c.plugins@).take(i as int) =~= delays_view(c.plugins@));
    }
    PdcChannelState { channel_id: c.channel_id, kind: c.kind, record_enabled: c.record_enabled, plugins: ps }
}

impl ConstrainDelayCompensation {
    pub open spec fn chans(&self) -> Seq<ChannelView> {
        chan_views(self.channels@)
    }

    /// The channels with constraints re-applied.
    pub open spec fn applied(&self, cs: Seq<ChannelView>) -> Seq<ChannelView> {
        cs.map_values(|c: ChannelView| constrained_channel(c, self.enabled, self.threshold_samples))
    }

    fn apply(&mut self)
        ensures
            final(self).chans() == old(self).applied(old(self).chans()),
            final(self).enabled == old(self).enabled,
            final(self).threshold_samples == old(self).threshold_samples,
    {
        let ghost cs = self.chans();
        let mut i: usize = 0;
        while i < self.channels.len()
            invariant
                i <= self.channels.len(),
                self.channels.len() == cs.len(),
                self.enabled == old(self).enabled,
                self.threshold_samples == old(self).threshold_samples,
                cs == old(self).chans(),
                forall|j: int| 0 <= j < i ==> #[trigger] self.chans()[j] == constrained_channel(cs[j], self.enabled, self.threshold_samples),
                forall|j: int| i <= j < cs.len() ==> #[trigger] self.chans()[j] == cs[j],
            decreases self.channels.len() - i,
        {
            let c = &self.channels[i];
            proof {
                assert(self.chans()[i as int] == cs[i as int]);
            }
            let hold = self.enabled && match c.kind {
                PdcChannelKind::AudioTrack => c.record_enabled,
                PdcChannelKind::Effect => false,
                _ => true,
            };
            let ghost pv = cs[i as int].plugins;
            let mut ps: Vec<PluginDelayState> = Vec::new();
            let mut k: usize = 0;
            while k < c.plugins.len()
                invariant
                    k <= c.plugins.len(),
                    pv == delays_view(c.plugins@),
                    delays_view(ps@) == pv.take(k as int).map_values(
                        |p: DelayView| constrained(p, hold, self.threshold_samples),
                    ),
                decreases c.plugins.len() - k,
            {
                let mut p = copy_delay(&c.plugins[k]);
                let over = hold && p.enabled && p.reported_latency > self.threshold_samples;
                p.low_latency_active = over && p.supports_low_latency;
                p.bypassed_by_constraint = over && !p.supports_low_latency;
                let ghost before = ps@;
                ps.push(p);
                proof {
                    assert(delays_view(ps@) =~= delays_view(before).push(delay_view(p)));
                    assert(pv.take(k + 1) =~= pv.take(k as int).push(pv[k as int]));
                    assert(delay_view(p) == constrained(pv[k as int], hold, self.threshold_samples));
                    assert(pv.take(k + 1).map_values(|p: DelayView| constrained(p, hold, self.threshold_samples))
                        =~= pv.take(k as int).map_values(|p: DelayView| constrained(p, hold, self.threshold_samples)).push(
                        constrained(pv[k as int], hold, self.threshold_samples),
                    ));
                }
                k += 1;
            }
            proof {
                assert(pv.take(k as int) =~= pv);
                assert(hold == constrains(self.enabled, cs[i as int]));
            }
            let nc = PdcChannelState {
                channel_id: c.channel_id,
                kind: c.kind,
                record_enabled: c.record_enabled,
                plugins: ps,
            };
            let ghost before_cols = self.chans();
            self.channels.set(i, nc);
            proof {
                assert(channel_view(nc) == constrained_channel(cs[i as int], self.enabled, self.threshold_samples));
                assert(self.chans() =~= before_cols.update(i as int, channel_view(nc)));
            }
            i += 1;
        }
        proof {
            assert(self.chans() =~= old(self).applied(cs));
        }
    }

    /// Sets the threshold; constraints are re-applied when enabled.
    pub fn set_threshold(&mut self, samples: u32)
        ensures
            final(self).threshold_samples == samples,
            final(self).enabled == old(self).enabled,
            final(self).chans() == if old(self).enabled {
                final(self).applied(old(self).chans())
            } else {
                old(self).chans()
            },
    {
        self.threshold_samples = samples;
        if self.enabled {
            self.apply();
        }
    }

    /// Switches constrained compensation on or off and re-applies it.
    pub fn set_enabled(&mut self, enabled: bool)
        ensures
            final(self).enabled == enabled,
            final(self).threshold_samples == old(self).threshold_samples,
            final(self).chans() == final(self).applied(old(self).chans()),
    {
        self.enabled = enabled;
        self.apply();
    }

    /// Arms or disarms recording on the first channel with the id and
    /// re-applies the constraints; tells whether a channel had the id.
    pub fn set_record_enabled(&mut self, channel_id: u32, enabled: bool) -> (r: bool)
        ensures
            r == (exists|i: int| 0 <= i < old(self).chans().len() && #[trigger] old(self).chans()[i].channel_id == channel_id),
            final(self).enabled == old(self).enabled,
            final(self).threshold_samples == old(self).threshold_samples,
            r ==> ({
                let i = first_channel(old(self).chans(), channel_id);
                final(self).chans() == final(self).applied(
                    old(self).chans().update(i, ChannelView { record_enabled: enabled, ..old(self).chans()[i] }),
                )
            }),
            !r ==> final(self).chans() == old(self).chans(),
    {
        let ghost cs = self.chans();
        let i = match channel_position(&self.channels, channel_id) {
            Some(i) => i,
            None => return false,
        };
        let c = copy_channel(&self.channels[i]);
        let nc = PdcChannelState { record_enabled: enabled, ..c };
        self.channels.set(i, nc);
        proof {
            assert(self.chans() =~= cs.update(i as int, ChannelView { record_enabled: enabled, ..cs[i as int] }));
        }
        self.apply();
        true
    }

    /// The latency of the first channel with the id.
    pub fn latency_for(&self, channel_id: u32) -> (r: Option<u32>)
        ensures
            r == if exists|i: int| 0 <= i < self.chans().len() && #[trigger] self.chans()[i].channel_id == channel_id {
                Some(chain_delay(self.chans()[first_channel(self.chans(), channel_id)].plugins))
            } else {
                None
            },
    {
        match channel_position(&self.channels, channel_id) {
            Some(i) => Some(self.channels[i].effective_latency()),
            None => None,
        }
    }

    /// Each channel's id and the delay that lines it up with the slowest
    /// channel.
    pub fn compensation_offsets(&self) -> (r: Vec<(u32, u32)>)
        ensures
            r@.len() == self.chans().len(),
            forall|i: int| 0 <= i < r@.len() ==> #[trigger] r@[i] == (self.chans()[i].channel_id, (seq_max(
                self.chans().map_values(|c: ChannelView| chain_delay(c.plugins)),
            ) - chain_delay(self.chans()[i].plugins)) as u32),
    {
        let ghost ls = self.chans().map_values(|c: ChannelView| chain_delay(c.plugins));
        let mut lat: Vec<u32> = Vec::new();
        let mut i: usize = 0;
        while i < self.channels.len()
            invariant
                i <= self.channels.len(),
                ls == self.chans().map_values(|c: ChannelView| chain_delay(c.plugins)),
                lat@ == ls.take(i as int),
            decreases self.channels.len() - i,
        {
            lat.push(self.channels[i].effective_latency());
            proof {
                assert(ls.take(i + 1) =~= ls.take(i as int).push(ls[i as int]));
            }
            i += 1;
        }
        proof {
            assert(ls.take(i as int) =~= ls);
        }
        let m = max_of(&lat);
        proof {
            lemma_seq_max(lat@);
        }
        let mut r: Vec<(u32, u32)> = Vec::new();
        let mut i: usize = 0;
        while i < self.channels.len()
            invariant
                i <= self.channels.len(),
                lat@ == ls,
                ls.len() == self.chans().len(),
                m == seq_max(ls),
                forall|j: int| 0 <= j < ls.len() ==> #[trigger] ls[j] <= m,
                r@.len() == i,
                forall|j: int| 0 <= j < i ==> #[trigger] r@[j] == (self.chans()[j].channel_id, (m - ls[j]) as u32),
            decreases self.channels.len() - i,
        {
            r.push((self.channels[i].channel_id, m - lat[i]));
            i += 1;
        }
        r
    }

    #[verifier::rlimit(40)]
    /// Replaces the first channel with the same id, or adds the channel (up
    /// to 4096), keeps the channels in id order and re-applies the
    /// constraints.  Refused, with nothing changed, for an unsound channel.
    pub fn upsert_channel(&mut self, channel: PdcChannelState) -> (r: bool)
        ensures
            ({
                let cs = old(self).chans();
                let c = channel_view(channel);
                let ok = channel_ok(c) && (has_channel(cs, c.channel_id) || cs.len() < 4096);
                let grown = upserted(cs, c);
                &&& r == ok
                &&& ok ==> exists|p: Seq<usize>|
                    {
                        &&& is_perm(p, grown.len() as int)
                        &&& stably_sorted(p, by_channel_id(grown))
                        &&& final(self).chans().len() == grown.len()
                        &&& forall|x: int|
                            0 <= x < grown.len() ==> #[trigger] final(self).chans()[x] == constrained_channel(
                                grown[p[x] as int],
                                old(self).enabled,
                                old(self).threshold_samples,
                            )
                    }
                &&& !ok ==> final(self).chans() == cs
            }),
            final(self).enabled == old(self).enabled,
            final(self).threshold_samples == old(self).threshold_samples,
    {
        if !channel.validate() {
            return false;
        }
        if !place_channel(&mut self.channels, channel) {
            return false;
        }
        let ghost grown = self.chans();
        self.channels = sorted_by_id(&self.channels);
        let ghost sorted_view = self.chans();
        let ghost p = choose|p: Seq<usize>|
            {
                &&& is_perm(p, grown.len() as int)
                &&& stably_sorted(p, by_channel_id(grown))
                &&& sorted_view.len() == grown.len()
                &&& forall|x: int| 0 <= x < grown.len() ==> #[trigger] sorted_view[x] == grown[p[x] as int]
            };
        self.apply();
        proof {
            let q = p;
            assert(stably_sorted(q, by_channel_id(grown)));
            assert forall|y: int| 0 <= y < grown.len() implies #[trigger] self.chans()[y] == constrained_channel(
                grown[q[y] as int],
                self.enabled,
                self.threshold_samples,
            ) by {
                assert(sorted_view[y] == grown[q[y] as int]);
            }
        }
        true
    }

    /// Sound channels in strictly ascending id order, at most 4096, and no
    /// plug-in held back where constraints do not apply.
    pub fn audit(&self) -> (r: bool)
        ensures
            r == (self.chans().len() <= 4096 && (forall|i: int|
                0 <= i < self.chans().len() ==> #[trigger] channel_ok(self.chans()[i])) && (forall|i: int|
                0 <= i < self.chans().len() - 1 ==> #[trigger] self.chans()[i].channel_id < self.chans()[i
                    + 1].channel_id) && (forall|i: int|
                0 <= i < self.chans().len() ==> #[trigger] unconstrained_ok(self.enabled, self.chans()[i]))),
    {
        let ghost cs = self.chans();
        if self.channels.len() > 4096 {
            return false;
        }
        let mut i: usize = 0;
        while i < self.channels.len()
            invariant
                i <= self.channels.len(),
                cs == self.chans(),
                forall|a: int| 0 <= a < i ==> #[trigger] channel_ok(cs[a]),
                forall|a: int| 0 <= a < i && a + 1 < cs.len() ==> #[trigger] cs[a].channel_id < cs[a + 1].channel_id,
                forall|a: int| 0 <= a < i ==> #[trigger] unconstrained_ok(self.enabled, cs[a]),
            decreases self.channels.len() - i,
        {
            let c = &self.channels[i];
            proof {
                assert(cs[i as int] == channel_view(*c));
            }
            if !c.validate() {
                return false;
            }
            if i + 1 < self.channels.len() && c.channel_id >= self.channels[i + 1].channel_id {
                proof {
                    assert(cs[i + 1] == channel_view(self.channels@[i + 1]));
                }
                return false;
            }
            if !self.enabled || c.kind == PdcChannelKind::Effect {
                let mut k: usize = 0;
                while k < c.plugins.len()
                    invariant
                        k <= c.plugins.len(),
                        i < self.channels.len(),
                        cs == self.chans(),
                        !self.enabled || c.kind == PdcChannelKind::Effect,
                        cs[i as int] == channel_view(*c),
                        cs[i as int].plugins == delays_view(c.plugins@),
                        forall|b: int| 0 <= b < k ==> !(#[trigger] c.plugins@[b]).low_latency_active
                            && !c.plugins@[b].bypassed_by_constraint,
                    decreases c.plugins.len() - k,
                {
                    if c.plugins[k].low_latency_active || c.plugins[k].bypassed_by_constraint {
                        proof {
                            assert(cs[i as int].plugins[k as int] == delay_view(c.plugins@[k as int]));
                            assert(cs[i as int].plugins[k as int].low_latency_active || cs[i as int].plugins[k as int].bypassed_by_constraint);
                            assert(cs[i as int].kind == c.kind);
                            assert(cs[i as int].plugins.len() == c.plugins.len());
                            assert(!self.enabled || cs[i as int].kind == PdcChannelKind::Effect);
                            lemma_held(self.enabled, cs[i as int], k as int);
                        }
                        return false;
                    }
                    k += 1;
                }
                proof {
                    assert forall|b: int| 0 <= b < cs[i as int].plugins.len() implies !#[trigger] cs[i as int].plugins[b].low_latency_active
                        && !cs[i as int].plugins[b].bypassed_by_constraint by {
                        assert(cs[i as int].plugins[b] == delay_view(c.plugins@[b]));
                    }
                    assert(unconstrained_ok(self.enabled, cs[i as int]));
                }
            } else {
                proof {
                    assert(unconstrained_ok(self.enabled, cs[i as int]));
                }
            }
            i += 1;
        }
        true
    }
}

pub open spec fn chan_views(cs: Seq<PdcChannelState>) -> Seq<ChannelView> {
    cs.map_values(|c: PdcChannelState| channel_view(c))
}

proof fn lemma_held(enabled: bool, c: ChannelView, k: int)
    requires
        !enabled || c.kind == PdcChannelKind::Effect,
        0 <= k < c.plugins.len(),
        c.plugins[k].low_latency_active || c.plugins[k].bypassed_by_constraint,
    ensures
        !unconstrained_ok(enabled, c),
{
    assert(!(!c.plugins[k].low_latency_active && !c.plugins[k].bypassed_by_constraint));
}

/// Puts the channel in place of the first with its id, or adds it below
/// 4096 channels.
fn place_channel(channels: &mut Vec<PdcChannelState>, channel: PdcChannelState) -> (r: bool)
    ensures
        r == (has_channel(chan_views(old(channels)@), channel.channel_id) || old(channels)@.len() < 4096),
        r ==> chan_views(final(channels)@) == upserted(chan_views(old(channels)@), channel_view(channel)),
        !r ==> final(channels)@ == old(channels)@,
{
    let ghost cs = chan_views(channels@);
    let ghost c = channel_view(channel);
    match channel_position(channels, channel.channel_id) {
        Some(i) => {
            channels.set(i, channel);
            proof {
                assert(cs[i as int].channel_id == c.channel_id);
                assert(has_channel(cs, c.channel_id));
                assert(chan_views(channels@) =~= upserted(cs, c));
            }
            true
        },
        None => {
            if channels.len() >= 4096 {
                return false;
            }
            channels.push(channel);
            proof {
                assert(!has_channel(cs, c.channel_id));
                assert(chan_views(channels@) =~= upserted(cs, c));
            }
            true
        },
    }
}

/// Some channel has the id.
pub open spec fn has_channel(cs: Seq<ChannelView>, id: u32) -> bool {
    exists|i: int| 0 <= i < cs.len() && #[trigger] cs[i].channel_id == id
}

/// The channels with `c` in place of the first with its id, or added.
pub open spec fn upserted(cs: Seq<ChannelView>, c: ChannelView) -> Seq<ChannelView> {
    if has_channel(cs, c.channel_id) {
        cs.update(first_channel(cs, c.channel_id), c)
    } else {
        cs.push(c)
    }
}

/// Ascending channel id.
pub open spec fn by_channel_id(g: Seq<ChannelView>) -> spec_fn(int, int) -> bool {
    |a: int, b: int| g[a].channel_id < g[b].channel_id
}

/// No plug-in of the channel is held back where constraints do not apply.
pub open spec fn unconstrained_ok(enabled: bool, c: ChannelView) -> bool {
    (!enabled || c.kind == PdcChannelKind::Effect) ==> forall|k: int|
        0 <= k < c.plugins.len() ==> !#[trigger] c.plugins[k].low_latency_active
            && !c.plugins[k].bypassed_by_constraint
}

/// The channels in stable ascending id order.
fn sorted_by_id(channels: &Vec<PdcChannelState>) -> (r: Vec<PdcChannelState>)
    ensures
        ({
            let g = chan_views(channels@);
            exists|p: Seq<usize>|
                {
                    &&& is_perm(p, g.len() as int)
                    &&& stably_sorted(p, by_channel_id(g))
                    &&& chan_views(r@).len() == g.len()
                    &&& forall|x: int| 0 <= x < g.len() ==> #[trigger] chan_views(r@)[x] == g[p[x] as int]
                }
        }),
{
    let ghost g = chan_views(channels@);
    let n = channels.len();
    let ghost rel = |a: int, b: int| g[a].channel_id < g[b].channel_id;
    let lt = |a: usize, b: usize| -> (c: bool)
        requires
            a < n && b < n,
        ensures
            c == (channels@[a as int].channel_id < channels@[b as int].channel_id),
        { channels[a].channel_id < channels[b].channel_id };
    let p = stable_order(n, &lt, Ghost(rel));
    let mut sorted: Vec<PdcChannelState> = Vec::new();
    let mut x: usize = 0;
    while x < n
        invariant
            x <= n,
            n == channels.len(),
            g == chan_views(channels@),
            is_perm(p@, n as int),
            sorted@.len() == x,
            forall|y: int| 0 <= y < x ==> #[trigger] channel_view(sorted@[y]) == g[p@[y] as int],
        decreases n - x,
    {
        sorted.push(copy_channel(&channels[p[x]]));
        x += 1;
    }
    proof {
        let q = p@;
        assert(forall|y: int| 0 <= y < n ==> #[trigger] chan_views(sorted@)[y] == g[q[y] as int]);
        assert(rel =~= by_channel_id(g));
        assert(stably_sorted(q, by_channel_id(g)));
        assert(chan_views(sorted@).len() == g.len());
    }
    sorted
}

/// The first channel with the id.
pub open spec fn first_channel(cs: Seq<ChannelView>, id: u32) -> int {
    choose|i: int| 0 <= i < cs.len() && cs[i].channel_id == id && forall|j: int| 0 <= j < i ==> #[trigger] cs[j].channel_id != id
}

fn channel_position(channels: &Vec<PdcChannelState>, id: u32) -> (r: Option<usize>)
    ensures
        match r {
            Some(i) => i < channels.len() && channels@[i as int].channel_id == id && i as int == first_channel(
                chan_views(channels@),
                id,
            ),
            None => !(exists|i: int|
                0 <= i < channels@.len() && #[trigger] chan_views(channels@)[i].channel_id == id),
        },
{
    let ghost cs = chan_views(channels@);
    let mut i: usize = 0;
    while i < channels.len()
        invariant
            i <= channels.len(),
            cs == chan_views(channels@),
            forall|j: int| 0 <= j < i ==> #[trigger] cs[j].channel_id != id,
        decreases channels.len() - i,
    {
        proof {
            assert(cs[i as int].channel_id == channels@[i as int].channel_id);
        }
        if channels[i].channel_id == id {
            proof {
                let f = first_channel(cs, id);
                assert(0 <= i < cs.len() && cs[i as int].channel_id == id && forall|j: int| 0 <= j < i ==> #[trigger] cs[j].channel_id != id);
                if f < i {
                    assert(cs[f].channel_id != id);
                }
                if f > i {
                    assert(cs[i as int].channel_id != id);
                }
            }
            return Some(i);
        }
        i += 1;
    }
    None
}

impl Default for ConstrainDelayCompensation {
    fn default() -> (r: Self)
        ensures
            !r.enabled,
            r.threshold_samples == 0,
            r.channels@.len() == 0,
    {
        ConstrainDelayCompensation { enabled: false, threshold_samples: 0, channels: Vec::new() }
    }
}


#[derive(Clone, Debug, PartialEq, Eq)]
pub struct PdcRoutingNode {
    pub channel_id: u32,
    pub plugin_latency_samples: u32,
    pub external_latency_samples: u32,
    pub routes_to: Vec<u32>,
    pub output: bool,
}

#[derive(Clone, Debug, PartialEq, Eq)]
pub struct PdcRoutingGraph {
    pub nodes: Vec<PdcRoutingNode>,
}

#[derive(Clone, Copy, Debug, PartialEq, Eq, Structural)]
pub struct PdcEdgeCompensation {
    pub source: u32,
    pub destination: u32,
    pub delay_samples: u64,
}

#[derive(Clone, Debug, PartialEq, Eq)]
pub struct PdcRoutingSchedule {
    pub output_latency_by_channel: std::collections::BTreeMap<u32, u64>,
    pub edge_compensation: Vec<PdcEdgeCompensation>,
    pub final_output_compensation: std::collections::BTreeMap<u32, u64>,
    pub maximum_output_latency: u64,
}

impl Default for PdcRoutingSchedule {
    fn default() -> (r: Self)
        ensures
            r.output_latency_by_channel@ == Map::<u32, u64>::empty(),
            r.edge_compensation@.len() == 0,
            r.final_output_compensation@ == Map::<u32, u64>::empty(),
            r.maximum_output_latency == 0,
    {
        PdcRoutingSchedule {
            output_latency_by_channel: std::collections::BTreeMap::new(),
            edge_compensation: Vec::new(),
            final_output_compensation: std::collections::BTreeMap::new(),
            maximum_output_latency: 0,
        }
    }
}

/// Channel `s` sends its signal to channel `d`.
pub open spec fn route(nodes: Seq<PdcRoutingNode>, s: int, d: int) -> bool {
    0 <= s < nodes.len() && 0 <= d < nodes.len() && nodes[s].routes_to@.contains(nodes[d].channel_id)
}

/// Some channel carries the id.
pub open spec fn has_node(nodes: Seq<PdcRoutingNode>, id: u32) -> bool {
    exists|b: int| 0 <= b < nodes.len() && #[trigger] nodes[b].channel_id == id
}

/// A sound routing graph: 1 to 65536 channels with distinct non-zero
/// ids, routes to other known channels (at most 4096 per channel, each
/// once), an output, and no feedback loop.
pub open spec fn routing_ok(nodes: Seq<PdcRoutingNode>) -> bool {
    &&& routes_well_formed(nodes)
    &&& exists|a: int| 0 <= a < nodes.len() && #[trigger] nodes[a].output
    &&& exists|f: spec_fn(int) -> nat| route_rank(nodes, f)
}

/// Ids and routes are sound, leaving aside outputs and feedback loops.
pub open spec fn routes_well_formed(nodes: Seq<PdcRoutingNode>) -> bool {
    &&& 1 <= nodes.len() <= 65_536
    &&& forall|a: int, b: int| 0 <= a < b < nodes.len() ==> nodes[a].channel_id != nodes[b].channel_id
    &&& forall|a: int| 0 <= a < nodes.len() ==> #[trigger] nodes[a].channel_id != 0
    &&& forall|a: int| 0 <= a < nodes.len() ==> (#[trigger] nodes[a].routes_to@).len() <= 4096 && nodes[a].routes_to@.no_duplicates()
    &&& forall|a: int, k: int|
        0 <= a < nodes.len() && 0 <= k < nodes[a].routes_to@.len() ==> #[trigger] nodes[a].routes_to@[k]
            != nodes[a].channel_id && has_node(nodes, nodes[a].routes_to@[k])
}

/// `f` grows along every route.
pub open spec fn route_rank(nodes: Seq<PdcRoutingNode>, f: spec_fn(int) -> nat) -> bool {
    forall|s: int, d: int| #[trigger] route(nodes, s, d) ==> f(s) < f(d)
}

/// The latency a channel adds itself.
pub open spec fn own_latency(n: PdcRoutingNode) -> int {
    n.plugin_latency_samples + n.external_latency_samples
}

/// `m` is the slowest arrival at channel `v` (0 with no inputs).
pub open spec fn arrival(nodes: Seq<PdcRoutingNode>, l: Seq<u64>, v: int, m: u64) -> bool {
    &&& forall|s: int| #[trigger] route(nodes, s, v) ==> l[s] <= m
    &&& (m == 0 || exists|s: int| #[trigger] route(nodes, s, v) && l[s] == m)
}

/// `l` gives each channel's output latency and `m` its slowest arrival:
/// a channel's output comes its own latency after its slowest input.
pub open spec fn latencies_ok(nodes: Seq<PdcRoutingNode>, l: Seq<u64>, m: Seq<u64>) -> bool {
    &&& l.len() == nodes.len()
    &&& m.len() == nodes.len()
    &&& forall|v: int| 0 <= v < nodes.len() ==> #[trigger] arrival(nodes, l, v, m[v]) && l[v] == m[v] + own_latency(nodes[v])
}

/// The edge is ordered before the other: by destination, then source.
pub open spec fn edge_before(a: PdcEdgeCompensation, b: PdcEdgeCompensation) -> bool {
    a.destination < b.destination || (a.destination == b.destination && a.source < b.source)
}

/// The schedule holds the latencies `l`: each channel's output latency,
/// the delay that lines each input up with the slowest at its
/// destination, and the delay that lines each output up with the slowest.
pub open spec fn schedule_ok(nodes: Seq<PdcRoutingNode>, l: Seq<u64>, m: Seq<u64>, s: PdcRoutingSchedule) -> bool {
    let lat = s.output_latency_by_channel@;
    let fin = s.final_output_compensation@;
    let es = s.edge_compensation@;
    let mx = s.maximum_output_latency;
    &&& forall|v: int| 0 <= v < nodes.len() ==> #[trigger] lat.contains_key(nodes[v].channel_id) && lat[nodes[v].channel_id] == l[v]
    &&& forall|k: u32| #[trigger] lat.contains_key(k) ==> has_node(nodes, k)
    &&& forall|v: int| 0 <= v < nodes.len() && #[trigger] nodes[v].output ==> l[v] <= mx
    &&& exists|v: int| 0 <= v < nodes.len() && #[trigger] nodes[v].output && l[v] == mx
    &&& forall|v: int| 0 <= v < nodes.len() && #[trigger] nodes[v].output ==> fin.contains_key(nodes[v].channel_id) && fin[nodes[v].channel_id] == mx - l[v]
    &&& forall|k: u32| #[trigger] fin.contains_key(k) ==> exists|v: int| 0 <= v < nodes.len() && #[trigger] nodes[v].channel_id == k && nodes[v].output
    &&& forall|x: int| 0 <= x < es.len() ==> is_route_record(nodes, l, m, #[trigger] es[x])
    &&& forall|a: int, d: int| #[trigger] route(nodes, a, d) ==> es.contains(edge_of(nodes, l, m, a, d))
    &&& forall|x: int, y: int| 0 <= x < y < es.len() ==> edge_before(#[trigger] es[x], #[trigger] es[y])
}

/// Output latencies are determined by the graph: any two assignments that
/// satisfy the routing rule agree.
pub proof fn lemma_latencies_unique(
    nodes: Seq<PdcRoutingNode>,
    l1: Seq<u64>,
    m1: Seq<u64>,
    l2: Seq<u64>,
    m2: Seq<u64>,
)
    requires
        routing_ok(nodes),
        latencies_ok(nodes, l1, m1),
        latencies_ok(nodes, l2, m2),
    ensures
        l1 == l2,
        m1 == m2,
{
    let f = choose|f: spec_fn(int) -> nat| route_rank(nodes, f);
    assert forall|v: int| 0 <= v < nodes.len() implies l1[v] == l2[v] && m1[v] == m2[v] by {
        lemma_latency_agree(nodes, f, l1, m1, l2, m2, f(v), v);
    }
    assert(l1 =~= l2);
    assert(m1 =~= m2);
}

proof fn lemma_latency_agree(
    nodes: Seq<PdcRoutingNode>,
    f: spec_fn(int) -> nat,
    l1: Seq<u64>,
    m1: Seq<u64>,
    l2: Seq<u64>,
    m2: Seq<u64>,
    k: nat,
    v: int,
)
    requires
        route_rank(nodes, f),
        latencies_ok(nodes, l1, m1),
        latencies_ok(nodes, l2, m2),
        0 <= v < nodes.len(),
        f(v) == k,
    ensures
        l1[v] == l2[v],
        m1[v] == m2[v],
    decreases k,
{
    assert(arrival(nodes, l1, v, m1[v]));
    assert(arrival(nodes, l2, v, m2[v]));
    assert forall|s: int| #[trigger] route(nodes, s, v) implies l1[s] == l2[s] by {
        lemma_latency_agree(nodes, f, l1, m1, l2, m2, f(s), s);
    }
    if m1[v] > 0 {
        let s = choose|s: int| #[trigger] route(nodes, s, v) && l1[s] == m1[v];
        assert(l2[s] <= m2[v]);
    }
    if m2[v] > 0 {
        let s = choose|s: int| #[trigger] route(nodes, s, v) && l2[s] == m2[v];
        assert(l1[s] <= m1[v]);
    }
}

/// The position of the channel with the id.
fn node_position(nodes: &Vec<PdcRoutingNode>, id: u32) -> (r: Option<usize>)
    ensures
        match r {
            Some(i) => i < nodes.len() && nodes@[i as int].channel_id == id,
            None => !has_node(nodes@, id),
        },
{
    let mut i: usize = 0;
    while i < nodes.len()
        invariant
            i <= nodes.len(),
            forall|j: int| 0 <= j < i ==> nodes@[j].channel_id != id,
        decreases nodes.len() - i,
    {
        if nodes[i].channel_id == id {
            return Some(i);
        }
        i += 1;
    }
    None
}

/// Each route as a node position.
fn route_index(nodes: &Vec<PdcRoutingNode>) -> (adj: Vec<Vec<usize>>)
    requires
        routes_well_formed(nodes@),
    ensures
        adj.len() == nodes.len(),
        wf(model(&adj)),
        simple(model(&adj)),
        forall|s: int, d: int|
            0 <= s < nodes.len() && 0 <= d < nodes.len() ==> (#[trigger] edge(model(&adj), s, d) <==> route(
                nodes@,
                s,
                d,
            )),
{
    let n = nodes.len();
    let mut adj: Vec<Vec<usize>> = Vec::new();
    let mut s: usize = 0;
    while s < n
        invariant
            s <= n,
            n == nodes.len(),
            routes_well_formed(nodes@),
            adj.len() == s,
            forall|a: int| 0 <= a < s ==> (#[trigger] adj@[a])@.len() == nodes@[a].routes_to@.len(),
            forall|a: int, k: int|
                0 <= a < s && 0 <= k < adj@[a]@.len() ==> #[trigger] adj@[a]@[k] < n && nodes@[adj@[a]@[k] as int].channel_id
                    == nodes@[a].routes_to@[k],
        decreases n - s,
    {
        let routes = &nodes[s].routes_to;
        let mut row: Vec<usize> = Vec::new();
        let mut k: usize = 0;
        while k < routes.len()
            invariant
                s < n,
                n == nodes.len(),
                routes_well_formed(nodes@),
                routes@ == nodes@[s as int].routes_to@,
                k <= routes.len(),
                row.len() == k,
                forall|k2: int| 0 <= k2 < k ==> #[trigger] row@[k2] < n && nodes@[row@[k2] as int].channel_id == routes@[k2],
            decreases routes.len() - k,
        {
            proof {
                assert(has_node(nodes@, nodes@[s as int].routes_to@[k as int]));
            }
            let d = node_position(nodes, routes[k]).unwrap();
            row.push(d);
            k += 1;
        }
        adj.push(row);
        s += 1;
    }
    proof {
        let g = model(&adj);
        assert forall|a: int, k: int| 0 <= a < g.len() && 0 <= k < g[a].len() implies #[trigger] g[a][k] < g.len() by {
            assert(adj@[a]@[k] < n);
        }
        assert forall|a: int| 0 <= a < g.len() implies #[trigger] g[a].no_duplicates() by {
            assert forall|x: int, y: int| 0 <= x < g[a].len() && 0 <= y < g[a].len() && x != y implies g[a][x] != g[a][y] by {
                assert(adj@[a]@[x] < n && adj@[a]@[y] < n);
                assert(nodes@[a].routes_to@.no_duplicates());
                assert(nodes@[a].routes_to@[x] != nodes@[a].routes_to@[y]);
            }
        }
        assert forall|a: int, d: int| 0 <= a < n && 0 <= d < n implies (#[trigger] edge(g, a, d) <==> route(nodes@, a, d)) by {
            if edge(g, a, d) {
                let k = choose|k: int| 0 <= k < g[a].len() && g[a][k] == d;
                assert(nodes@[a].routes_to@[k] == nodes@[d].channel_id);
            }
            if route(nodes@, a, d) {
                let k = choose|k: int| 0 <= k < nodes@[a].routes_to@.len() && nodes@[a].routes_to@[k] == nodes@[d].channel_id;
                let d2 = adj@[a]@[k] as int;
                assert(nodes@[d2].channel_id == nodes@[d].channel_id);
                if d2 != d {
                    if d2 < d {
                        assert(nodes@[d2].channel_id != nodes@[d].channel_id);
                    } else {
                        assert(nodes@[d].channel_id != nodes@[d2].channel_id);
                    }
                }
                assert(g[a][k] == d);
            }
        }
    }
    adj
}

/// For each node, the nodes with an edge into it, ascending.
fn predecessors(adj: &Vec<Vec<usize>>) -> (preds: Vec<Vec<usize>>)
    requires
        wf(model(adj)),
    ensures
        preds.len() == adj.len(),
        forall|d: int, k: int| 0 <= d < preds.len() && 0 <= k < preds@[d]@.len() ==> #[trigger] preds@[d]@[k] < adj.len(),
        forall|d: int| 0 <= d < preds.len() ==> (#[trigger] preds@[d])@.no_duplicates(),
        forall|d: int, x: int|
            0 <= d < adj.len() && 0 <= x < adj.len() ==> (#[trigger] preds@[d]@.contains(x as usize) <==> edge(model(adj), x, d)),
{
    let n = adj.len();
    let mut preds: Vec<Vec<usize>> = Vec::new();
    let mut i: usize = 0;
    while i < n
        invariant
            i <= n,
            preds.len() == i,
            forall|x: int| 0 <= x < i ==> #[trigger] preds@[x]@.len() == 0,
        decreases n - i,
    {
        preds.push(Vec::new());
        i += 1;
    }
    let mut s: usize = 0;
    while s < n
        invariant
            s <= n,
            n == adj.len(),
            wf(model(adj)),
            preds.len() == n,
            forall|d: int, k: int| 0 <= d < n && 0 <= k < preds@[d]@.len() ==> #[trigger] preds@[d]@[k] < s,
            forall|d: int, k1: int, k2: int| 0 <= d < n && 0 <= k1 < k2 < preds@[d]@.len() ==> preds@[d]@[k1] < preds@[d]@[k2],
            forall|d: int, x: int|
                0 <= d < n && 0 <= x < n ==> (#[trigger] preds@[d]@.contains(x as usize) <==> (x < s && edge(model(adj), x, d))),
        decreases n - s,
    {
        let row = &adj[s];
        let mut k: usize = 0;
        while k < row.len()
            invariant
                s < n,
                n == adj.len(),
                wf(model(adj)),
                row@ == model(adj)[s as int],
                k <= row.len(),
                preds.len() == n,
                forall|d: int, j: int| 0 <= d < n && 0 <= j < preds@[d]@.len() ==> #[trigger] preds@[d]@[j] <= s,
                forall|d: int, k1: int, k2: int| 0 <= d < n && 0 <= k1 < k2 < preds@[d]@.len() ==> preds@[d]@[k1] < preds@[d]@[k2],
                forall|d: int, x: int|
                    0 <= d < n && 0 <= x < n ==> (#[trigger] preds@[d]@.contains(x as usize) <==> ((x < s && edge(model(adj), x, d)) || (x == s && row@.take(k as int).contains(d as usize)))),
            decreases row.len() - k,
        {
            let d = row[k];
            proof {
                assert(model(adj)[s as int][k as int] < n);
            }
            let ghost before = preds@;
            let len = preds[d].len();
            let fresh = len == 0 || preds[d][len - 1] != s;
            if fresh {
                let mut r: Vec<usize> = Vec::new();
                std::mem::swap(&mut r, &mut preds[d]);
                r.push(s);
                preds.set(d, r);
            }
            proof {
                let t0 = row@.take(k as int);
                let t1 = row@.take(k + 1);
                assert(t1 =~= t0.push(d));
                if fresh {
                    assert(preds@[d as int]@ =~= before[d as int]@.push(s));
                    assert forall|e: int| 0 <= e < n && e != d implies preds@[e]@ == before[e]@ by {}
                } else {
                    assert(preds@ == before);
                    assert(before[d as int]@[len - 1] == s);
                }
                assert forall|e: int, x: int| 0 <= e < n && 0 <= x < n implies (#[trigger] preds@[e]@.contains(x as usize) <==> ((x < s && edge(model(adj), x, e)) || (x == s && t1.contains(e as usize)))) by {
                    crate::keyed::lemma_contains_push(t0, d, e as usize);
                    if e == d as int && fresh {
                        crate::keyed::lemma_contains_push(before[d as int]@, s, x as usize);
                    }
                    if e == d as int && !fresh && x == s {
                        assert(before[d as int]@.contains(s));
                    }
                }
            }
            k += 1;
        }
        proof {
            assert(row@.take(k as int) =~= row@);
            assert forall|d: int, x: int| 0 <= d < n && 0 <= x < n implies (#[trigger] preds@[d]@.contains(x as usize) <==> (x < s + 1 && edge(model(adj), x, d))) by {
                if x == s {
                    if edge(model(adj), x, d) {
                        let j = choose|j: int| 0 <= j < model(adj)[x].len() && model(adj)[x][j] == d;
                        assert(row@[j] == d);
                    }
                    if row@.contains(d as usize) {
                        let j = choose|j: int| 0 <= j < row@.len() && row@[j] == d as usize;
                        assert(model(adj)[x][j] == d);
                    }
                }
            }
        }
        s += 1;
    }
    proof {
        assert forall|d: int| 0 <= d < n implies (#[trigger] preds@[d])@.no_duplicates() by {
            assert forall|x: int, y: int| 0 <= x < preds@[d]@.len() && 0 <= y < preds@[d]@.len() && x != y implies preds@[d]@[x] != preds@[d]@[y] by {
                if x < y {
                    assert(preds@[d]@[x] < preds@[d]@[y]);
                } else {
                    assert(preds@[d]@[y] < preds@[d]@[x]);
                }
            }
        }
    }
    preds
}


/// A rank of the routes ranks the index graph, and back.
proof fn lemma_route_rank(nodes: Seq<PdcRoutingNode>, g: Seq<Seq<usize>>)
    requires
        g.len() == nodes.len(),
        wf(g),
        forall|s: int, d: int|
            0 <= s < nodes.len() && 0 <= d < nodes.len() ==> (#[trigger] edge(g, s, d) <==> route(nodes, s, d)),
    ensures
        acyclic(g) == exists|f: spec_fn(int) -> nat| route_rank(nodes, f),
{
    if exists|f: spec_fn(int) -> nat| route_rank(nodes, f) {
        let f = choose|f: spec_fn(int) -> nat| route_rank(nodes, f);
        assert forall|i: int, j: int| #[trigger] edge(g, i, j) implies f(i) < f(j) by {
            let k = choose|k: int| 0 <= k < g[i].len() && g[i][k] == j;
            assert(route(nodes, i, j));
        }
        assert(is_rank(g, f));
    }
    if acyclic(g) {
        let f = choose|f: spec_fn(int) -> nat| is_rank(g, f);
        assert forall|s: int, d: int| #[trigger] route(nodes, s, d) implies f(s) < f(d) by {
            assert(edge(g, s, d));
        }
        assert(route_rank(nodes, f));
    }
}

/// The arrival at `v` only reads the inputs of `v`.
proof fn lemma_arrival_frame(nodes: Seq<PdcRoutingNode>, l: Seq<u64>, l2: Seq<u64>, v: int, m: u64)
    requires
        arrival(nodes, l, v, m),
        forall|s: int| #[trigger] route(nodes, s, v) ==> l2[s] == l[s],
    ensures
        arrival(nodes, l2, v, m),
{
    if m > 0 {
        let s = choose|s: int| #[trigger] route(nodes, s, v) && l[s] == m;
        assert(route(nodes, s, v) && l2[s] == m);
    }
}

fn zeros64(n: usize) -> (v: Vec<u64>)
    ensures
        v@ == Seq::new(n as nat, |i: int| 0u64),
{
    let mut v: Vec<u64> = Vec::new();
    let mut i: usize = 0;
    while i < n
        invariant
            i <= n,
            v@ == Seq::new(i as nat, |j: int| 0u64),
        decreases n - i,
    {
        v.push(0);
        i += 1;
        proof {
            assert(v@ =~= Seq::new(i as nat, |j: int| 0u64));
        }
    }
    v
}

/// Output latency and slowest arrival of every channel, worked out in
/// topological order.
fn path_latencies(nodes: &Vec<PdcRoutingNode>, adj: &Vec<Vec<usize>>, preds: &Vec<Vec<usize>>) -> (r: (
    Vec<u64>,
    Vec<u64>,
))
    requires
        routing_ok(nodes@),
        adj.len() == nodes.len(),
        wf(model(adj)),
        simple(model(adj)),
        forall|s: int, d: int|
            0 <= s < nodes.len() && 0 <= d < nodes.len() ==> (#[trigger] edge(model(adj), s, d) <==> route(nodes@, s, d)),
        preds.len() == adj.len(),
        forall|d: int, k: int| 0 <= d < preds.len() && 0 <= k < preds@[d]@.len() ==> #[trigger] preds@[d]@[k] < adj.len(),
        forall|d: int, x: int|
            0 <= d < adj.len() && 0 <= x < adj.len() ==> (#[trigger] preds@[d]@.contains(x as usize) <==> edge(model(adj), x, d)),
    ensures
        latencies_ok(nodes@, r.0@, r.1@),
{
    let n = nodes.len();
    let ghost g = model(adj);
    proof {
        lemma_route_rank(nodes@, g);
    }
    let order = kahn_order(adj);
    let mut l = zeros64(n);
    let mut m = zeros64(n);
    let mut p: usize = 0;
    while p < n
        invariant
            p <= n,
            n == nodes.len(),
            n <= 65_536,
            g == model(adj),
            order.len() == n,
            order@.no_duplicates(),
            forall|q: int| 0 <= q < n ==> #[trigger] order@[q] < n,
            forall|q: int, i2: int|
                0 <= q < n && #[trigger] edge(g, i2, order@[q] as int) ==> exists|q2: int|
                    0 <= q2 < q && order@[q2] == i2,
            forall|s: int, d: int| 0 <= s < n && 0 <= d < n ==> (#[trigger] edge(g, s, d) <==> route(nodes@, s, d)),
            preds.len() == n,
            forall|d: int, k: int| 0 <= d < n && 0 <= k < preds@[d]@.len() ==> #[trigger] preds@[d]@[k] < n,
            forall|d: int, x: int| 0 <= d < n && 0 <= x < n ==> (#[trigger] preds@[d]@.contains(x as usize) <==> edge(g, x, d)),
            l.len() == n,
            m.len() == n,
            forall|q: int| 0 <= q < p ==> l@[#[trigger] order@[q] as int] <= (q + 1) * 0x2_0000_0000,
            forall|q: int|
                0 <= q < p ==> arrival(nodes@, l@, #[trigger] order@[q] as int, m@[order@[q] as int]) && l@[order@[q] as int]
                    == m@[order@[q] as int] + own_latency(nodes@[order@[q] as int]),
        decreases n - p,
    {
        let v = order[p];
        let row = &preds[v];
        let mut best: u64 = 0;
        let mut k: usize = 0;
        while k < row.len()
            invariant
                p < n,
                n <= 65_536,
                v == order@[p as int],
                v < n,
                row@ == preds@[v as int]@,
                k <= row.len(),
                l.len() == n,
                order.len() == n,
                order@.no_duplicates(),
                forall|q: int| 0 <= q < n ==> #[trigger] order@[q] < n,
                forall|q: int, i2: int|
                    0 <= q < n && #[trigger] edge(g, i2, order@[q] as int) ==> exists|q2: int|
                        0 <= q2 < q && order@[q2] == i2,
                forall|d: int, j: int| 0 <= d < n && 0 <= j < preds@[d]@.len() ==> #[trigger] preds@[d]@[j] < n,
                forall|d: int, x: int| 0 <= d < n && 0 <= x < n ==> (#[trigger] preds@[d]@.contains(x as usize) <==> edge(g, x, d)),
                forall|q: int| 0 <= q < p ==> l@[#[trigger] order@[q] as int] <= (q + 1) * 0x2_0000_0000,
                best <= p * 0x2_0000_0000,
                forall|j: int| 0 <= j < k ==> l@[#[trigger] row@[j] as int] <= best,
                best == 0 || exists|j: int| 0 <= j < k && l@[#[trigger] row@[j] as int] == best,
            decreases row.len() - k,
        {
            let x = row[k];
            proof {
                let xi = x as int;
                assert(row@[k as int] == x);
                assert(preds@[v as int]@.contains(xi as usize));
                assert(x < n);
                assert(edge(g, xi, order@[p as int] as int));
                let q2 = choose|q2: int| 0 <= q2 < p && order@[q2] == x;
                assert(l@[order@[q2] as int] <= (q2 + 1) * 0x2_0000_0000);
                assert((q2 + 1) * 0x2_0000_0000 <= p * 0x2_0000_0000);
            }
            if l[x] > best {
                best = l[x];
            }
            k += 1;
        }
        let own = nodes[v].plugin_latency_samples as u64 + nodes[v].external_latency_samples as u64;
        proof {
            assert(p * 0x2_0000_0000 + own <= (p + 1) * 0x2_0000_0000);
            assert((p + 1) * 0x2_0000_0000 <= 65_536 * 0x2_0000_0000);
        }
        let ghost l0 = l@;
        m.set(v, best);
        l.set(v, best + own);
        proof {
            assert forall|q: int| 0 <= q < p implies #[trigger] order@[q] != v by {
                assert(order@[q] != order@[p as int]);
            }
            // the arrival at v
            assert forall|s: int| #[trigger] route(nodes@, s, v as int) implies l@[s] <= best by {
                assert(edge(g, s, order@[p as int] as int));
                assert(preds@[v as int]@.contains(s as usize));
                let j = choose|j: int| 0 <= j < row@.len() && row@[j] == s as usize;
                let q2 = choose|q2: int| 0 <= q2 < p && order@[q2] == s;
                assert(s != v);
            }
            if best > 0 {
                let j = choose|j: int| 0 <= j < row@.len() && l0[#[trigger] row@[j] as int] == best;
                let s = row@[j] as int;
                assert(preds@[v as int]@.contains(s as usize));
                assert(edge(g, s, v as int));
                assert(route(nodes@, s, v as int));
                let q2 = choose|q2: int| 0 <= q2 < p && order@[q2] == s;
                assert(s != v);
            }
            assert(arrival(nodes@, l@, v as int, best));
            assert forall|q: int| 0 <= q < p + 1 implies arrival(nodes@, l@, #[trigger] order@[q] as int, m@[order@[q] as int]) && l@[order@[q] as int]
                == m@[order@[q] as int] + own_latency(nodes@[order@[q] as int]) by {
                if q < p {
                    let w = order@[q] as int;
                    assert forall|s: int| #[trigger] route(nodes@, s, w) implies l@[s] == l0[s] by {
                        assert(edge(g, s, order@[q] as int));
                        let q3 = choose|q3: int| 0 <= q3 < q && order@[q3] == s;
                        assert(order@[q3] != v);
                    }
                    lemma_arrival_frame(nodes@, l0, l@, w, m@[w]);
                }
            }
        }
        p += 1;
    }
    proof {
        assert forall|v: int| 0 <= v < n implies #[trigger] arrival(nodes@, l@, v, m@[v]) && l@[v] == m@[v] + own_latency(nodes@[v]) by {
            assert(order@.contains(v as usize));
            let q = choose|q: int| 0 <= q < order@.len() && order@[q] == v as usize;
            assert(arrival(nodes@, l@, order@[q] as int, m@[order@[q] as int]));
        }
        assert(latencies_ok(nodes@, l@, m@));
    }
    (l, m)
}

/// `u32` keys order as the integers do, so a map keyed by them behaves.
pub open spec fn integer_keys_ordered() -> bool {
    vstd::laws_cmp::obeys_cmp::<u32>()
}

proof fn lemma_integer_keys_ordered()
    ensures
        integer_keys_ordered(),
{
    broadcast use vstd::laws_cmp::group_laws_cmp;
}

/// Sorting keeps the routes' compensation records.
proof fn lemma_sorted_edges(
    ns: Seq<PdcRoutingNode>,
    l: Seq<u64>,
    m: Seq<u64>,
    es: Seq<PdcEdgeCompensation>,
    es2: Seq<PdcEdgeCompensation>,
)
    requires
        forall|x: int| 0 <= x < es.len() ==> is_route_record(ns, l, m, #[trigger] es[x]),
        forall|a: int, d: int| #[trigger] route(ns, a, d) ==> es.contains(edge_of(ns, l, m, a, d)),
        exists|p: Seq<usize>|
            {
                &&& is_perm(p, es.len() as int)
                &&& es2.len() == p.len()
                &&& forall|x: int| 0 <= x < p.len() ==> #[trigger] es2[x] == es[p[x] as int]
            },
        es.len() <= usize::MAX,
    ensures
        forall|x: int| 0 <= x < es2.len() ==> is_route_record(ns, l, m, #[trigger] es2[x]),
        forall|a: int, d: int| #[trigger] route(ns, a, d) ==> es2.contains(edge_of(ns, l, m, a, d)),
{
    let p = choose|p: Seq<usize>|
        {
            &&& is_perm(p, es.len() as int)
            &&& es2.len() == p.len()
            &&& forall|x: int| 0 <= x < p.len() ==> #[trigger] es2[x] == es[p[x] as int]
        };
    assert forall|x: int| 0 <= x < es2.len() implies is_route_record(ns, l, m, #[trigger] es2[x]) by {
        assert(es2[x] == es[p[x] as int]);
    }
    assert forall|a: int, d: int| #[trigger] route(ns, a, d) implies es2.contains(edge_of(ns, l, m, a, d)) by {
        let y = choose|y: int| 0 <= y < es.len() && es[y] == edge_of(ns, l, m, a, d);
        crate::sorting::lemma_perm_covers(p, es.len() as int, y);
        let x = choose|x: int| 0 <= x < es.len() && #[trigger] p[x] == y;
        assert(es2[x] == edge_of(ns, l, m, a, d));
    }
}

/// Each channel's output latency, keyed by channel id.
fn latency_map(nodes: &Vec<PdcRoutingNode>, l: &Vec<u64>) -> (lat: std::collections::BTreeMap<u32, u64>)
    requires
        routing_ok(nodes@),
        l.len() == nodes.len(),
    ensures
        forall|v: int| 0 <= v < nodes.len() ==> #[trigger] lat@.contains_key(nodes@[v].channel_id) && lat@[nodes@[v].channel_id] == l@[v],
        forall|k: u32| #[trigger] lat@.contains_key(k) ==> has_node(nodes@, k),
{
    broadcast use vstd::std_specs::btree::group_btree_axioms;
    proof {
        lemma_integer_keys_ordered();
    }
    let ghost ns = nodes@;
    let n = nodes.len();
    let mut lat = std::collections::BTreeMap::<u32, u64>::new();
    let mut v: usize = 0;
    while v < n
        invariant
            v <= n,
            n == ns.len(),
            ns == nodes@,
            routing_ok(ns),
            l.len() == n,
            integer_keys_ordered(),
            forall|w: int| 0 <= w < v ==> #[trigger] lat@.contains_key(ns[w].channel_id) && lat@[ns[w].channel_id] == l@[w],
            forall|k: u32| #[trigger] lat@.contains_key(k) ==> exists|w: int| 0 <= w < v && #[trigger] ns[w].channel_id == k,
        decreases n - v,
    {
        lat.insert(nodes[v].channel_id, l[v]);
        proof {
            assert forall|w: int| 0 <= w < v + 1 implies #[trigger] lat@.contains_key(ns[w].channel_id) && lat@[ns[w].channel_id] == l@[w] by {
                if w < v {
                    assert(ns[w].channel_id != ns[v as int].channel_id);
                }
            }
            assert forall|k: u32| #[trigger] lat@.contains_key(k) implies exists|w: int| 0 <= w < v + 1 && #[trigger] ns[w].channel_id == k by {
                if k == ns[v as int].channel_id {
                    assert(ns[v as int].channel_id == k);
                }
            }
        }
        v += 1;
    }
    proof {
        assert(forall|w: int| 0 <= w < nodes@.len() ==> #[trigger] lat@.contains_key(nodes@[w].channel_id) && lat@[nodes@[w].channel_id] == l@[w]);
    }
    lat
}

/// The highest output latency among the outputs.
fn slowest_output(nodes: &Vec<PdcRoutingNode>, l: &Vec<u64>) -> (mx: u64)
    requires
        routing_ok(nodes@),
        l.len() == nodes.len(),
    ensures
        forall|v: int| 0 <= v < nodes.len() && #[trigger] nodes@[v].output ==> l@[v] <= mx,
        exists|v: int| 0 <= v < nodes.len() && #[trigger] nodes@[v].output && l@[v] == mx,
{
    let ghost ns = nodes@;
    let n = nodes.len();
    let mut mx: u64 = 0;
    let mut v: usize = 0;
    while v < n
        invariant
            v <= n,
            n == ns.len(),
            ns == nodes@,
            l.len() == n,
            forall|w: int| 0 <= w < v && #[trigger] ns[w].output ==> l@[w] <= mx,
            mx == 0 || exists|w: int| 0 <= w < v && #[trigger] ns[w].output && l@[w] == mx,
        decreases n - v,
    {
        if nodes[v].output && l[v] > mx {
            mx = l[v];
        }
        v += 1;
    }
    proof {
        if mx == 0 {
            let w = choose|w: int| 0 <= w < ns.len() && #[trigger] ns[w].output;
            assert(l@[w] <= mx);
        }
    }
    mx
}

/// How far each output trails the slowest, keyed by channel id.
fn output_trail(nodes: &Vec<PdcRoutingNode>, l: &Vec<u64>, mx: u64) -> (fin: std::collections::BTreeMap<u32, u64>)
    requires
        routing_ok(nodes@),
        l.len() == nodes.len(),
        forall|v: int| 0 <= v < nodes.len() && #[trigger] nodes@[v].output ==> l@[v] <= mx,
    ensures
        forall|v: int| 0 <= v < nodes.len() && #[trigger] nodes@[v].output ==> fin@.contains_key(nodes@[v].channel_id) && fin@[nodes@[v].channel_id] == mx - l@[v],
        forall|k: u32| #[trigger] fin@.contains_key(k) ==> exists|v: int| 0 <= v < nodes.len() && #[trigger] nodes@[v].channel_id == k && nodes@[v].output,
{
    broadcast use vstd::std_specs::btree::group_btree_axioms;
    proof {
        lemma_integer_keys_ordered();
    }
    let ghost ns = nodes@;
    let n = nodes.len();
    let mut fin = std::collections::BTreeMap::<u32, u64>::new();
    let mut v: usize = 0;
    while v < n
        invariant
            v <= n,
            n == ns.len(),
            ns == nodes@,
            routing_ok(ns),
            l.len() == n,
            integer_keys_ordered(),
            forall|w: int| 0 <= w < n && #[trigger] ns[w].output ==> l@[w] <= mx,
            forall|w: int| 0 <= w < v && #[trigger] ns[w].output ==> fin@.contains_key(ns[w].channel_id) && fin@[ns[w].channel_id] == mx - l@[w],
            forall|k: u32| #[trigger] fin@.contains_key(k) ==> exists|w: int| 0 <= w < v && #[trigger] ns[w].channel_id == k && ns[w].output,
        decreases n - v,
    {
        if nodes[v].output {
            fin.insert(nodes[v].channel_id, mx - l[v]);
            proof {
                assert forall|w: int| 0 <= w < v + 1 && #[trigger] ns[w].output implies fin@.contains_key(ns[w].channel_id) && fin@[ns[w].channel_id] == mx - l@[w] by {
                    if w < v {
                        assert(ns[w].channel_id != ns[v as int].channel_id);
                    }
                }
                assert forall|k: u32| #[trigger] fin@.contains_key(k) implies exists|w: int| 0 <= w < v + 1 && #[trigger] ns[w].channel_id == k && ns[w].output by {
                    if k == ns[v as int].channel_id {
                        assert(ns[v as int].channel_id == k && ns[v as int].output);
                    }
                }
            }
        }
        v += 1;
    }
    fin
}

/// The record compensates some route.
pub open spec fn is_route_record(ns: Seq<PdcRoutingNode>, l: Seq<u64>, m: Seq<u64>, e: PdcEdgeCompensation) -> bool {
    exists|a: int, d: int| #[trigger] route(ns, a, d) && e == edge_of(ns, l, m, a, d)
}

/// The compensation record of a route.
pub open spec fn edge_of(nodes: Seq<PdcRoutingNode>, l: Seq<u64>, m: Seq<u64>, a: int, d: int) -> PdcEdgeCompensation {
    PdcEdgeCompensation {
        source: nodes[a].channel_id,
        destination: nodes[d].channel_id,
        delay_samples: (m[d] - l[a]) as u64,
    }
}

impl PdcRoutingGraph {
    /// Ids and routes are sound, leaving aside outputs and feedback loops.
    fn routes_sound(&self) -> (r: bool)
        ensures
            r == routes_well_formed(self.nodes@),
    {
        let n = self.nodes.len();
        if n == 0 || n > 65_536 {
            return false;
        }
        let mut a: usize = 0;
        while a < n
            invariant
                a <= n,
                n == self.nodes.len(),
                1 <= n <= 65_536,
                forall|x: int, y: int| 0 <= x < y < n && x < a ==> self.nodes@[x].channel_id != self.nodes@[y].channel_id,
                forall|x: int| 0 <= x < a ==> #[trigger] self.nodes@[x].channel_id != 0,
                forall|x: int| 0 <= x < a ==> (#[trigger] self.nodes@[x].routes_to@).len() <= 4096 && self.nodes@[x].routes_to@.no_duplicates(),
                forall|x: int, k: int|
                    0 <= x < a && 0 <= k < self.nodes@[x].routes_to@.len() ==> #[trigger] self.nodes@[x].routes_to@[k]
                        != self.nodes@[x].channel_id && has_node(self.nodes@, self.nodes@[x].routes_to@[k]),
            decreases n - a,
        {
            let node = &self.nodes[a];
            if node.channel_id == 0 || node.routes_to.len() > 4096 {
                proof {
                    assert(!(self.nodes@[a as int].channel_id != 0 && self.nodes@[a as int].routes_to@.len() <= 4096));
                }
                return false;
            }
            let mut b: usize = a + 1;
            while b < n
                invariant
                    a < b <= n,
                    n == self.nodes.len(),
                    *node == self.nodes@[a as int],
                    forall|y: int| a < y < b ==> self.nodes@[a as int].channel_id != self.nodes@[y].channel_id,
                decreases n - b,
            {
                if self.nodes[b].channel_id == node.channel_id {
                    proof {
                        assert(self.nodes@[a as int].channel_id == self.nodes@[b as int].channel_id);
                    }
                    return false;
                }
                b += 1;
            }
            let routes = &node.routes_to;
            let mut k: usize = 0;
            while k < routes.len()
                invariant
                    k <= routes.len(),
                    a < n,
                    n == self.nodes.len(),
                    *node == self.nodes@[a as int],
                    routes@ == self.nodes@[a as int].routes_to@,
                    forall|k2: int| 0 <= k2 < k ==> #[trigger] routes@[k2] != self.nodes@[a as int].channel_id && has_node(self.nodes@, routes@[k2]),
                    forall|k1: int, k2: int| 0 <= k1 < k2 < k ==> routes@[k1] != routes@[k2],
                decreases routes.len() - k,
            {
                let d = routes[k];
                if d == node.channel_id || node_position(&self.nodes, d).is_none() {
                    proof {
                        assert(self.nodes@[a as int].routes_to@[k as int] == d);
                    }
                    return false;
                }
                let mut k1: usize = 0;
                while k1 < k
                    invariant
                        k1 <= k < routes.len(),
                        a < n,
                        n == self.nodes.len(),
                        routes@ == self.nodes@[a as int].routes_to@,
                        d == routes@[k as int],
                        forall|j: int| 0 <= j < k1 ==> routes@[j] != d,
                    decreases k - k1,
                {
                    if routes[k1] == d {
                        proof {
                            assert(self.nodes@[a as int].routes_to@[k1 as int] == self.nodes@[a as int].routes_to@[k as int]);
                            assert(!self.nodes@[a as int].routes_to@.no_duplicates());
                        }
                        return false;
                    }
                    k1 += 1;
                }
                k += 1;
            }
            proof {
                assert forall|x: int, y: int| 0 <= x < routes@.len() && 0 <= y < routes@.len() && x != y implies routes@[x] != routes@[y] by {
                    if x < y {
                        assert(routes@[x] != routes@[y]);
                    } else {
                        assert(routes@[y] != routes@[x]);
                    }
                }
            }
            a += 1;
        }
        true
    }

    fn is_acyclic(&self) -> (r: bool)
        requires
            routes_well_formed(self.nodes@),
        ensures
            r == exists|f: spec_fn(int) -> nat| route_rank(self.nodes@, f),
    {
        let adj = route_index(&self.nodes);
        proof {
            lemma_route_rank(self.nodes@, model(&adj));
        }
        let order = kahn_order(&adj);
        order.len() == self.nodes.len()
    }

    /// The graph is sound and has no feedback loop.
    pub fn validate(&self) -> (r: bool)
        ensures
            r == routing_ok(self.nodes@),
    {
        if !self.routes_sound() {
            return false;
        }
        let mut any_output = false;
        let mut a: usize = 0;
        while a < self.nodes.len()
            invariant
                a <= self.nodes.len(),
                any_output == exists|x: int| 0 <= x < a && #[trigger] self.nodes@[x].output,
            decreases self.nodes.len() - a,
        {
            if self.nodes[a].output {
                any_output = true;
            }
            a += 1;
        }
        any_output && self.is_acyclic()
    }

    /// A sample-accurate compensation schedule: every input of a channel
    /// is delayed to its slowest input, and every output to the slowest
    /// output.  Refused for an unsound or cyclic graph.
    pub fn schedule(&self) -> (r: Result<PdcRoutingSchedule, String>)
        ensures
            r is Ok <==> routing_ok(self.nodes@),
            r matches Err(e) ==> e@ == "invalid or cyclic PDC routing graph"@,
            r matches Ok(s) ==> exists|l: Seq<u64>, m: Seq<u64>|
                latencies_ok(self.nodes@, l, m) && schedule_ok(self.nodes@, l, m, s),
    {
        broadcast use vstd::std_specs::btree::group_btree_axioms;
        proof {
            lemma_integer_keys_ordered();
        }
        if !self.validate() {
            return Err(copy_str("invalid or cyclic PDC routing graph"));
        }
        let ghost ns = self.nodes@;
        let n = self.nodes.len();
        let adj = route_index(&self.nodes);
        let preds = predecessors(&adj);
        let (l, m) = path_latencies(&self.nodes, &adj, &preds);
        let lat = latency_map(&self.nodes, &l);
        let mx = slowest_output(&self.nodes, &l);
        let fin = output_trail(&self.nodes, &l, mx);
        let es = edge_records(&self.nodes, &adj, &preds, &l, &m);
        let ne = es.len();
        let sorted = sort_edges(&es);
        let sched = PdcRoutingSchedule {
            output_latency_by_channel: lat,
            edge_compensation: sorted,
            final_output_compensation: fin,
            maximum_output_latency: mx,
        };
        proof {
            assert(es@.len() == ne);
            lemma_sorted_edges(ns, l@, m@, es@, sched.edge_compensation@);
            assert(schedule_ok(ns, l@, m@, sched));
        }
        Ok(sched)
    }
}


/// The compensation record of every route, destination by destination.
fn edge_records(
    nodes: &Vec<PdcRoutingNode>,
    adj: &Vec<Vec<usize>>,
    preds: &Vec<Vec<usize>>,
    l: &Vec<u64>,
    m: &Vec<u64>,
) -> (es: Vec<PdcEdgeCompensation>)
    requires
        routing_ok(nodes@),
        adj.len() == nodes.len(),
        forall|s: int, d: int|
            0 <= s < nodes.len() && 0 <= d < nodes.len() ==> (#[trigger] edge(model(adj), s, d) <==> route(nodes@, s, d)),
        preds.len() == adj.len(),
        forall|d: int, k: int| 0 <= d < preds.len() && 0 <= k < preds@[d]@.len() ==> #[trigger] preds@[d]@[k] < adj.len(),
        forall|d: int| 0 <= d < preds.len() ==> (#[trigger] preds@[d])@.no_duplicates(),
        forall|d: int, x: int|
            0 <= d < adj.len() && 0 <= x < adj.len() ==> (#[trigger] preds@[d]@.contains(x as usize) <==> edge(model(adj), x, d)),
        latencies_ok(nodes@, l@, m@),
    ensures
        forall|x: int| 0 <= x < es@.len() ==> is_route_record(nodes@, l@, m@, #[trigger] es@[x]),
        forall|a: int, d: int| #[trigger] route(nodes@, a, d) ==> es@.contains(edge_of(nodes@, l@, m@, a, d)),
        forall|x: int, y: int|
            0 <= x < es@.len() && 0 <= y < es@.len() && x != y ==> (#[trigger] es@[x].destination, es@[x].source)
                != (#[trigger] es@[y].destination, es@[y].source),
{
    let n = nodes.len();
    let ghost ns = nodes@;
    let ghost g = model(adj);
    let mut es: Vec<PdcEdgeCompensation> = Vec::new();
    let ghost mut src: Seq<(int, int)> = Seq::empty();
    let mut d: usize = 0;
    while d < n
        invariant
            d <= n,
            n == ns.len(),
            ns == nodes@,
            g == model(adj),
            routing_ok(ns),
            forall|s2: int, d2: int| 0 <= s2 < n && 0 <= d2 < n ==> (#[trigger] edge(g, s2, d2) <==> route(ns, s2, d2)),
            preds.len() == n,
            forall|d2: int, k: int| 0 <= d2 < n && 0 <= k < preds@[d2]@.len() ==> #[trigger] preds@[d2]@[k] < n,
            forall|d2: int, x: int| 0 <= d2 < n && 0 <= x < n ==> (#[trigger] preds@[d2]@.contains(x as usize) <==> edge(g, x, d2)),
            forall|d2: int| 0 <= d2 < n ==> (#[trigger] preds@[d2])@.no_duplicates(),
            latencies_ok(ns, l@, m@),
            src.len() == es@.len(),
            forall|x: int| 0 <= x < src.len() ==> route(ns, (#[trigger] src[x]).0, src[x].1) && src[x].1 < d && es@[x] == edge_of(ns, l@, m@, src[x].0, src[x].1),
            forall|a: int, d2: int| #[trigger] route(ns, a, d2) && d2 < d ==> src.contains((a, d2)),
            src.no_duplicates(),
        decreases n - d,
    {
        let row = &preds[d];
        let mut j: usize = 0;
        while j < row.len()
            invariant
                d < n,
                n == ns.len(),
                ns == nodes@,
                g == model(adj),
                routing_ok(ns),
                row@ == preds@[d as int]@,
                row@.no_duplicates(),
                j <= row.len(),
                forall|s2: int, d2: int| 0 <= s2 < n && 0 <= d2 < n ==> (#[trigger] edge(g, s2, d2) <==> route(ns, s2, d2)),
                forall|d2: int, k: int| 0 <= d2 < n && 0 <= k < preds@[d2]@.len() ==> #[trigger] preds@[d2]@[k] < n,
                forall|d2: int, x: int| 0 <= d2 < n && 0 <= x < n ==> (#[trigger] preds@[d2]@.contains(x as usize) <==> edge(g, x, d2)),
                latencies_ok(ns, l@, m@),
                src.len() == es@.len(),
                forall|x: int| 0 <= x < src.len() ==> route(ns, (#[trigger] src[x]).0, src[x].1) && es@[x] == edge_of(ns, l@, m@, src[x].0, src[x].1),
                forall|x: int| 0 <= x < src.len() ==> (#[trigger] src[x]).1 < d || (src[x].1 == d && row@.take(j as int).contains(src[x].0 as usize)),
                forall|a: int, d2: int| #[trigger] route(ns, a, d2) && d2 < d ==> src.contains((a, d2)),
                forall|k: int| 0 <= k < j ==> src.contains((#[trigger] row@[k] as int, d as int)),
                src.no_duplicates(),
            decreases row.len() - j,
        {
            let a = row[j];
            proof {
                let ai = a as int;
                assert(preds@[d as int]@[j as int] == a);
                assert(preds@[d as int]@.contains(ai as usize));
                assert(a < n);
                assert(edge(g, ai, d as int));
                assert(route(ns, ai, d as int));
                assert(arrival(ns, l@, d as int, m@[d as int]));
                assert(l@[a as int] <= m@[d as int]);
            }
            let e = PdcEdgeCompensation {
                source: nodes[a].channel_id,
                destination: nodes[d].channel_id,
                delay_samples: m[d] - l[a],
            };
            es.push(e);
            proof {
                let pair = (a as int, d as int);
                assert(!src.contains(pair)) by {
                    if src.contains(pair) {
                        let x = choose|x: int| 0 <= x < src.len() && src[x] == pair;
                        assert(src[x].1 == d);
                        assert(row@.take(j as int).contains(src[x].0 as usize));
                        assert(src[x].0 as usize == a);
                        let k = choose|k: int| 0 <= k < row@.take(j as int).len() && row@.take(j as int)[k] == a;
                        assert(row@[k] == row@[j as int]);
                    }
                }
                let src0 = src;
                src = src.push(pair);
                assert(row@.take(j + 1) =~= row@.take(j as int).push(a));
                assert forall|x: int| 0 <= x < src.len() implies (#[trigger] src[x]).1 < d || (src[x].1 == d && row@.take(j + 1).contains(src[x].0 as usize)) by {
                    if x < src0.len() {
                        assert(src[x] == src0[x]);
                        if src0[x].1 == d {
                            crate::keyed::lemma_contains_push(row@.take(j as int), a, src0[x].0 as usize);
                        }
                    } else {
                        assert(row@.take(j + 1)[j as int] == a);
                    }
                }
                assert forall|a2: int, d2: int| #[trigger] route(ns, a2, d2) && d2 < d implies src.contains((a2, d2)) by {
                    assert(src0.contains((a2, d2)));
                    let x = choose|x: int| 0 <= x < src0.len() && src0[x] == (a2, d2);
                    assert(src[x] == (a2, d2));
                }
                assert forall|k: int| 0 <= k < j + 1 implies src.contains((#[trigger] row@[k] as int, d as int)) by {
                    if k < j {
                        assert(src0.contains((row@[k] as int, d as int)));
                        let x = choose|x: int| 0 <= x < src0.len() && src0[x] == (row@[k] as int, d as int);
                        assert(src[x] == src0[x]);
                    } else {
                        assert(src[src0.len() as int] == pair);
                    }
                }
                assert forall|x: int, y: int| 0 <= x < src.len() && 0 <= y < src.len() && x != y implies src[x] != src[y] by {
                    if x < src0.len() && y < src0.len() {
                        assert(src0.no_duplicates());
                    } else if x == src0.len() {
                        assert(src[y] == src0[y]);
                    } else {
                        assert(src[x] == src0[x]);
                    }
                }
            }
            j += 1;
        }
        proof {
            assert(row@.take(j as int) =~= row@);
            assert forall|a: int, d2: int| #[trigger] route(ns, a, d2) && d2 < d + 1 implies src.contains((a, d2)) by {
                if d2 == d {
                    assert(edge(g, a, d as int));
                    assert(0 <= a < n);
                    assert(preds@[d as int]@.contains(a as usize));
                    let k = choose|k: int| 0 <= k < row@.len() && row@[k] == a as usize;
                    assert(src.contains((row@[k] as int, d as int)));
                }
            }
            assert forall|x: int| 0 <= x < src.len() implies route(ns, (#[trigger] src[x]).0, src[x].1) && src[x].1 < d + 1 && es@[x] == edge_of(ns, l@, m@, src[x].0, src[x].1) by {
                assert(src[x].1 < d || src[x].1 == d);
            }
        }
        d += 1;
    }
    proof {
        assert forall|x: int| 0 <= x < es@.len() implies is_route_record(nodes@, l@, m@, #[trigger] es@[x]) by {
            let pr = src[x];
            assert(route(nodes@, pr.0, pr.1) && es@[x] == edge_of(nodes@, l@, m@, pr.0, pr.1));
        }
        assert forall|a: int, d2: int| #[trigger] route(nodes@, a, d2) implies es@.contains(edge_of(nodes@, l@, m@, a, d2)) by {
            assert(src.contains((a, d2)));
            let x = choose|x: int| 0 <= x < src.len() && src[x] == (a, d2);
            assert(es@[x] == edge_of(ns, l@, m@, a, d2));
        }
        assert forall|x: int, y: int|
            0 <= x < es@.len() && 0 <= y < es@.len() && x != y implies (#[trigger] es@[x].destination, es@[x].source)
                != (#[trigger] es@[y].destination, es@[y].source) by {
            let (a1, d1) = src[x];
            let (a2, d2) = src[y];
            assert(src[x] != src[y]);
            assert(route(ns, a1, d1) && route(ns, a2, d2));
            if d1 != d2 {
                if d1 < d2 {
                    assert(ns[d1].channel_id != ns[d2].channel_id);
                } else {
                    assert(ns[d2].channel_id != ns[d1].channel_id);
                }
            } else if a1 != a2 {
                if a1 < a2 {
                    assert(ns[a1].channel_id != ns[a2].channel_id);
                } else {
                    assert(ns[a2].channel_id != ns[a1].channel_id);
                }
            }
        }
    }
    es
}

/// The records in ascending (destination, source) order.
fn sort_edges(es: &Vec<PdcEdgeCompensation>) -> (r: Vec<PdcEdgeCompensation>)
    requires
        forall|x: int, y: int|
            0 <= x < es@.len() && 0 <= y < es@.len() && x != y ==> (#[trigger] es@[x].destination, es@[x].source)
                != (#[trigger] es@[y].destination, es@[y].source),
    ensures
        exists|p: Seq<usize>|
            {
                &&& is_perm(p, es@.len() as int)
                &&& r@.len() == p.len()
                &&& forall|x: int| 0 <= x < p.len() ==> #[trigger] r@[x] == es@[p[x] as int]
            },
        forall|x: int, y: int| 0 <= x < y < r@.len() ==> edge_before(#[trigger] r@[x], #[trigger] r@[y]),
{
    let n = es.len();
    let ghost rel = |a: int, b: int| edge_before(es@[a], es@[b]);
    let lt = |a: usize, b: usize| -> (c: bool)
        requires
            a < n && b < n,
        ensures
            c == edge_before(es@[a as int], es@[b as int]),
        {
            es[a].destination < es[b].destination || (es[a].destination == es[b].destination
                && es[a].source < es[b].source)
        };
    proof {
        assert(crate::sorting::strict_weak(rel, n as int));
    }
    let p = stable_order(n, &lt, Ghost(rel));
    let mut r: Vec<PdcEdgeCompensation> = Vec::new();
    let mut x: usize = 0;
    while x < n
        invariant
            x <= n,
            n == es.len(),
            is_perm(p@, n as int),
            r@.len() == x,
            forall|y: int| 0 <= y < x ==> #[trigger] r@[y] == es@[p@[y] as int],
        decreases n - x,
    {
        r.push(es[p[x]]);
        x += 1;
    }
    proof {
        assert forall|x1: int, y1: int| 0 <= x1 < y1 < r@.len() implies edge_before(#[trigger] r@[x1], #[trigger] r@[y1]) by {
            let a = p@[x1] as int;
            let b = p@[y1] as int;
            assert(r@[x1] == es@[a] && r@[y1] == es@[b]);
            assert(!rel(b, a));
            assert(a != b);
        }
        let q = p@;
        assert(forall|x1: int| 0 <= x1 < q.len() ==> #[trigger] r@[x1] == es@[q[x1] as int]);
    }
    r
}

/// Which plug-ins constrained compensation holds back, and what they then
/// add.  With constraints enabled, instrument, group and output channels
/// are always held back, an audio track only while armed for recording,
/// an effect channel never.  On a held channel an enabled plug-in whose
/// reported latency exceeds the threshold switches to low latency when it
/// supports it (adding its low-latency figure) and is bypassed otherwise
/// (adding nothing); every other plug-in runs unconstrained and keeps
/// adding its reported latency while enabled.
pub proof fn lemma_constraint_scope(m: ConstrainDelayCompensation, cs: Seq<ChannelView>, i: int, k: int)
    requires
        0 <= i < cs.len(),
        0 <= k < cs[i].plugins.len(),
    ensures
        ({
            let c = cs[i];
            let p = c.plugins[k];
            let q = m.applied(cs)[i].plugins[k];
            let held = m.enabled && (c.kind == PdcChannelKind::Instrument || c.kind == PdcChannelKind::Group
                || c.kind == PdcChannelKind::Output || (c.kind == PdcChannelKind::AudioTrack && c.record_enabled));
            let over = held && p.enabled && p.reported_latency > m.threshold_samples;
            &&& m.applied(cs).len() == cs.len()
            &&& m.applied(cs)[i].plugins.len() == c.plugins.len()
            &&& m.applied(cs)[i].channel_id == c.channel_id
            &&& q.plugin_id == p.plugin_id && q.reported_latency == p.reported_latency && q.enabled == p.enabled
                && q.low_latency_samples == p.low_latency_samples && q.supports_low_latency == p.supports_low_latency
            &&& q.low_latency_active == (over && p.supports_low_latency)
            &&& q.bypassed_by_constraint == (over && !p.supports_low_latency)
            &&& over ==> delay_of(q) == if p.supports_low_latency {
                p.low_latency_samples
            } else {
                0
            }
            &&& !over ==> delay_of(q) == if p.enabled {
                p.reported_latency
            } else {
                0
            }
        }),
{
    let c = cs[i];
    assert(m.applied(cs)[i] == constrained_channel(c, m.enabled, m.threshold_samples));
    assert(m.applied(cs)[i].plugins[k] == constrained(c.plugins[k], constrains(m.enabled, c), m.threshold_samples));
}

} // verus!

