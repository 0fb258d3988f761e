//! The plug-in manager registry: one inspection per plug-in id, kept in id
//! order, with a blocklist for binaries that failed their scan or cannot be
//! hosted.
use vstd::prelude::*;
use crate::keyed::{lemma_text_order, lemma_text_pair_order};
use crate::sorting::{arranged, gather, is_perm, lemma_strict_weak_agree, stable_order, stably_sorted};
use crate::text::{
    ascii_lower, blank, byte_len, contains_char, copy_str, decimal, is_blank, push_decimal, push_str, seq_lt,
    spec_trim, str_eq, str_lt, to_ascii_lower, trim, valid_text, is_valid_text, within_bytes,
};

verus! {

#[derive(Clone, Debug, PartialEq, Eq)]
pub enum PluginBlockReason {
    Unsupported32Bit,
    ScanCrash,
    LoadFailure(String),
    InvalidBinary,
}

#[derive(Clone, Debug, PartialEq, Eq)]
pub struct PluginInspection {
    pub id: String,
    pub name: String,
    pub vendor: String,
    pub category: String,
    pub format: String,
    pub version: String,
    pub path: String,
    pub bitness: u8,
    pub supports_f64: bool,
    pub asio_guard: bool,
    pub sidechain_inputs: u16,
    pub latency_samples: u32,
    pub hidden: bool,
    pub block_reason: Option<PluginBlockReason>,
}

#[derive(Clone, Debug, PartialEq, Eq)]
pub struct PluginManagerRegistry {
    pub plugins: Vec<PluginInspection>,
}

/// A block reason as plain values.
pub enum ReasonView {
    Unsupported32Bit,
    ScanCrash,
    LoadFailure(Seq<char>),
    InvalidBinary,
}

/// An inspection as plain values.
pub struct InspectionView {
    pub id: Seq<char>,
    pub name: Seq<char>,
    pub vendor: Seq<char>,
    pub category: Seq<char>,
    pub format: Seq<char>,
    pub version: Seq<char>,
    pub path: Seq<char>,
    pub bitness: u8,
    pub supports_f64: bool,
    pub asio_guard: bool,
    pub sidechain_inputs: u16,
    pub latency_samples: u32,
    pub hidden: bool,
    pub block_reason: Option<ReasonView>,
}

pub open spec fn reason_view(r: PluginBlockReason) -> ReasonView {
    match r {
        PluginBlockReason::Unsupported32Bit => ReasonView::Unsupported32Bit,
        PluginBlockReason::ScanCrash => ReasonView::ScanCrash,
        PluginBlockReason::LoadFailure(m) => ReasonView::LoadFailure(m@),
        PluginBlockReason::InvalidBinary => ReasonView::InvalidBinary,
    }
}

pub open spec fn inspection_view(p: PluginInspection) -> InspectionView {
    InspectionView {
        id: p.id@,
        name: p.name@,
        vendor: p.vendor@,
        category: p.category@,
        format: p.format@,
        version: p.version@,
        path: p.path@,
        bitness: p.bitness,
        supports_f64: p.supports_f64,
        asio_guard: p.asio_guard,
        sidechain_inputs: p.sidechain_inputs,
        latency_samples: p.latency_samples,
        hidden: p.hidden,
        block_reason: match p.block_reason {
            Some(r) => Some(reason_view(r)),
            None => None,
        },
    }
}

pub open spec fn inspections_view(ps: Seq<PluginInspection>) -> Seq<InspectionView> {
    ps.map_values(|p: PluginInspection| inspection_view(p))
}

pub open spec fn inspection_refs_view(ps: Seq<&PluginInspection>) -> Seq<InspectionView> {
    ps.map_values(|p: &PluginInspection| inspection_view(*p))
}

/// Texts within their limits, 32 or 64 bits, a load-failure message within
/// its limit, and a 32-bit plug-in blocked as unsupported.
pub open spec fn inspection_ok(p: InspectionView) -> bool {
    &&& valid_text(p.id, 256)
    &&& valid_text(p.name, 256)
    &&& valid_text(p.vendor, 256)
    &&& valid_text(p.category, 128)
    &&& valid_text(p.format, 32)
    &&& valid_text(p.version, 128)
    &&& valid_text(p.path, 4096)
    &&& (p.bitness == 32 || p.bitness == 64)
    &&& (p.block_reason matches Some(ReasonView::LoadFailure(m)) ==> valid_text(m, 1024))
    &&& (p.bitness == 32 ==> p.block_reason == Some(ReasonView::Unsupported32Bit))
}

/// A scan result as it is recorded: id and name trimmed; a 32-bit plug-in
/// blocked as unsupported, a failed scan without a reason blocked as a
/// crash, a successful scan unblocked.
pub open spec fn scanned(p: InspectionView, succeeded: bool) -> InspectionView {
    InspectionView {
        id: spec_trim(p.id),
        name: spec_trim(p.name),
        block_reason: if p.bitness == 32 {
            Some(ReasonView::Unsupported32Bit)
        } else if !succeeded && p.block_reason is None {
            Some(ReasonView::ScanCrash)
        } else if succeeded {
            None
        } else {
            p.block_reason
        },
        ..p
    }
}

/// The first inspection with the id (-1 if none).
pub open spec fn first_with_id(ps: Seq<InspectionView>, id: Seq<char>) -> int {
    if exists|i: int| 0 <= i < ps.len() && #[trigger] ps[i].id == id {
        choose|i: int| 0 <= i < ps.len() && ps[i].id == id && forall|j: int| 0 <= j < i ==> #[trigger] ps[j].id != id
    } else {
        -1
    }
}

/// The inspections with `p` replacing the first one of its id, or added.
pub open spec fn upserted(ps: Seq<InspectionView>, p: InspectionView) -> Seq<InspectionView> {
    let i = first_with_id(ps, p.id);
    if i >= 0 {
        ps.update(i, p)
    } else {
        ps.push(p)
    }
}

/// Ascending id.
pub open spec fn by_id(ps: Seq<InspectionView>) -> spec_fn(int, int) -> bool {
    |a: int, b: int| seq_lt(ps[a].id, ps[b].id)
}

/// Ascending lowercased vendor, then lowercased name.
pub open spec fn by_vendor_name(ps: Seq<InspectionView>) -> spec_fn(int, int) -> bool {
    |a: int, b: int|
        seq_lt(ascii_lower(ps[a].vendor), ascii_lower(ps[b].vendor)) || (ascii_lower(ps[a].vendor) == ascii_lower(
            ps[b].vendor,
        ) && seq_lt(ascii_lower(ps[a].name), ascii_lower(ps[b].name)))
}

/// Ascending lowercased name.
pub open spec fn by_name(ps: Seq<InspectionView>) -> spec_fn(int, int) -> bool {
    |a: int, b: int| seq_lt(ascii_lower(ps[a].name), ascii_lower(ps[b].name))
}

/// The plug-in can be offered: shown, not blocked, 64-bit float capable
/// when asked, and used by the project when a project's ids are given.
pub open spec fn offered(p: InspectionView, used: Option<Seq<Seq<char>>>, require_f64: bool) -> bool {
    &&& !p.hidden
    &&& p.block_reason is None
    &&& (!require_f64 || p.supports_f64)
    &&& (used matches Some(ids) ==> ids.contains(p.id))
}

/// The registry passes its audit: at most 65536 sound inspections with
/// ids strictly ascending.
pub open spec fn registry_ok(ps: Seq<InspectionView>) -> bool {
    &&& ps.len() <= 65_536
    &&& forall|i: int| 0 <= i < ps.len() ==> #[trigger] inspection_ok(ps[i])
    &&& forall|i: int| 0 <= i < ps.len() - 1 ==> #[trigger] seq_lt(ps[i].id, ps[i + 1].id)
}

/// How `str`'s `Debug` writes a text: quoted, with escapes.
pub uninterp spec fn debug_text(s: Seq<char>) -> Seq<char>;

/// `bool`'s `Display`.
pub open spec fn bool_text(b: bool) -> Seq<char> {
    if b {
        "true"@
    } else {
        "false"@
    }
}

/// How `Debug` writes an optional block reason.
pub open spec fn reason_text(r: Option<ReasonView>) -> Seq<char> {
    match r {
        None => "None"@,
        Some(ReasonView::Unsupported32Bit) => "Some(Unsupported32Bit)"@,
        Some(ReasonView::ScanCrash) => "Some(ScanCrash)"@,
        Some(ReasonView::LoadFailure(m)) => "Some(LoadFailure("@ + debug_text(m) + "))"@,
        Some(ReasonView::InvalidBinary) => "Some(InvalidBinary)"@,
    }
}

/// One line of the diagnostic report.
pub open spec fn report_line(p: InspectionView) -> Seq<char> {
    p.name + " | "@ + p.vendor + " | "@ + p.format + " | "@ + decimal(p.bitness as nat) + "-bit | latency="@
        + decimal(p.latency_samples as nat) + " | sidechains="@ + decimal(p.sidechain_inputs as nat)
        + " | hidden="@ + bool_text(p.hidden) + " | status="@ + reason_text(p.block_reason) + "\n"@
}

/// The report lines of the inspections, in order.
pub open spec fn report_lines(ps: Seq<InspectionView>) -> Seq<char>
    decreases ps.len(),
{
    if ps.len() == 0 {
        Seq::empty()
    } else {
        report_lines(ps.drop_last()) + report_line(ps.last())
    }
}

/// The whole diagnostic report.
pub open spec fn report_text(ps: Seq<InspectionView>, system: Seq<char>) -> Seq<char> {
    "Aura Plug-in Report\nSystem: "@ + spec_trim(system) + "\nPlug-ins: "@ + decimal(ps.len()) + "\n"@
        + report_lines(ps)
}

/// `<str as Debug>::fmt`: writes the text quoted, with the escapes that
/// `str::escape_debug` gives, as `debug_text` names it.
#[verifier::external_body]
fn debug_quoted(s: &str) -> (r: String)
    ensures
        r@ == debug_text(s@),
{
    format!("{:?}", s)
}

fn copy_reason(r: &PluginBlockReason) -> (c: PluginBlockReason)
    ensures
        reason_view(c) == reason_view(*r),
{
    match r {
        PluginBlockReason::Unsupported32Bit => PluginBlockReason::Unsupported32Bit,
        PluginBlockReason::ScanCrash => PluginBlockReason::ScanCrash,
        PluginBlockReason::LoadFailure(m) => PluginBlockReason::LoadFailure(copy_str(m.as_str())),
        PluginBlockReason::InvalidBinary => PluginBlockReason::InvalidBinary,
    }
}

fn copy_inspection(p: &PluginInspection) -> (c: PluginInspection)
    ensures
        inspection_view(c) == inspection_view(*p),
{
    PluginInspection {
        id: copy_str(p.id.as_str()),
        name: copy_str(p.name.as_str()),
        vendor: copy_str(p.vendor.as_str()),
        category: copy_str(p.category.as_str()),
        format: copy_str(p.format.as_str()),
        version: copy_str(p.version.as_str()),
        path: copy_str(p.path.as_str()),
        bitness: p.bitness,
        supports_f64: p.supports_f64,
        asio_guard: p.asio_guard,
        sidechain_inputs: p.sidechain_inputs,
        latency_samples: p.latency_samples,
        hidden: p.hidden,
        block_reason: match &p.block_reason {
            Some(r) => Some(copy_reason(r)),
            None => None,
        },
    }
}

impl PluginInspection {
    fn validate(&self) -> (r: bool)
        ensures
            r == inspection_ok(inspection_view(*self)),
    {
        let reason_ok = match &self.block_reason {
            Some(PluginBlockReason::LoadFailure(m)) => is_valid_text(m.as_str(), 1024),
            _ => true,
        };
        let bits_ok = self.bitness != 32 || match &self.block_reason {
            Some(PluginBlockReason::Unsupported32Bit) => true,
            _ => false,
        };
        is_valid_text(self.id.as_str(), 256) && is_valid_text(self.name.as_str(), 256) && is_valid_text(
            self.vendor.as_str(),
            256,
        ) && is_valid_text(self.category.as_str(), 128) && is_valid_text(self.format.as_str(), 32) && is_valid_text(
            self.version.as_str(),
            128,
        ) && is_valid_text(self.path.as_str(), 4096) && (self.bitness == 32 || self.bitness == 64) && reason_ok
            && bits_ok
    }
}

/// Appends a text and keeps `acc` the text appended since `base`.
fn push_piece(s: &mut String, t: &str, Ghost(base): Ghost<Seq<char>>, Ghost(acc): Ghost<Seq<char>>)
    requires
        old(s)@ == base + acc,
    ensures
        final(s)@ == base + (acc + t@),
{
    push_str(s, t);
    proof {
        assert(base + acc + t@ =~= base + (acc + t@));
    }
}

/// Appends the decimal digits and keeps `acc` the text appended since
/// `base`.
fn push_number(s: &mut String, n: u64, Ghost(base): Ghost<Seq<char>>, Ghost(acc): Ghost<Seq<char>>)
    requires
        old(s)@ == base + acc,
    ensures
        final(s)@ == base + (acc + decimal(n as nat)),
{
    push_decimal(s, n);
    proof {
        assert(base + acc + decimal(n as nat) =~= base + (acc + decimal(n as nat)));
    }
}

fn push_report_line(report: &mut String, p: &PluginInspection)
    ensures
        final(report)@ == old(report)@ + report_line(inspection_view(*p)),
{
    let ghost base = report@;
    let ghost v = inspection_view(*p);
    proof {
        assert(base =~= base + Seq::<char>::empty());
    }
    push_piece(report, p.name.as_str(), Ghost(base), Ghost(Seq::empty()));
    proof {
        assert(Seq::<char>::empty() + v.name =~= v.name);
    }
    let ghost acc = v.name;
    push_piece(report, " | ", Ghost(base), Ghost(acc));
    let ghost acc = acc + " | "@;
    push_piece(report, p.vendor.as_str(), Ghost(base), Ghost(acc));
    let ghost acc = acc + v.vendor;
    push_piece(report, " | ", Ghost(base), Ghost(acc));
    let ghost acc = acc + " | "@;
    push_piece(report, p.format.as_str(), Ghost(base), Ghost(acc));
    let ghost acc = acc + v.format;
    push_piece(report, " | ", Ghost(base), Ghost(acc));
    let ghost acc = acc + " | "@;
    push_number(report, p.bitness as u64, Ghost(base), Ghost(acc));
    let ghost acc = acc + decimal(v.bitness as nat);
    push_piece(report, "-bit | latency=", Ghost(base), Ghost(acc));
    let ghost acc = acc + "-bit | latency="@;
    push_number(report, p.latency_samples as u64, Ghost(base), Ghost(acc));
    let ghost acc = acc + decimal(v.latency_samples as nat);
    push_piece(report, " | sidechains=", Ghost(base), Ghost(acc));
    let ghost acc = acc + " | sidechains="@;
    push_number(report, p.sidechain_inputs as u64, Ghost(base), Ghost(acc));
    let ghost acc = acc + decimal(v.sidechain_inputs as nat);
    push_piece(report, " | hidden=", Ghost(base), Ghost(acc));
    let ghost acc = acc + " | hidden="@;
    push_piece(report, if p.hidden { "true" } else { "false" }, Ghost(base), Ghost(acc));
    let ghost acc = acc + bool_text(v.hidden);
    push_piece(report, " | status=", Ghost(base), Ghost(acc));
    let ghost acc = acc + " | status="@;
    match &p.block_reason {
        None => push_piece(report, "None", Ghost(base), Ghost(acc)),
        Some(PluginBlockReason::Unsupported32Bit) => push_piece(report, "Some(Unsupported32Bit)", Ghost(base), Ghost(acc)),
        Some(PluginBlockReason::ScanCrash) => push_piece(report, "Some(ScanCrash)", Ghost(base), Ghost(acc)),
        Some(PluginBlockReason::LoadFailure(m)) => {
            push_piece(report, "Some(LoadFailure(", Ghost(base), Ghost(acc));
            let q = debug_quoted(m.as_str());
            push_piece(report, q.as_str(), Ghost(base), Ghost(acc + "Some(LoadFailure("@));
            push_piece(report, "))", Ghost(base), Ghost(acc + "Some(LoadFailure("@ + q@));
            proof {
                assert(acc + "Some(LoadFailure("@ + q@ + "))"@ =~= acc + ("Some(LoadFailure("@ + debug_text(m@) + "))"@));
            }
        },
        Some(PluginBlockReason::InvalidBinary) => push_piece(report, "Some(InvalidBinary)", Ghost(base), Ghost(acc)),
    }
    let ghost acc = acc + reason_text(v.block_reason);
    push_piece(report, "\n", Ghost(base), Ghost(acc));
}

impl PluginManagerRegistry {
    pub open spec fn items(&self) -> Seq<InspectionView> {
        inspections_view(self.plugins@)
    }

    /// The index of the first plug-in with the id.
    fn position(&self, id: &str) -> (r: Option<usize>)
        ensures
            match r {
                Some(i) => i as int == first_with_id(self.items(), id@) && i < self.plugins@.len(),
                None => first_with_id(self.items(), id@) == -1,
            },
    {
        let ghost ps = self.items();
        let mut i: usize = 0;
        while i < self.plugins.len()
            invariant
                i <= self.plugins.len(),
                ps == self.items(),
                forall|j: int| 0 <= j < i ==> #[trigger] ps[j].id != id@,
            decreases self.plugins.len() - i,
        {
            proof {
                assert(ps[i as int].id == self.plugins@[i as int].id@);
            }
            if str_eq(self.plugins[i].id.as_str(), id) {
                proof {
                    let f = first_with_id(ps, id@);
                    assert(ps[i as int].id == id@);
                    if f < i {
                        assert(ps[f].id != id@);
                    }
                    if f > i {
                        assert(ps[i as int].id != id@);
                    }
                }
                return Some(i);
            }
            i += 1;
        }
        None
    }

    /// The plug-ins in stable id order.
    fn sort_by_id(&mut self)
        ensures
            arranged(final(self).items(), old(self).items(), by_id(old(self).items())),
    {
        let ghost iv = self.items();
        let n = self.plugins.len();
        let ps = &self.plugins;
        let lt = |a: usize, b: usize| -> (c: bool)
            requires
                a < n && b < n && n == ps@.len(),
            ensures
                c == seq_lt(ps@[a as int].id@, ps@[b as int].id@),
            { str_lt(ps[a].id.as_str(), ps[b].id.as_str()) };
        proof {
            let ks = iv.map_values(|p: InspectionView| p.id);
            lemma_text_order(ks);
            lemma_strict_weak_agree(|a: int, b: int| seq_lt(ks[a], ks[b]), by_id(iv), n as int);
        }
        let p = stable_order(n, &lt, Ghost(by_id(iv)));
        let mut r: Vec<PluginInspection> = Vec::new();
        let mut x: usize = 0;
        while x < n
            invariant
                x <= n,
                n == ps@.len(),
                iv == inspections_view(ps@),
                is_perm(p@, n as int),
                r@.len() == x,
                forall|y: int| 0 <= y < x ==> #[trigger] inspection_view(r@[y]) == iv[p@[y] as int],
            decreases n - x,
        {
            r.push(copy_inspection(&ps[p[x]]));
            x += 1;
        }
        proof {
            let pp = p@;
            assert(forall|y: int| 0 <= y < n ==> #[trigger] inspections_view(r@)[y] == iv[pp[y] as int]);
            assert(is_perm(pp, iv.len() as int) && stably_sorted(pp, by_id(iv)));
        }
        self.plugins = r;
    }

    /// Records one scan result under its trimmed id, replacing the first
    /// inspection of that id or adding it (up to 65536), then keeps the
    /// plug-ins in stable id order.  Refused, with nothing changed, when
    /// the recorded inspection is unsound or the registry is full.
    pub fn record_scan(&mut self, plugin: PluginInspection, scan_succeeded: bool) -> (r: bool)
        ensures
            ({
                let p = scanned(inspection_view(plugin), scan_succeeded);
                &&& r == (inspection_ok(p) && (first_with_id(old(self).items(), p.id) >= 0 || old(self).items().len()
                    < 65_536))
                &&& r ==> arranged(
                    final(self).items(),
                    upserted(old(self).items(), p),
                    by_id(upserted(old(self).items(), p)),
                )
                &&& !r ==> final(self).items() == old(self).items()
            }),
    {
        let ghost want = scanned(inspection_view(plugin), scan_succeeded);
        let mut plugin = plugin;
        plugin.id = trim(plugin.id.as_str());
        plugin.name = trim(plugin.name.as_str());
        if plugin.bitness == 32 {
            plugin.block_reason = Some(PluginBlockReason::Unsupported32Bit);
        } else if !scan_succeeded && plugin.block_reason.is_none() {
            plugin.block_reason = Some(PluginBlockReason::ScanCrash);
        } else if scan_succeeded {
            plugin.block_reason = None;
        }
        proof {
            assert(inspection_view(plugin) == want);
        }
        if !plugin.validate() {
            return false;
        }
        let ghost before = self.items();
        match self.position(plugin.id.as_str()) {
            Some(i) => {
                self.plugins.set(i, plugin);
                proof {
                    assert(self.items() =~= upserted(before, want));
                }
            },
            None => {
                if self.plugins.len() < 65_536 {
                    self.plugins.push(plugin);
                    proof {
                        assert(self.items() =~= upserted(before, want));
                    }
                } else {
                    return false;
                }
            },
        }
        self.sort_by_id();
        true
    }

    /// Shows or hides the first plug-in with the id; tells whether one
    /// exists.
    pub fn set_hidden(&mut self, id: &str, hidden: bool) -> (r: bool)
        ensures
            ({
                let i = first_with_id(old(self).items(), id@);
                &&& r == (i >= 0)
                &&& r ==> final(self).items() == old(self).items().update(i, InspectionView { hidden, ..old(self).items()[i] })
                &&& !r ==> final(self).items() == old(self).items()
            }),
    {
        match self.position(id) {
            Some(i) => {
                let ghost before = self.items();
                let mut p = copy_inspection(&self.plugins[i]);
                p.hidden = hidden;
                self.plugins.set(i, p);
                proof {
                    assert(self.items() =~= before.update(i as int, InspectionView { hidden, ..before[i as int] }));
                }
                true
            },
            None => false,
        }
    }

    /// Unblocks the first plug-in with the id after a successful isolated
    /// rescan; a 32-bit plug-in can never be reactivated.  Refused, with
    /// nothing changed, otherwise.
    pub fn reactivate(&mut self, id: &str, rescan_succeeded: bool) -> (r: bool)
        ensures
            ({
                let i = first_with_id(old(self).items(), id@);
                &&& r == (i >= 0 && old(self).items()[i].bitness == 64 && rescan_succeeded)
                &&& r ==> final(self).items() == old(self).items().update(
                    i,
                    InspectionView { block_reason: None, ..old(self).items()[i] },
                )
                &&& !r ==> final(self).items() == old(self).items()
            }),
    {
        match self.position(id) {
            Some(i) => {
                if self.plugins[i].bitness != 64 || !rescan_succeeded {
                    return false;
                }
                let ghost before = self.items();
                let mut p = copy_inspection(&self.plugins[i]);
                p.block_reason = None;
                self.plugins.set(i, p);
                proof {
                    assert(self.items() =~= before.update(
                        i as int,
                        InspectionView { block_reason: None, ..before[i as int] },
                    ));
                }
                true
            },
            None => false,
        }
    }

    /// The plug-ins a browser may offer, ordered by lowercased vendor then
    /// lowercased name; ties keep their order.  `used_in_project`, when
    /// given, lists the ids the project uses.
    pub fn available(&self, used_in_project: Option<&[String]>, require_f64: bool) -> (r: Vec<&PluginInspection>)
        ensures
            ({
                let used = match used_in_project {
                    Some(ids) => Some(ids@.map_values(|s: String| s@)),
                    None => None,
                };
                let hits = self.items().filter(|p: InspectionView| offered(p, used, require_f64));
                arranged(inspection_refs_view(r@), hits, by_vendor_name(hits))
            }),
    {
        let ghost used = match used_in_project {
            Some(ids) => Some(ids@.map_values(|s: String| s@)),
            None => None,
        };
        let ghost pred = |p: InspectionView| offered(p, used, require_f64);
        let ghost ps = self.items();
        let mut hits: Vec<&PluginInspection> = Vec::new();
        let mut i: usize = 0;
        while i < self.plugins.len()
            invariant
                i <= self.plugins.len(),
                ps == self.items(),
                pred == (|p: InspectionView| offered(p, used, require_f64)),
                used == match used_in_project {
                    Some(ids) => Some(ids@.map_values(|s: String| s@)),
                    None => None,
                },
                inspection_refs_view(hits@) == ps.take(i as int).filter(pred),
            decreases self.plugins.len() - i,
        {
            proof {
                assert(ps.take(i + 1) =~= ps.take(i as int).push(ps[i as int]));
                ps.take(i as int).lemma_filter_push(ps[i as int], pred);
            }
            let p = &self.plugins[i];
            let in_project = match used_in_project {
                Some(ids) => {
                    let mut found = false;
                    let mut k: usize = 0;
                    while k < ids.len()
                        invariant
                            k <= ids@.len(),
                            found == exists|j: int| 0 <= j < k && #[trigger] ids@[j]@ == p.id@,
                        decreases ids.len() - k,
                    {
                        if str_eq(ids[k].as_str(), p.id.as_str()) {
                            found = true;
                        }
                        k += 1;
                    }
                    proof {
                        let v = ids@.map_values(|s: String| s@);
                        if found {
                            let j = choose|j: int| 0 <= j < k && #[trigger] ids@[j]@ == p.id@;
                            assert(v[j] == p.id@);
                        } else {
                            assert forall|j: int| 0 <= j < v.len() implies v[j] != p.id@ by {
                                assert(ids@[j]@ == v[j]);
                            }
                        }
                    }
                    found
                },
                None => true,
            };
            if !p.hidden && p.block_reason.is_none() && (!require_f64 || p.supports_f64) && in_project {
                let ghost before = hits@;
                hits.push(p);
                proof {
                    assert(inspection_refs_view(hits@) =~= inspection_refs_view(before).push(ps[i as int]));
                }
            }
            i += 1;
        }
        proof {
            assert(ps.take(i as int) =~= ps);
        }
        let n = hits.len();
        let ghost hv = inspection_refs_view(hits@);
        let hr = &hits;
        let lt = |a: usize, b: usize| -> (c: bool)
            requires
                a < n && b < n && n == hr@.len(),
            ensures
                c == (by_vendor_name(inspection_refs_view(hr@)))(a as int, b as int),
            {
                let av = to_ascii_lower(hr[a].vendor.as_str());
                let bv = to_ascii_lower(hr[b].vendor.as_str());
                if str_lt(av.as_str(), bv.as_str()) {
                    true
                } else if str_eq(av.as_str(), bv.as_str()) {
                    let an = to_ascii_lower(hr[a].name.as_str());
                    let bn = to_ascii_lower(hr[b].name.as_str());
                    str_lt(an.as_str(), bn.as_str())
                } else {
                    false
                }
            };
        proof {
            let ks = hv.map_values(|p: InspectionView| ascii_lower(p.vendor));
            let ls = hv.map_values(|p: InspectionView| ascii_lower(p.name));
            lemma_text_pair_order(ks, ls);
            lemma_strict_weak_agree(
                |a: int, b: int| seq_lt(ks[a], ks[b]) || (ks[a] == ks[b] && seq_lt(ls[a], ls[b])),
                by_vendor_name(hv),
                n as int,
            );
        }
        let p = stable_order(n, &lt, Ghost(by_vendor_name(hv)));
        let r = gather(&hits, &p);
        proof {
            let pp = p@;
            assert(forall|y: int| 0 <= y < n ==> #[trigger] inspection_refs_view(r@)[y] == hv[pp[y] as int]);
            assert(pred =~= (|p: InspectionView| offered(p, used, require_f64)));
            assert(is_perm(pp, hv.len() as int) && stably_sorted(pp, by_vendor_name(hv)));
        }
        r
    }

    /// The blocked plug-ins, ordered by lowercased name; ties keep their
    /// order.
    pub fn blocklist(&self) -> (r: Vec<&PluginInspection>)
        ensures
            ({
                let hits = self.items().filter(|p: InspectionView| p.block_reason is Some);
                arranged(inspection_refs_view(r@), hits, by_name(hits))
            }),
    {
        let ghost pred = |p: InspectionView| p.block_reason is Some;
        let ghost ps = self.items();
        let mut hits: Vec<&PluginInspection> = Vec::new();
        let mut i: usize = 0;
        while i < self.plugins.len()
            invariant
                i <= self.plugins.len(),
                ps == self.items(),
                pred == (|p: InspectionView| p.block_reason is Some),
                inspection_refs_view(hits@) == ps.take(i as int).filter(pred),
            decreases self.plugins.len() - i,
        {
            proof {
                assert(ps.take(i + 1) =~= ps.take(i as int).push(ps[i as int]));
                ps.take(i as int).lemma_filter_push(ps[i as int], pred);
            }
            let p = &self.plugins[i];
            if p.block_reason.is_some() {
                let ghost before = hits@;
                hits.push(p);
                proof {
                    assert(inspection_refs_view(hits@) =~= inspection_refs_view(before).push(ps[i as int]));
                }
            }
            i += 1;
        }
        proof {
            assert(ps.take(i as int) =~= ps);
        }
        let n = hits.len();
        let ghost hv = inspection_refs_view(hits@);
        let hr = &hits;
        let lt = |a: usize, b: usize| -> (c: bool)
            requires
                a < n && b < n && n == hr@.len(),
            ensures
                c == (by_name(inspection_refs_view(hr@)))(a as int, b as int),
            {
                let an = to_ascii_lower(hr[a].name.as_str());
                let bn = to_ascii_lower(hr[b].name.as_str());
                str_lt(an.as_str(), bn.as_str())
            };
        proof {
            let ks = hv.map_values(|p: InspectionView| ascii_lower(p.name));
            lemma_text_order(ks);
            lemma_strict_weak_agree(|a: int, b: int| seq_lt(ks[a], ks[b]), by_name(hv), n as int);
        }
        let p = stable_order(n, &lt, Ghost(by_name(hv)));
        let r = gather(&hits, &p);
        proof {
            let pp = p@;
            assert(forall|y: int| 0 <= y < n ==> #[trigger] inspection_refs_view(r@)[y] == hv[pp[y] as int]);
            assert(pred =~= (|p: InspectionView| p.block_reason is Some));
            assert(is_perm(pp, hv.len() as int) && stably_sorted(pp, by_name(hv)));
        }
        r
    }

    /// The registry passes its audit.
    pub fn validate(&self) -> (r: bool)
        ensures
            r == registry_ok(self.items()),
    {
        let ghost ps = self.items();
        if self.plugins.len() > 65_536 {
            return false;
        }
        let mut i: usize = 0;
        while i < self.plugins.len()
            invariant
                i <= self.plugins.len(),
                ps == self.items(),
                forall|a: int| 0 <= a < i ==> #[trigger] inspection_ok(ps[a]),
                forall|a: int| 0 <= a < i && a < ps.len() - 1 ==> #[trigger] seq_lt(ps[a].id, ps[a + 1].id),
            decreases self.plugins.len() - i,
        {
            proof {
                assert(ps[i as int] == inspection_view(self.plugins@[i as int]));
            }
            if !self.plugins[i].validate() {
                proof {
                    assert(!inspection_ok(ps[i as int]));
                }
                return false;
            }
            if i + 1 < self.plugins.len() {
                proof {
                    assert(ps[i + 1] == inspection_view(self.plugins@[i + 1]));
                }
                if !str_lt(self.plugins[i].id.as_str(), self.plugins[i + 1].id.as_str()) {
                    proof {
                        assert(!seq_lt(ps[i as int].id, ps[i + 1].id));
                    }
                    return false;
                }
            }
            i += 1;
        }
        true
    }

    /// A plain-text report of every plug-in for support requests.  Refused
    /// when the registry fails its audit or the system description is
    /// blank, over 1024 bytes or holds NUL.
    pub fn diagnostic_report(&self, system: &str) -> (r: Result<String, String>)
        ensures
            match r {
                Ok(text) => registry_ok(self.items()) && valid_text(system@, 1024) && text@ == report_text(
                    self.items(),
                    system@,
                ),
                Err(e) => !(registry_ok(self.items()) && valid_text(system@, 1024)) && e@
                    == "invalid plug-in report data"@,
            },
    {
        if !self.validate() || !is_valid_text(system, 1024) {
            return Err(copy_str("invalid plug-in report data"));
        }
        let ghost ps = self.items();
        let mut report = copy_str("Aura Plug-in Report\nSystem: ");
        let sys = trim(system);
        push_str(&mut report, sys.as_str());
        push_str(&mut report, "\nPlug-ins: ");
        push_decimal(&mut report, self.plugins.len() as u64);
        push_str(&mut report, "\n");
        let ghost head = report@;
        proof {
            assert(head == "Aura Plug-in Report\nSystem: "@ + spec_trim(system@) + "\nPlug-ins: "@ + decimal(ps.len())
                + "\n"@);
        }
        let mut i: usize = 0;
        while i < self.plugins.len()
            invariant
                i <= self.plugins.len(),
                ps == self.items(),
                report@ == head + report_lines(ps.take(i as int)),
            decreases self.plugins.len() - i,
        {
            let ghost before = report@;
            let p = &self.plugins[i];
            push_report_line(&mut report, p);
            proof {
                let pv = ps[i as int];
                assert(pv == inspection_view(*p));
                assert(ps.take(i + 1).drop_last() =~= ps.take(i as int));
                assert(report_lines(ps.take(i + 1)) == report_lines(ps.take(i as int)) + report_line(pv));
                assert(report@ =~= head + report_lines(ps.take(i + 1)));
            }
            i += 1;
        }
        proof {
            assert(ps.take(i as int) =~= ps);
        }
        Ok(report)
    }
}

impl Default for PluginManagerRegistry {
    fn default() -> (r: Self)
        ensures
            r.items().len() == 0,
    {
        PluginManagerRegistry { plugins: Vec::new() }
    }
}

} // verus!
