//! Identities of installed plug-ins: cache keys that change with the
//! plug-in version, binary or state schemas, catalog fingerprints of paths,
//! alias normalisation, and the instrument profiles the rack exposes.
use vstd::prelude::*;
use vstd::utf8::encode_utf8;
use crate::keyed::text_views;
use crate::text::{ascii_lower, blank, char_from_ascii, chars_of, contains_char, copy_str, decimal, is_blank, lower_char, push_decimal, push_str, string_push};

verus! {

#[derive(Debug, Clone, PartialEq, Eq)]
pub struct InstalledPlugin {
    pub id: String,
    pub name: String,
    pub format: String,
    pub path: String,
    pub installed: bool,
    pub sandboxed: bool,
    pub capability: String,
    /// Content identity used to invalidate stale project and plug-in caches.
    pub binary_hash: String,
    pub binary_bytes: u64,
    pub modified_unix_seconds: u64,
    /// Kept by binary hash, so a replaced binary gets a new admission.
    pub quarantined: bool,
    pub tags: Vec<String>,
    pub favorite: bool,
}

/// The host-facing contract of a third-party synth: a capability
/// template, not proof that a binary is installed or opens.
#[derive(Debug, Clone, PartialEq, Eq)]
pub struct InstrumentProfile {
    pub id: String,
    pub aliases: Vec<String>,
    pub formats: Vec<String>,
    pub midi_input: bool,
    pub midi_channels: u8,
    pub parameter_automation: bool,
    pub state_save_restore: bool,
    pub sidechain_input: bool,
    pub verification_status: String,
}

/// An ASCII hex digit byte.
pub open spec fn is_hex_byte(b: u8) -> bool {
    (48 <= b <= 57) || (65 <= b <= 70) || (97 <= b <= 102)
}

/// A binary hash: 64 bytes, all ASCII hex digits.
pub open spec fn hash_ok(h: Seq<char>) -> bool {
    encode_utf8(h).len() == 64 && forall|i: int| 0 <= i < 64 ==> #[trigger] is_hex_byte(encode_utf8(h)[i])
}

/// The cache identity, when the inputs admit one.
pub open spec fn cache_identity(id: Seq<char>, version: Seq<char>, hash: Seq<char>, state: u32, gui: u32) -> Option<
    Seq<char>,
> {
    if is_blank(id) || is_blank(version) || !hash_ok(hash) || state == 0 || gui == 0 || id.contains('\0')
        || version.contains('\0') {
        None
    } else {
        Some(
            id + "@"@ + version + "#bin-"@ + hash + ":state-"@ + decimal(state as nat) + ":gui-"@ + decimal(
                gui as nat,
            ),
        )
    }
}

/// The complete identity for state and UI caches: a plug-in upgrade or a
/// schema change gives a different key even before a rescan.  `None` for a
/// blank id or version, NUL in them, a hash that is not 64 hex digits, or
/// a zero schema version.
pub fn plugin_cache_identity(
    plugin_id: &str,
    plugin_version: &str,
    binary_hash: &str,
    state_schema_version: u32,
    gui_state_schema_version: u32,
) -> (r: Option<String>)
    ensures
        match r {
            Some(s) => cache_identity(plugin_id@, plugin_version@, binary_hash@, state_schema_version, gui_state_schema_version) == Some(s@),
            None => cache_identity(plugin_id@, plugin_version@, binary_hash@, state_schema_version, gui_state_schema_version) is None,
        },
{
    let bytes = binary_hash.as_bytes();
    let mut hex = bytes.len() == 64;
    let mut i: usize = 0;
    while i < bytes.len() && hex
        invariant
            i <= bytes@.len(),
            bytes@ == encode_utf8(binary_hash@),
            hex == (bytes@.len() == 64 && forall|j: int| 0 <= j < i ==> #[trigger] is_hex_byte(bytes@[j])),
        decreases bytes.len() - i,
    {
        let b = bytes[i];
        if !((48 <= b && b <= 57) || (65 <= b && b <= 70) || (97 <= b && b <= 102)) {
            hex = false;
            proof {
                assert(!is_hex_byte(bytes@[i as int]));
            }
        } else {
            proof {
                assert(is_hex_byte(bytes@[i as int]));
            }
        }
        i += 1;
    }
    proof {
        if hex {
            assert(i == 64);
        }
    }
    if blank(plugin_id) || blank(plugin_version) || !hex || state_schema_version == 0 || gui_state_schema_version == 0
        || contains_char(plugin_id, '\0') || contains_char(plugin_version, '\0') {
        return None;
    }
    let mut s = copy_str(plugin_id);
    push_str(&mut s, "@");
    push_str(&mut s, plugin_version);
    push_str(&mut s, "#bin-");
    push_str(&mut s, binary_hash);
    push_str(&mut s, ":state-");
    push_decimal(&mut s, state_schema_version as u64);
    push_str(&mut s, ":gui-");
    push_decimal(&mut s, gui_state_schema_version as u64);
    Some(s)
}

/// A profile as plain values.
pub struct ProfileView {
    pub id: Seq<char>,
    pub aliases: Seq<Seq<char>>,
    pub formats: Seq<Seq<char>>,
    pub midi_input: bool,
    pub midi_channels: u8,
    pub parameter_automation: bool,
    pub state_save_restore: bool,
    pub sidechain_input: bool,
    pub verification_status: Seq<char>,
}

pub open spec fn profile_view(p: InstrumentProfile) -> ProfileView {
    ProfileView {
        id: p.id@,
        aliases: text_views(p.aliases@),
        formats: text_views(p.formats@),
        midi_input: p.midi_input,
        midi_channels: p.midi_channels,
        parameter_automation: p.parameter_automation,
        state_save_restore: p.state_save_restore,
        sidechain_input: p.sidechain_input,
        verification_status: p.verification_status@,
    }
}

/// The profile of a synth with MIDI on 16 channels, automation, state
/// save and restore, a sidechain input, and CLAP, VST3 and AU builds.
pub open spec fn synth_profile(id: Seq<char>, aliases: Seq<Seq<char>>) -> ProfileView {
    ProfileView {
        id,
        aliases,
        formats: seq!["clap"@, "vst3"@, "au"@],
        midi_input: true,
        midi_channels: 16,
        parameter_automation: true,
        state_save_restore: true,
        sidechain_input: true,
        verification_status: "template_unverified"@,
    }
}

fn synth(id: &str, a: &str, b: &str) -> (r: InstrumentProfile)
    ensures
        profile_view(r) == synth_profile(id@, seq![a@, b@]),
{
    let r = InstrumentProfile {
        id: copy_str(id),
        aliases: vec![copy_str(a), copy_str(b)],
        formats: vec![copy_str("clap"), copy_str("vst3"), copy_str("au")],
        midi_input: true,
        midi_channels: 16,
        parameter_automation: true,
        state_save_restore: true,
        sidechain_input: true,
        verification_status: copy_str("template_unverified"),
    };
    proof {
        assert(text_views(r.aliases@) =~= seq![a@, b@]);
        assert(text_views(r.formats@) =~= seq!["clap"@, "vst3"@, "au"@]);
    }
    r
}

/// The profiles of Vital and Surge XT.
pub fn instrument_profiles() -> (r: Vec<InstrumentProfile>)
    ensures
        r@.len() == 2,
        profile_view(r@[0]) == synth_profile("vital"@, seq!["Vital"@, "Vital Synth"@]),
        profile_view(r@[1]) == synth_profile("surge_xt"@, seq!["Surge XT"@, "Surge"@]),
{
    vec![synth("vital", "Vital", "Vital Synth"), synth("surge_xt", "Surge XT", "Surge")]
}

/// An ASCII letter or digit.
pub open spec fn is_ascii_alnum(c: char) -> bool {
    ('0' <= c && c <= '9') || ('a' <= c && c <= 'z') || ('A' <= c && c <= 'Z')
}

/// The ASCII letters and digits of a name, lowercased: the key under which
/// aliases match.
pub open spec fn normalized_key(s: Seq<char>) -> Seq<char> {
    ascii_lower(s.filter(|c: char| is_ascii_alnum(c)))
}

/// The alias key of a name: its ASCII letters and digits, lowercased.
pub fn normalized(value: &str) -> (r: String)
    ensures
        r@ == normalized_key(value@),
{
    let ghost keep = |c: char| is_ascii_alnum(c);
    let cs = chars_of(value);
    let mut r = String::new();
    let mut i: usize = 0;
    while i < cs.len()
        invariant
            i <= cs@.len(),
            cs@ == value@,
            keep == (|c: char| is_ascii_alnum(c)),
            r@ == ascii_lower(cs@.take(i as int).filter(keep)),
        decreases cs.len() - i,
    {
        let c = cs[i];
        proof {
            assert(cs@.take(i + 1) =~= cs@.take(i as int).push(c));
            cs@.take(i as int).lemma_filter_push(c, keep);
        }
        if ('0' <= c && c <= '9') || ('a' <= c && c <= 'z') || ('A' <= c && c <= 'Z') {
            let l = if 'A' <= c && c <= 'Z' {
                char_from_ascii((c as u32) + 32)
            } else {
                c
            };
            let ghost before = r@;
            string_push(&mut r, l);
            proof {
                assert(l == lower_char(c));
                assert(ascii_lower(cs@.take(i + 1).filter(keep)) =~= before.push(lower_char(c)));
            }
        }
        i += 1;
    }
    proof {
        assert(cs@.take(i as int) =~= value@);
    }
    r
}

/// FNV-1a over the bytes.
pub open spec fn fnv1a(bytes: Seq<u8>) -> u64
    decreases bytes.len(),
{
    if bytes.len() == 0 {
        0xcbf29ce484222325u64
    } else {
        (fnv1a(bytes.drop_last()) ^ (bytes.last() as u64)).wrapping_mul(0x100000001b3u64)
    }
}

/// A lowercase hex digit.
pub open spec fn hex_char(d: u64) -> char {
    if d < 10 {
        ((d + 48) as u32) as char
    } else {
        ((d + 87) as u32) as char
    }
}

/// Sixteen lowercase hex digits, most significant first (`{:016x}`).
pub open spec fn hex16(h: u64) -> Seq<char> {
    Seq::new(16, |i: int| hex_char((h >> ((60 - 4 * i) as u64)) & 0xf))
}

/// The catalog fingerprint of a text: FNV-1a of its UTF-8 bytes as sixteen
/// hex digits.  A stable key, not an integrity hash.
pub fn content_fingerprint(value: &str) -> (r: String)
    ensures
        r@ == hex16(fnv1a(encode_utf8(value@))),
{
    let bytes = value.as_bytes();
    let mut hash: u64 = 0xcbf29ce484222325u64;
    let mut i: usize = 0;
    while i < bytes.len()
        invariant
            i <= bytes@.len(),
            hash == fnv1a(bytes@.take(i as int)),
        decreases bytes.len() - i,
    {
        proof {
            assert(bytes@.take(i + 1).drop_last() =~= bytes@.take(i as int));
        }
        hash = (hash ^ (bytes[i] as u64)).wrapping_mul(0x100000001b3u64);
        i += 1;
    }
    proof {
        assert(bytes@.take(i as int) =~= bytes@);
    }
    let mut r = String::new();
    let mut k: u64 = 0;
    while k < 16
        invariant
            k <= 16,
            r@ == hex16(hash).take(k as int),
        decreases 16 - k,
    {
        let sh: u64 = 60 - 4 * k;
        let d = (hash >> sh) & 0xf;
        assert((hash >> sh) & 0xf < 16) by (bit_vector);
        let c = if d < 10 {
            char_from_ascii((d + 48) as u32)
        } else {
            char_from_ascii((d + 87) as u32)
        };
        let ghost before = r@;
        string_push(&mut r, c);
        proof {
            assert(c == hex_char(d));
            assert(hex16(hash)[k as int] == hex_char((hash >> ((60 - 4 * k) as u64)) & 0xf));
            assert(r@ =~= hex16(hash).take(k + 1));
        }
        k += 1;
    }
    proof {
        assert(hex16(hash).take(16) =~= hex16(hash));
    }
    r
}

} // verus!
