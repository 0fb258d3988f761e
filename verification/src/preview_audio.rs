//! Audio previews: where the samples of a WAVE file lie and in what form,
//! a header probe of its rate, channels and frames, and the stable ids of
//! registered previews.  Reading files and turning samples into floating
//! point happen at the edge.
use vstd::prelude::*;
use vstd::utf8::encode_utf8;
use crate::openutau::{
    data_tag, ds64, fmt_tag, has_tag, le16, le32, le64, read_le16, read_le32, read_le64, rf64, tag_at, wave_header,
};
use crate::plugin_catalog::identity::fnv1a;
use crate::keyed::{lemma_text_order, text_views};
use crate::sorting::{is_perm, lemma_strict_weak_agree, stable_order, stably_sorted};
use crate::text::{ascii_lower, copy_str, seq_lt, str_eq, str_lt, to_ascii_lower};
use std::collections::HashSet;

verus! {

broadcast use vstd::std_specs::hash::group_hash_axioms;

/// Where the samples of a WAVE file lie and how they are encoded.
#[derive(Debug, Clone, Copy, PartialEq, Eq)]
pub struct WavLayout {
    pub audio_format: u16,
    pub channels: u16,
    pub bits: u16,
    pub sample_rate: u32,
    pub data_start: usize,
    pub data_end: usize,
}

/// What the chunk walk of a decode has read so far.
pub struct DecodeScan {
    pub audio_format: u16,
    pub channels: u16,
    pub bits: u16,
    pub sample_rate: u32,
    pub fmt_found: bool,
    pub data: Option<(int, int)>,
    pub rf64_size: Option<u64>,
}

pub open spec fn decode_start() -> DecodeScan {
    DecodeScan {
        audio_format: 1,
        channels: 0,
        bits: 0,
        sample_rate: 44100,
        fmt_found: false,
        data: None,
        rf64_size: None,
    }
}

/// Walks every chunk from `pos` to the end of the file, refusing one that
/// runs past the end or whose size overflows.
pub open spec fn decode_walk(b: Seq<u8>, pos: int, is_rf64: bool, st: DecodeScan) -> Result<DecodeScan, Seq<char>>
    decreases b.len() - pos,
{
    if pos < 0 || pos + 8 > b.len() {
        Ok(st)
    } else {
        let encoded = le32(b, pos + 4);
        let start = pos + 8;
        let ds64_here = tag_at(b, pos, ds64()) && encoded >= 28;
        if ds64_here && start + 28 > b.len() {
            Err("truncated RF64 ds64 chunk"@)
        } else {
            let rf = if ds64_here {
                Some(le64(b, start + 8) as u64)
            } else {
                st.rf64_size
            };
            let is_data = tag_at(b, pos, data_tag());
            let big = is_rf64 && is_data && encoded == u32::MAX;
            if big && rf is None {
                Err("RF64 data size is missing"@)
            } else if big && rf.unwrap() > usize::MAX {
                Err("RF64 data size is too large"@)
            } else {
                let size: int = if big {
                    rf.unwrap() as int
                } else {
                    encoded
                };
                let end = start + size;
                if end > usize::MAX {
                    Err("WAV chunk overflow"@)
                } else if end > b.len() {
                    Err("truncated WAV"@)
                } else {
                    let is_fmt = tag_at(b, pos, fmt_tag()) && size >= 16;
                    let st2 = DecodeScan {
                        audio_format: if is_fmt {
                            le16(b, start) as u16
                        } else {
                            st.audio_format
                        },
                        channels: if is_fmt {
                            le16(b, start + 2) as u16
                        } else {
                            st.channels
                        },
                        sample_rate: if is_fmt {
                            le32(b, start + 4) as u32
                        } else {
                            st.sample_rate
                        },
                        bits: if is_fmt {
                            le16(b, start + 14) as u16
                        } else {
                            st.bits
                        },
                        fmt_found: st.fmt_found || is_fmt,
                        data: if is_data {
                            Some((start, end))
                        } else {
                            st.data
                        },
                        rf64_size: rf,
                    };
                    let next = end + size % 2;
                    if next > usize::MAX {
                        Err("WAV chunk alignment overflow"@)
                    } else if next > b.len() {
                        Err("truncated WAV chunk padding"@)
                    } else {
                        decode_walk(b, next, is_rf64, st2)
                    }
                }
            }
        }
    }
}

/// The samples' encoding is one the decoder reads: 1 to 32 channels of
/// PCM16, PCM24, PCM32 or float32.
pub open spec fn encoding_ok(st: DecodeScan) -> bool {
    &&& st.fmt_found
    &&& 1 <= st.channels <= 32
    &&& (st.bits == 16 || st.bits == 24 || st.bits == 32)
    &&& (st.audio_format == 1 || st.audio_format == 3)
    &&& (st.audio_format == 3 ==> st.bits == 32)
}

/// Where the samples of a WAVE file lie, or why it cannot be decoded.
pub open spec fn layout_of(b: Seq<u8>) -> Result<WavLayout, Seq<char>> {
    if !wave_header(b) {
        Err("unsupported WAV"@)
    } else if !tag_at(b, 0, rf64()) && (le32(b, 4) < 4 || le32(b, 4) + 8 > b.len()) {
        Err("invalid RIFF size"@)
    } else {
        match decode_walk(b, 12, tag_at(b, 0, rf64()), decode_start()) {
            Err(e) => Err(e),
            Ok(st) => match st.data {
                None => Err("WAV data missing"@),
                Some((s, e)) => if s == e {
                    Err("WAV data is empty"@)
                } else if !encoding_ok(st) {
                    Err("only PCM16/24/32 or float32 WAV is supported"@)
                } else if (e - s) % ((st.bits / 8) * st.channels) as int != 0 {
                    Err("WAV data is not aligned to complete frames"@)
                } else {
                    Ok(
                        WavLayout {
                            audio_format: st.audio_format,
                            channels: st.channels,
                            bits: st.bits,
                            sample_rate: st.sample_rate,
                            data_start: s as usize,
                            data_end: e as usize,
                        },
                    )
                },
            },
        }
    }
}

/// Where the samples of a WAVE file lie and how they are encoded (see
/// `layout_of`).
pub fn wav_layout(bytes: &[u8]) -> (r: Result<WavLayout, String>)
    ensures
        match layout_of(bytes@) {
            Ok(l) => r == Ok::<WavLayout, String>(l),
            Err(m) => r matches Err(e) && e@ == m,
        },
{
    let ghost b = bytes@;
    let n = bytes.len();
    if n < 12 || (!has_tag(bytes, 0, 0x52, 0x49, 0x46, 0x46) && !has_tag(bytes, 0, 0x52, 0x46, 0x36, 0x34))
        || !has_tag(bytes, 8, 0x57, 0x41, 0x56, 0x45) {
        return Err(copy_str("unsupported WAV"));
    }
    let is_rf64 = has_tag(bytes, 0, 0x52, 0x46, 0x36, 0x34);
    let riff_size = read_le32(bytes, 4);
    if !is_rf64 && (riff_size < 4 || riff_size as u64 + 8 > n as u64) {
        return Err(copy_str("invalid RIFF size"));
    }
    let mut pos: usize = 12;
    let mut audio_format: u16 = 1;
    let mut channels: u16 = 0;
    let mut bits: u16 = 0;
    let mut sample_rate: u32 = 44100;
    let mut fmt_found = false;
    let mut data: Option<(usize, usize)> = None;
    let mut rf64_size: Option<u64> = None;
    while n - pos >= 8
        invariant
            b == bytes@,
            n == b.len(),
            12 <= pos <= n,
            wave_header(b),
            is_rf64 == tag_at(b, 0, rf64()),
            !(!tag_at(b, 0, rf64()) && (le32(b, 4) < 4 || le32(b, 4) + 8 > b.len())),
            match data {
                Some((s, e)) => s <= e <= n,
                None => true,
            },
            decode_walk(
                b,
                pos as int,
                is_rf64,
                DecodeScan {
                    audio_format,
                    channels,
                    bits,
                    sample_rate,
                    fmt_found,
                    data: match data {
                        Some((s, e)) => Some((s as int, e as int)),
                        None => None,
                    },
                    rf64_size,
                },
            ) == decode_walk(b, 12, is_rf64, decode_start()),
        decreases n - pos,
    {
        let encoded = read_le32(bytes, pos + 4);
        let start = pos + 8;
        let ds64_here = has_tag(bytes, pos, 0x64, 0x73, 0x36, 0x34) && encoded >= 28;
        if ds64_here {
            if n - start < 28 {
                return Err(copy_str("truncated RF64 ds64 chunk"));
            }
            rf64_size = Some(read_le64(bytes, start + 8));
        }
        let is_data = has_tag(bytes, pos, 0x64, 0x61, 0x74, 0x61);
        let size: usize = if is_rf64 && is_data && encoded == u32::MAX {
            match rf64_size {
                None => {
                    return Err(copy_str("RF64 data size is missing"));
                },
                Some(s) => {
                    if s > usize::MAX as u64 {
                        return Err(copy_str("RF64 data size is too large"));
                    }
                    s as usize
                },
            }
        } else {
            encoded as usize
        };
        if size > usize::MAX - start {
            return Err(copy_str("WAV chunk overflow"));
        }
        let end = start + size;
        if end > n {
            return Err(copy_str("truncated WAV"));
        }
        if has_tag(bytes, pos, 0x66, 0x6d, 0x74, 0x20) && size >= 16 {
            fmt_found = true;
            audio_format = read_le16(bytes, start);
            channels = read_le16(bytes, start + 2);
            sample_rate = read_le32(bytes, start + 4);
            bits = read_le16(bytes, start + 14);
        }
        if is_data {
            data = Some((start, end));
        }
        let pad = size % 2;
        if pad > usize::MAX - end {
            return Err(copy_str("WAV chunk alignment overflow"));
        }
        let next = end + pad;
        if next > n {
            return Err(copy_str("truncated WAV chunk padding"));
        }
        pos = next;
    }
    let (s, e) = match data {
        None => {
            return Err(copy_str("WAV data missing"));
        },
        Some(d) => d,
    };
    if s == e {
        return Err(copy_str("WAV data is empty"));
    }
    if !fmt_found || channels == 0 || channels > 32 || !(bits == 16 || bits == 24 || bits == 32) || !(audio_format
        == 1 || audio_format == 3) || (audio_format == 3 && bits != 32) {
        return Err(copy_str("only PCM16/24/32 or float32 WAV is supported"));
    }
    assert(1 <= (bits / 8) as usize * channels as usize <= 128) by (nonlinear_arith)
        requires
            16 <= bits <= 32,
            1 <= channels <= 32,
    ;
    let frame_bytes: usize = (bits / 8) as usize * channels as usize;
    if (e - s) % frame_bytes != 0 {
        return Err(copy_str("WAV data is not aligned to complete frames"));
    }
    Ok(WavLayout { audio_format, channels, bits, sample_rate, data_start: s, data_end: e })
}

/// A decoded preview's sample rate is usable: 1 to 384000.
pub fn preview_sample_rate_ok(sample_rate: u32) -> (r: bool)
    ensures
        r == (1 <= sample_rate <= 384_000),
{
    1 <= sample_rate && sample_rate <= 384_000
}

/// What a header probe has read so far.
pub struct ProbeScan {
    pub sample_rate: u32,
    pub channels: u16,
    pub bits: u16,
    pub data_bytes: u64,
    pub rf64_size: Option<u64>,
}

pub open spec fn probe_start() -> ProbeScan {
    ProbeScan { sample_rate: 0, channels: 0, bits: 0, data_bytes: 0, rf64_size: None }
}

/// Walks the chunks from `pos` for the probe: sample rate, channels and
/// bit depth from the format chunk and the size of the data chunk.
pub open spec fn probe_chunks(b: Seq<u8>, pos: int, is_rf64: bool, st: ProbeScan) -> Result<ProbeScan, Seq<char>>
    decreases usize::MAX - pos,
{
    if pos < 0 || pos + 8 > b.len() {
        Ok(st)
    } else {
        let encoded = le32(b, pos + 4);
        let start = pos + 8;
        let ds64_here = tag_at(b, pos, ds64()) && encoded >= 28;
        if ds64_here && start + 16 > b.len() {
            Err("truncated RF64 data size"@)
        } else {
            let rf = if ds64_here {
                Some(le64(b, start + 8) as u64)
            } else {
                st.rf64_size
            };
            let is_data = tag_at(b, pos, data_tag());
            let big = is_rf64 && is_data && encoded == u32::MAX;
            if big && rf is None {
                Err("RF64 data size is missing"@)
            } else {
                let size: int = if big {
                    rf.unwrap() as int
                } else {
                    encoded
                };
                if size > usize::MAX {
                    Err("WAV chunk is too large"@)
                } else if start + size > usize::MAX {
                    Err("WAV chunk overflow"@)
                } else if start + size > b.len() {
                    Err("truncated WAV"@)
                } else {
                    let st2 = if tag_at(b, pos, fmt_tag()) && size >= 16 {
                        ProbeScan {
                            channels: le16(b, start + 2) as u16,
                            sample_rate: le32(b, start + 4) as u32,
                            bits: le16(b, start + 14) as u16,
                            rf64_size: rf,
                            ..st
                        }
                    } else if is_data {
                        ProbeScan { data_bytes: size as u64, rf64_size: rf, ..st }
                    } else {
                        ProbeScan { rf64_size: rf, ..st }
                    };
                    let next = start + size + size % 2;
                    if next > usize::MAX {
                        Err("WAV alignment overflow"@)
                    } else {
                        probe_chunks(b, next, is_rf64, st2)
                    }
                }
            }
        }
    }
}

/// The sample rate, channels and frames a WAVE file's header declares, or
/// why it cannot be probed.
pub open spec fn probe_of(b: Seq<u8>) -> Result<(u32, u16, u64), Seq<char>> {
    if !wave_header(b) {
        Err("unsupported WAV"@)
    } else {
        match probe_chunks(b, 12, tag_at(b, 0, rf64()), probe_start()) {
            Err(e) => Err(e),
            Ok(st) => {
                let frame_bytes = st.channels * (st.bits / 8);
                if st.channels == 0 || st.bits == 0 || frame_bytes == 0 || st.data_bytes == 0 {
                    Err("WAV metadata is incomplete"@)
                } else {
                    Ok((st.sample_rate, st.channels, (st.data_bytes as int / frame_bytes) as u64))
                }
            },
        }
    }
}

/// The sample rate, channels and frames a WAVE file's header declares
/// (see `probe_of`).
pub fn probe_wav(bytes: &[u8]) -> (r: Result<(u32, u16, u64), String>)
    requires
        bytes@.len() + 16 <= usize::MAX,
    ensures
        match probe_of(bytes@) {
            Ok(m) => r == Ok::<(u32, u16, u64), String>(m),
            Err(m) => r matches Err(e) && e@ == m,
        },
{
    let ghost b = bytes@;
    let n = bytes.len();
    if n < 12 || (!has_tag(bytes, 0, 0x52, 0x49, 0x46, 0x46) && !has_tag(bytes, 0, 0x52, 0x46, 0x36, 0x34))
        || !has_tag(bytes, 8, 0x57, 0x41, 0x56, 0x45) {
        return Err(copy_str("unsupported WAV"));
    }
    let is_rf64 = has_tag(bytes, 0, 0x52, 0x46, 0x36, 0x34);
    let mut pos: usize = 12;
    let mut sample_rate: u32 = 0;
    let mut channels: u16 = 0;
    let mut bits: u16 = 0;
    let mut data_bytes: u64 = 0;
    let mut rf64_size: Option<u64> = None;
    while pos <= n && n - pos >= 8
        invariant
            b == bytes@,
            n == b.len(),
            n + 16 <= usize::MAX,
            12 <= pos,
            wave_header(b),
            is_rf64 == tag_at(b, 0, rf64()),
            probe_chunks(b, pos as int, is_rf64, ProbeScan { sample_rate, channels, bits, data_bytes, rf64_size })
                == probe_chunks(b, 12, is_rf64, probe_start()),
        decreases usize::MAX - pos,
    {
        let encoded = read_le32(bytes, pos + 4);
        let start = pos + 8;
        let ds64_here = has_tag(bytes, pos, 0x64, 0x73, 0x36, 0x34) && encoded >= 28;
        if ds64_here {
            if n - start < 16 {
                return Err(copy_str("truncated RF64 data size"));
            }
            rf64_size = Some(read_le64(bytes, start + 8));
        }
        let is_data = has_tag(bytes, pos, 0x64, 0x61, 0x74, 0x61);
        let size: u64 = if is_rf64 && is_data && encoded == u32::MAX {
            match rf64_size {
                None => {
                    return Err(copy_str("RF64 data size is missing"));
                },
                Some(s) => s,
            }
        } else {
            encoded as u64
        };
        if size > usize::MAX as u64 {
            return Err(copy_str("WAV chunk is too large"));
        }
        let size = size as usize;
        if size > usize::MAX - start {
            return Err(copy_str("WAV chunk overflow"));
        }
        let end = start + size;
        if end > n {
            return Err(copy_str("truncated WAV"));
        }
        if has_tag(bytes, pos, 0x66, 0x6d, 0x74, 0x20) && size >= 16 {
            channels = read_le16(bytes, start + 2);
            sample_rate = read_le32(bytes, start + 4);
            bits = read_le16(bytes, start + 14);
        } else if is_data {
            data_bytes = size as u64;
        }
        let pad = size % 2;
        if pad > usize::MAX - end {
            return Err(copy_str("WAV alignment overflow"));
        }
        pos = end + pad;
    }
    assert(channels as u64 * (bits / 8) as u64 <= 65535 * 8191) by (nonlinear_arith)
        requires
            channels <= 65535,
            bits / 8 <= 8191,
    ;
    let frame_bytes: u64 = channels as u64 * (bits / 8) as u64;
    if channels == 0 || bits == 0 || frame_bytes == 0 || data_bytes == 0 {
        return Err(copy_str("WAV metadata is incomplete"));
    }
    Ok((sample_rate, channels, data_bytes / frame_bytes))
}

/// The `k`-th id tried for an asset whose probing starts at `first`: ids
/// count up from `first`, wrapping from `u64::MAX` to 1, never 0.
pub open spec fn probe_id(first: u64, k: nat) -> u64 {
    (((first - 1 + k) % (u64::MAX as int)) + 1) as u64
}

/// Where an asset's id probing starts: the FNV-1a of its identity, or 1
/// in place of 0.
pub open spec fn first_id(identity: Seq<u8>) -> u64 {
    if fnv1a(identity) == 0 {
        1
    } else {
        fnv1a(identity)
    }
}

proof fn lemma_probe_distinct(first: u64, j: nat, k: nat)
    requires
        first >= 1,
        j < k < u64::MAX,
    ensures
        probe_id(first, j) != probe_id(first, k),
{
    let m = u64::MAX as int;
    let a = first - 1 + j;
    let c = first - 1 + k;
    assert(0 <= a < c);
    assert(c - a < m);
    assert(a % m != c % m) by (nonlinear_arith)
        requires
            0 <= a < c,
            c - a < m,
            m > 0,
    ;
}

/// Probing steps from one id to the next.
proof fn lemma_probe_step(first: u64, k: nat)
    requires
        first >= 1,
    ensures
        probe_id(first, k + 1) == if probe_id(first, k) == u64::MAX {
            1
        } else {
            (probe_id(first, k) + 1) as u64
        },
{
    let m = u64::MAX as int;
    let a = first - 1 + k;
    assert(0 <= a % m < m) by (nonlinear_arith)
        requires
            m > 0,
    ;
    if a % m == m - 1 {
        assert((a + 1) % m == 0) by (nonlinear_arith)
            requires
                a >= 0,
                m > 0,
                a % m == m - 1,
        ;
    } else {
        assert((a + 1) % m == a % m + 1) by (nonlinear_arith)
            requires
                a >= 0,
                m > 1,
                0 <= a % m < m - 1,
        ;
    }
}

/// The ids tried so far are distinct ids in use, so there are fewer of
/// them than ids in use; one more tried id keeps that so.
proof fn lemma_probe_visit(start: Set<u64>, visited: Set<u64>, first: u64, k: nat)
    requires
        first >= 1,
        start.finite(),
        start.len() < u64::MAX,
        visited.finite(),
        visited.len() == k,
        visited.subset_of(start),
        forall|x: u64| #[trigger] visited.contains(x) ==> exists|j: nat| j < k && x == probe_id(first, j),
        start.contains(probe_id(first, k)),
    ensures
        k < start.len(),
        visited.insert(probe_id(first, k)).finite(),
        visited.insert(probe_id(first, k)).len() == k + 1,
        visited.insert(probe_id(first, k)).subset_of(start),
        forall|x: u64|
            #[trigger] visited.insert(probe_id(first, k)).contains(x) ==> exists|j: nat| j < k + 1 && x == probe_id(first, j),
{
    let c = probe_id(first, k);
    vstd::set_lib::lemma_len_subset(visited, start);
    if k + 1 >= u64::MAX {
        assert(k >= start.len());
    }
    assert(!visited.contains(c)) by {
        if visited.contains(c) {
            let j = choose|j: nat| j < k && c == probe_id(first, j);
            lemma_probe_distinct(first, j, k);
        }
    }
    let v2 = visited.insert(c);
    vstd::set_lib::lemma_len_subset(v2, start);
    assert forall|x: u64| #[trigger] v2.contains(x) implies exists|j: nat| j < k + 1 && x == probe_id(first, j) by {
        if x != c {
            let j = choose|j: nat| j < k && x == probe_id(first, j);
            assert(j < k + 1 && x == probe_id(first, j));
        } else {
            assert(k < k + 1 && x == probe_id(first, k));
        }
    }
}

/// A stable id for a registered asset: the first id of its probing that
/// is not in use, which then is.
pub fn stable_asset_id(identity: &[u8], used: &mut HashSet<u64>) -> (r: u64)
    requires
        old(used)@.finite(),
        old(used)@.len() < u64::MAX,
    ensures
        !old(used)@.contains(r),
        final(used)@ == old(used)@.insert(r),
        exists|k: nat|
            #![trigger probe_id(first_id(identity@), k)]
            r == probe_id(first_id(identity@), k) && forall|j: nat|
                j < k ==> old(used)@.contains(#[trigger] probe_id(first_id(identity@), j)),
{
    let mut hash: u64 = 0xcbf29ce484222325u64;
    let mut i: usize = 0;
    while i < identity.len()
        invariant
            i <= identity@.len(),
            hash == fnv1a(identity@.take(i as int)),
        decreases identity.len() - i,
    {
        proof {
            assert(identity@.take(i + 1).drop_last() =~= identity@.take(i as int));
        }
        hash = (hash ^ (identity[i] as u64)).wrapping_mul(0x100000001b3u64);
        i += 1;
    }
    proof {
        assert(identity@.take(i as int) =~= identity@);
    }
    let first: u64 = if hash == 0 { 1 } else { hash };
    let ghost start = used@;
    let ghost mut visited: Set<u64> = Set::empty();
    let ghost mut k: nat = 0;
    let mut candidate = first;
    proof {
        assert(probe_id(first, 0) == first);
    }
    while used.contains(&candidate)
        invariant
            first == first_id(identity@),
            first >= 1,
            used@ == start,
            start.len() < u64::MAX,
            start.finite(),
            candidate == probe_id(first, k),
            visited.finite(),
            visited.len() == k,
            visited.subset_of(start),
            forall|x: u64| #[trigger] visited.contains(x) ==> exists|j: nat| j < k && x == probe_id(first, j),
            forall|j: nat| j < k ==> start.contains(#[trigger] probe_id(first, j)),
        decreases start.len() - k,
    {
        proof {
            lemma_probe_visit(start, visited, first, k);
            lemma_probe_step(first, k);
            visited = visited.insert(candidate);
        }
        candidate = if candidate == u64::MAX { 1 } else { candidate + 1 };
        proof {
            k = k + 1;
        }
    }
    used.insert(candidate);
    candidate
}

/// The previews a runtime has registered, by id and path, and the asset
/// each of the sixteen pads plays.
pub struct PreviewRegistry {
    assets: Vec<(u64, String)>,
    pads: Vec<Option<u64>>,
}

/// An id is registered.
pub open spec fn registered(assets: Seq<(u64, Seq<char>)>, id: u64) -> bool {
    exists|i: int| 0 <= i < assets.len() && #[trigger] assets[i].0 == id
}

impl PreviewRegistry {
    /// The registered previews, in registration order.
    pub closed spec fn assets(&self) -> Seq<(u64, Seq<char>)> {
        self.assets@.map_values(|a: (u64, String)| (a.0, a.1@))
    }

    /// The asset of each pad.
    pub closed spec fn pads(&self) -> Seq<Option<u64>> {
        self.pads@
    }

    #[verifier::type_invariant]
    closed spec fn sound(&self) -> bool {
        &&& self.pads@.len() == 16
        &&& forall|p: int| 0 <= p < 16 ==> (#[trigger] self.pads@[p] matches Some(id) ==> registered(self.assets(), id))
        &&& forall|a: int, b: int|
            0 <= a < b < self.assets@.len() ==> #[trigger] self.assets@[a].0 != #[trigger] self.assets@[b].0
    }

    fn no_pads() -> (r: Vec<Option<u64>>)
        ensures
            r@.len() == 16,
            forall|p: int| 0 <= p < 16 ==> #[trigger] r@[p] is None,
    {
        let mut r: Vec<Option<u64>> = Vec::new();
        while r.len() < 16
            invariant
                r@.len() <= 16,
                forall|p: int| 0 <= p < r@.len() ==> #[trigger] r@[p] is None,
            decreases 16 - r.len(),
        {
            r.push(None);
        }
        r
    }

    pub fn new() -> (r: Self)
        ensures
            r.assets().len() == 0,
            r.pads() == Seq::new(16, |p: int| None::<u64>),
    {
        let pads = Self::no_pads();
        let r = PreviewRegistry { assets: Vec::new(), pads };
        proof {
            assert(r.pads() =~= Seq::new(16, |p: int| None::<u64>));
            assert(r.assets() =~= Seq::<(u64, Seq<char>)>::empty());
        }
        r
    }

    /// Forgets every preview and every pad assignment, as a new scan does.
    pub fn clear(&mut self)
        ensures
            final(self).assets().len() == 0,
            final(self).pads() == Seq::new(16, |p: int| None::<u64>),
    {
        *self = Self::new();
    }

    /// The number of registered previews.
    pub fn asset_count(&self) -> (r: usize)
        ensures
            r == self.assets().len(),
    {
        self.assets.len()
    }

    /// The id registered for a path, if any.
    pub fn find_path(&self, path: &str) -> (r: Option<u64>)
        ensures
            match r {
                Some(id) => exists|i: int| 0 <= i < self.assets().len() && self.assets()[i] == (id, path@),
                None => forall|i: int| 0 <= i < self.assets().len() ==> #[trigger] self.assets()[i].1 != path@,
            },
    {
        let mut i: usize = 0;
        while i < self.assets.len()
            invariant
                i <= self.assets@.len(),
                forall|j: int| 0 <= j < i ==> #[trigger] self.assets()[j].1 != path@,
            decreases self.assets.len() - i,
        {
            proof {
                assert(self.assets()[i as int] == (self.assets@[i as int].0, self.assets@[i as int].1@));
            }
            if crate::text::str_eq(self.assets[i].1.as_str(), path) {
                return Some(self.assets[i].0);
            }
            i += 1;
        }
        None
    }

    /// Whether an id is registered.
    pub fn contains(&self, id: u64) -> (r: bool)
        ensures
            r == registered(self.assets(), id),
    {
        let mut i: usize = 0;
        while i < self.assets.len()
            invariant
                i <= self.assets@.len(),
                forall|j: int| 0 <= j < i ==> #[trigger] self.assets()[j].0 != id,
            decreases self.assets.len() - i,
        {
            proof {
                assert(self.assets()[i as int].0 == self.assets@[i as int].0);
            }
            if self.assets[i].0 == id {
                return true;
            }
            i += 1;
        }
        false
    }

    fn copied_assets(&self) -> (r: Vec<(u64, String)>)
        ensures
            r@.map_values(|a: (u64, String)| (a.0, a.1@)) == self.assets(),
            forall|i: int| 0 <= i < r@.len() ==> #[trigger] r@[i].0 == self.assets@[i].0,
            r@.len() == self.assets@.len(),
    {
        let mut r: Vec<(u64, String)> = Vec::new();
        let mut i: usize = 0;
        while i < self.assets.len()
            invariant
                i <= self.assets@.len(),
                r@.len() == i,
                forall|j: int| 0 <= j < i ==> #[trigger] r@[j].0 == self.assets@[j].0 && r@[j].1@ == self.assets@[j].1@,
            decreases self.assets.len() - i,
        {
            r.push((self.assets[i].0, crate::text::copy_str(self.assets[i].1.as_str())));
            i += 1;
        }
        proof {
            assert(r@.map_values(|a: (u64, String)| (a.0, a.1@)) =~= self.assets());
        }
        r
    }

    fn copied_pads(&self) -> (r: Vec<Option<u64>>)
        ensures
            r@ == self.pads@,
    {
        let mut r: Vec<Option<u64>> = Vec::new();
        let mut i: usize = 0;
        while i < self.pads.len()
            invariant
                i <= self.pads@.len(),
                r@ == self.pads@.take(i as int),
            decreases self.pads.len() - i,
        {
            r.push(self.pads[i]);
            proof {
                assert(self.pads@.take(i + 1) =~= self.pads@.take(i as int).push(self.pads@[i as int]));
            }
            i += 1;
        }
        proof {
            assert(self.pads@.take(i as int) =~= self.pads@);
        }
        r
    }

    /// The registered ids as a set.
    fn used_ids(&self) -> (r: HashSet<u64>)
        ensures
            r@.finite(),
            r@.len() <= self.assets().len(),
            forall|id: u64| #[trigger] r@.contains(id) <==> registered(self.assets(), id),
    {
        let mut used: HashSet<u64> = HashSet::new();
        let mut i: usize = 0;
        while i < self.assets.len()
            invariant
                i <= self.assets@.len(),
                used@.finite(),
                used@.len() <= i,
                forall|id: u64| #[trigger] used@.contains(id) <==> exists|j: int| 0 <= j < i && self.assets@[j].0 == id,
            decreases self.assets.len() - i,
        {
            used.insert(self.assets[i].0);
            proof {
                assert forall|id: u64| #[trigger] used@.contains(id) <==> exists|j: int| 0 <= j < i + 1 && self.assets@[j].0 == id by {
                    if id == self.assets@[i as int].0 {
                        assert(0 <= i < i + 1 && self.assets@[i as int].0 == id);
                    }
                }
            }
            i += 1;
        }
        proof {
            assert forall|id: u64| used@.contains(id) <==> registered(self.assets(), id) by {
                if used@.contains(id) {
                    let j = choose|j: int| 0 <= j < i && self.assets@[j].0 == id;
                    assert(self.assets()[j].0 == id);
                }
                if registered(self.assets(), id) {
                    let j = choose|j: int| 0 <= j < self.assets().len() && #[trigger] self.assets()[j].0 == id;
                    assert(self.assets@[j].0 == id);
                }
            }
        }
        used
    }

    /// Registers a preview of the content hash at the path under the first
    /// free id of its probing (see `stable_asset_id`), and returns the id.
    pub fn enroll(&mut self, content_hash: &str, path: &str) -> (r: u64)
        requires
            old(self).assets().len() < usize::MAX,
        ensures
            !registered(old(self).assets(), r),
            final(self).assets() == old(self).assets().push((r, path@)),
            final(self).pads() == old(self).pads(),
            exists|k: nat|
                #![trigger probe_id(first_id(encode_utf8(content_hash@)), k)]
                r == probe_id(first_id(encode_utf8(content_hash@)), k) && forall|j: nat|
                    j < k ==> registered(old(self).assets(), #[trigger] probe_id(first_id(encode_utf8(content_hash@)), j)),
    {
        proof {
            use_type_invariant(&*self);
        }
        let mut used = self.used_ids();
        let id = stable_asset_id(content_hash.as_bytes(), &mut used);
        let entry = (id, crate::text::copy_str(path));
        let ghost before = self.assets();
        let mut assets = self.copied_assets();
        let pads = self.copied_pads();
        let ghost grown = assets@.push(entry);
        proof {
            assert(grown.map_values(|a: (u64, String)| (a.0, a.1@)) =~= before.push((id, path@)));
            assert forall|a: int, b: int| 0 <= a < b < grown.len() implies #[trigger] grown[a].0 != #[trigger] grown[b].0 by {
                if b == grown.len() - 1 {
                    assert(before[a].0 == grown[a].0);
                } else {
                    assert(grown[a].0 == self.assets@[a].0 && grown[b].0 == self.assets@[b].0);
                }
            }
            assert forall|q: u64| registered(before, q) implies registered(before.push((id, path@)), q) by {
                let j = choose|j: int| 0 <= j < before.len() && #[trigger] before[j].0 == q;
                assert(before.push((id, path@))[j].0 == q);
            }
        }
        assets.push(entry);
        *self = PreviewRegistry { assets, pads };
        id
    }

    /// Assigns a registered preview, or nothing, to a pad; refused for a
    /// pad past the sixteenth or an unregistered id.
    pub fn assign_pad(&mut self, pad: usize, id: Option<u64>) -> (r: bool)
        ensures
            r == (pad < 16 && match id {
                Some(x) => registered(old(self).assets(), x),
                None => true,
            }),
            r ==> final(self).pads() == old(self).pads().update(pad as int, id),
            !r ==> final(self).pads() == old(self).pads(),
            final(self).assets() == old(self).assets(),
    {
        proof {
            use_type_invariant(&*self);
        }
        if pad >= 16 {
            return false;
        }
        match id {
            Some(x) => {
                if !self.contains(x) {
                    return false;
                }
            },
            None => {},
        }
        let assets = self.copied_assets();
        let mut pads = self.copied_pads();
        pads.set(pad, id);
        proof {
            assert(assets@.map_values(|a: (u64, String)| (a.0, a.1@)) == self.assets());
        }
        *self = PreviewRegistry { assets, pads };
        true
    }

    /// The preview a pad plays, if any.
    pub fn pad_asset(&self, pad: usize) -> (r: Option<u64>)
        ensures
            r == if pad < 16 {
                self.pads()[pad as int]
            } else {
                None
            },
    {
        proof {
            use_type_invariant(self);
        }
        if pad < 16 {
            self.pads[pad]
        } else {
            None
        }
    }
}

/// A file extension of a WAVE file: `wav` or `wave`, ignoring ASCII case.
pub fn is_wav_extension(ext: &str) -> (r: bool)
    ensures
        r == (ascii_lower(ext@) == "wav"@ || ascii_lower(ext@) == "wave"@),
{
    let l = to_ascii_lower(ext);
    str_eq(l.as_str(), "wav") || str_eq(l.as_str(), "wave")
}

/// The lowercase form of a text, by Unicode's case mapping.
pub uninterp spec fn unicode_lower(s: Seq<char>) -> Seq<char>;

/// `str::to_lowercase`: the text in lowercase by Unicode's case mapping,
/// as `unicode_lower` names it.
#[verifier::external_body]
fn lowercase(s: &str) -> (r: String)
    ensures
        r@ == unicode_lower(s@),
{
    s.to_lowercase()
}

/// Catalog entries by lowercased name.
pub open spec fn by_lower_name(names: Seq<Seq<char>>) -> spec_fn(int, int) -> bool {
    |a: int, b: int| seq_lt(unicode_lower(names[a]), unicode_lower(names[b]))
}

/// The order in which the browser lists catalog entries of the given
/// names: by lowercased name, the given order kept among equals.
pub fn catalog_order(names: &Vec<String>) -> (r: Vec<usize>)
    ensures
        is_perm(r@, names@.len() as int),
        stably_sorted(r@, by_lower_name(text_views(names@))),
{
    let n = names.len();
    let mut lowered: Vec<String> = Vec::new();
    let mut i: usize = 0;
    while i < n
        invariant
            i <= n,
            n == names@.len(),
            lowered@.len() == i,
            forall|j: int| 0 <= j < i ==> #[trigger] lowered@[j]@ == unicode_lower(names@[j]@),
        decreases n - i,
    {
        lowered.push(lowercase(names[i].as_str()));
        i += 1;
    }
    let ghost ks = text_views(lowered@);
    let ghost rel = by_lower_name(text_views(names@));
    let lt = |a: usize, b: usize| -> (c: bool)
        requires
            a < n && b < n,
        ensures
            c == seq_lt(lowered@[a as int]@, lowered@[b as int]@),
        { str_lt(lowered[a].as_str(), lowered[b].as_str()) };
    proof {
        lemma_text_order(ks);
        assert forall|a: int, b: int| 0 <= a < n && 0 <= b < n implies #[trigger] rel(a, b) == (|x: int, y: int|
            seq_lt(ks[x], ks[y]))(a, b) by {
            assert(ks[a] == lowered@[a]@ && ks[b] == lowered@[b]@);
            assert(text_views(names@)[a] == names@[a]@ && text_views(names@)[b] == names@[b]@);
        }
        lemma_strict_weak_agree(|x: int, y: int| seq_lt(ks[x], ks[y]), rel, n as int);
        assert forall|a: usize, b: usize, c: bool| a < n && b < n && #[trigger] lt.ensures((a, b), c) implies c == rel(
            a as int,
            b as int,
        ) by {
            assert(text_views(names@)[a as int] == names@[a as int]@ && text_views(names@)[b as int] == names@[b as int]@);
        }
    }
    stable_order(n, &lt, Ghost(rel))
}

} // verus!
