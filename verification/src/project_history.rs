//! Content-addressed project history: commit records, ref names, commit
//! ids derived from the record's content, and the best-effort WAVE probe of
//! history assets.  The snapshot store itself lives on disk.
use vstd::prelude::*;
use vstd::utf8::encode_utf8;
use crate::digest::{hex_bytes, sha256_hex, sha256_of};
use crate::openutau::{data_tag, empty_scan, fmt_tag, frames_of, le16, le32, tag_at, wave_header, WaveScan};
use crate::plugin_catalog::identity::{hash_ok, is_hex_byte};
use crate::text::{blank, byte_len, byte_length, copy_str, decimal, is_blank, push_decimal, push_str, spec_trim, str_eq, within_bytes};

verus! {

pub const HISTORY_SCHEMA_VERSION: u32 = 1;

#[derive(Debug, Clone, PartialEq, Eq)]
pub struct ProjectCommit {
    pub schema_version: u32,
    pub commit_id: String,
    pub snapshot_hash: String,
    pub parent: Option<String>,
    pub branch: String,
    pub message: String,
    pub created_unix_seconds: u64,
    pub project_id: String,
    pub project_format_version: u32,
    pub asset_manifest_hash: String,
    pub plugin_manifest_hash: String,
    pub platform: String,
    pub render_artifact_hash: String,
    pub render_artifact_bytes: u64,
}

#[derive(Debug, Clone, PartialEq, Eq)]
pub struct ProjectRef {
    pub name: String,
    pub commit_id: String,
}

#[derive(Debug, Clone, PartialEq, Eq)]
pub struct HistoryStatus {
    pub branch: String,
    pub head: Option<String>,
    pub snapshot_hash: Option<String>,
}

/// The SHA-256 of the bytes in lowercase hex: the identity of snapshots,
/// manifests and commits.
pub fn content_hash(bytes: &[u8]) -> (r: String)
    ensures
        r@ == hex_bytes(sha256_of(bytes@)),
{
    sha256_hex(bytes)
}

/// A byte a ref name may hold: an ASCII letter or digit, `.`, `_` or `-`.
pub open spec fn is_ref_byte(b: u8) -> bool {
    (48 <= b <= 57) || (65 <= b <= 90) || (97 <= b <= 122) || b == 46 || b == 95 || b == 45
}

/// A branch or tag name: non-blank, at most 128 bytes, untrimmed, without
/// `/`, `\`, NUL or `..`, only letters, digits, `.`, `_` and `-`, and not
/// starting with `.`.
pub open spec fn ref_name_ok(n: Seq<char>) -> bool {
    &&& !is_blank(n)
    &&& byte_len(n) <= 128
    &&& spec_trim(n) == n
    &&& !n.contains('/') && !n.contains('\\') && !n.contains('\0')
    &&& !(exists|i: int| 0 <= i < n.len() - 1 && #[trigger] n[i] == '.' && n[i + 1] == '.')
    &&& forall|i: int| 0 <= i < encode_utf8(n).len() ==> #[trigger] is_ref_byte(encode_utf8(n)[i])
    &&& !(n.len() > 0 && n[0] == '.')
}

/// Checks a branch or tag name.
pub fn validate_ref_name(name: &str) -> (r: Result<(), String>)
    ensures
        match r {
            Ok(()) => ref_name_ok(name@),
            Err(e) => !ref_name_ok(name@) && e@ == "invalid history ref name"@,
        },
{
    let bytes = name.as_bytes();
    let mut allowed = true;
    let mut i: usize = 0;
    while i < bytes.len() && allowed
        invariant
            i <= bytes@.len(),
            bytes@ == encode_utf8(name@),
            allowed == forall|j: int| 0 <= j < i ==> #[trigger] is_ref_byte(bytes@[j]),
        decreases bytes.len() - i,
    {
        let b = bytes[i];
        if !((48 <= b && b <= 57) || (65 <= b && b <= 90) || (97 <= b && b <= 122) || b == 46 || b == 95 || b == 45) {
            allowed = false;
            proof {
                assert(!is_ref_byte(bytes@[i as int]));
            }
        } else {
            proof {
                assert(is_ref_byte(bytes@[i as int]));
            }
        }
        i += 1;
    }
    let cs = crate::text::chars_of(name);
    let mut dots = false;
    let mut k: usize = 0;
    while cs.len() > 1 && k < cs.len() - 1
        invariant
            cs@ == name@,
            k == 0 || k < cs@.len(),
            dots == exists|j: int| 0 <= j < k && #[trigger] cs@[j] == '.' && cs@[j + 1] == '.',
        decreases cs.len() - k,
    {
        if cs[k] == '.' && cs[k + 1] == '.' {
            dots = true;
        }
        k += 1;
    }
    proof {
        if !dots {
            assert forall|j: int| 0 <= j < cs@.len() - 1 implies !(#[trigger] cs@[j] == '.' && cs@[j + 1] == '.') by {
                assert(j < k);
            }
        }
    }
    let trimmed = crate::text::trim(name);
    let same = crate::text::str_eq(trimmed.as_str(), name);
    let starts_dot = cs.len() > 0 && cs[0] == '.';
    if blank(name) || !within_bytes(name, 128) || !same || crate::text::contains_char(name, '/')
        || crate::text::contains_char(name, '\\') || crate::text::contains_char(name, '\0') || dots || !allowed
        || starts_dot {
        return Err(copy_str("invalid history ref name"));
    }
    Ok(())
}

/// Checks a commit id: 64 ASCII hex digits.
pub fn validate_commit_id(id: &str) -> (r: Result<(), String>)
    ensures
        match r {
            Ok(()) => hash_ok(id@),
            Err(e) => !hash_ok(id@) && e@ == "invalid commit id"@,
        },
{
    let bytes = id.as_bytes();
    let mut hex = bytes.len() == 64;
    let mut i: usize = 0;
    while i < bytes.len() && hex
        invariant
            i <= bytes@.len(),
            bytes@ == encode_utf8(id@),
            hex == (bytes@.len() == 64 && forall|j: int| 0 <= j < i ==> #[trigger] is_hex_byte(bytes@[j])),
        decreases bytes.len() - i,
    {
        let b = bytes[i];
        if !((48 <= b && b <= 57) || (65 <= b && b <= 70) || (97 <= b && b <= 102)) {
            hex = false;
            proof {
                assert(!is_hex_byte(bytes@[i as int]));
            }
        } else {
            proof {
                assert(is_hex_byte(bytes@[i as int]));
            }
        }
        i += 1;
    }
    if !hex {
        return Err(copy_str("invalid commit id"));
    }
    Ok(())
}

/// A commit message: non-blank and at most 512 bytes.
pub open spec fn message_ok(m: Seq<char>) -> bool {
    !is_blank(m) && byte_len(m) <= 512
}

/// Checks a commit message.
pub fn validate_commit_message(message: &str) -> (r: Result<(), String>)
    ensures
        match r {
            Ok(()) => message_ok(message@),
            Err(e) => !message_ok(message@) && e@ == "commit message must be 1..=512 characters"@,
        },
{
    if blank(message) || !within_bytes(message, 512) {
        return Err(copy_str("commit message must be 1..=512 characters"));
    }
    Ok(())
}

/// The text a commit id is the hash of: the commit's content fields, one
/// per line.
pub open spec fn commit_material(c: ProjectCommit) -> Seq<char> {
    c.snapshot_hash@ + "\n"@ + (match c.parent {
        Some(p) => p@,
        None => Seq::empty(),
    }) + "\n"@ + c.branch@ + "\n"@ + c.message@ + "\n"@ + decimal(c.created_unix_seconds as nat) + "\n"@
        + c.project_id@ + "\n"@ + decimal(c.project_format_version as nat) + "\n"@ + c.asset_manifest_hash@ + "\n"@
        + c.plugin_manifest_hash@ + "\n"@ + c.platform@ + "\n"@ + c.render_artifact_hash@ + "\n"@ + decimal(
        c.render_artifact_bytes as nat,
    )
}

/// The id of a commit: the content hash of its material.
pub open spec fn commit_id_of(c: ProjectCommit) -> Seq<char> {
    hex_bytes(sha256_of(encode_utf8(commit_material(c))))
}

fn commit_id_material(commit: &ProjectCommit) -> (r: String)
    ensures
        r@ == commit_material(*commit),
{
    let mut s = copy_str(commit.snapshot_hash.as_str());
    push_str(&mut s, "\n");
    match &commit.parent {
        Some(p) => push_str(&mut s, p.as_str()),
        None => {
            proof {
                assert(s@ + Seq::<char>::empty() =~= s@);
            }
        },
    }
    push_str(&mut s, "\n");
    push_str(&mut s, commit.branch.as_str());
    push_str(&mut s, "\n");
    push_str(&mut s, commit.message.as_str());
    push_str(&mut s, "\n");
    push_decimal(&mut s, commit.created_unix_seconds);
    push_str(&mut s, "\n");
    push_str(&mut s, commit.project_id.as_str());
    push_str(&mut s, "\n");
    push_decimal(&mut s, commit.project_format_version as u64);
    push_str(&mut s, "\n");
    push_str(&mut s, commit.asset_manifest_hash.as_str());
    push_str(&mut s, "\n");
    push_str(&mut s, commit.plugin_manifest_hash.as_str());
    push_str(&mut s, "\n");
    push_str(&mut s, commit.platform.as_str());
    push_str(&mut s, "\n");
    push_str(&mut s, commit.render_artifact_hash.as_str());
    push_str(&mut s, "\n");
    push_decimal(&mut s, commit.render_artifact_bytes);
    proof {
        assert(s@ =~= commit_material(*commit));
    }
    s
}

/// The id a commit record must carry: the content hash of its fields.
pub fn commit_id(commit: &ProjectCommit) -> (r: String)
    ensures
        r@ == commit_id_of(*commit),
{
    let material = commit_id_material(commit);
    content_hash(material.as_str().as_bytes())
}

/// A loaded commit record is genuine when its content hashes to the id it
/// was requested under.
pub fn commit_matches_id(commit: &ProjectCommit, id: &str) -> (r: bool)
    ensures
        r == (commit_id_of(*commit) == id@),
{
    let computed = commit_id(commit);
    crate::text::str_eq(computed.as_str(), id)
}

/// Why a commit record loaded under `id` is refused, if it is: a foreign
/// schema or another id, missing content fields (project id, format
/// version, the three 64-byte hashes, platform), or content that does not
/// hash to the id.
pub open spec fn commit_refusal(c: ProjectCommit, id: Seq<char>) -> Option<Seq<char>> {
    if c.schema_version != HISTORY_SCHEMA_VERSION || c.commit_id@ != id {
        Some("invalid commit metadata"@)
    } else if c.project_id@.len() == 0 || c.project_format_version == 0 || byte_len(c.snapshot_hash@) != 64
        || byte_len(c.asset_manifest_hash@) != 64 || byte_len(c.plugin_manifest_hash@) != 64 || is_blank(
        c.platform@,
    ) {
        Some("incomplete commit metadata"@)
    } else if commit_id_of(c) != id {
        Some("commit checksum mismatch"@)
    } else {
        None
    }
}

fn has_64_bytes(s: &str) -> (r: bool)
    ensures
        r == (byte_len(s@) == 64),
{
    byte_length(s) == 64
}

/// Checks a commit record read from the history under `id` (see
/// `commit_refusal`).
pub fn check_loaded_commit(commit: &ProjectCommit, id: &str) -> (r: Result<(), String>)
    ensures
        match commit_refusal(*commit, id@) {
            Some(e) => r matches Err(m) && m@ == e,
            None => r is Ok,
        },
{
    if commit.schema_version != HISTORY_SCHEMA_VERSION || !str_eq(commit.commit_id.as_str(), id) {
        return Err(copy_str("invalid commit metadata"));
    }
    if commit.project_id.as_str().unicode_len() == 0 || commit.project_format_version == 0 || !has_64_bytes(
        commit.snapshot_hash.as_str(),
    ) || !has_64_bytes(commit.asset_manifest_hash.as_str()) || !has_64_bytes(commit.plugin_manifest_hash.as_str())
        || blank(commit.platform.as_str()) {
        return Err(copy_str("incomplete commit metadata"));
    }
    if !commit_matches_id(commit, id) {
        return Err(copy_str("commit checksum mismatch"));
    }
    Ok(())
}

/// The commit a new branch or tag points at: the requested commit (which
/// the caller has read and checked), else the current head; without either
/// there is nothing to point at.
pub fn ref_target(requested: Option<&str>, head: Option<&str>, tag: bool) -> (r: Result<String, String>)
    ensures
        match (requested, head) {
            (Some(id), _) => r matches Ok(t) && t@ == id@,
            (None, Some(h)) => r matches Ok(t) && t@ == h@,
            (None, None) => r matches Err(m) && m@ == if tag {
                "cannot tag without a commit"@
            } else {
                "cannot branch without a commit"@
            },
        },
{
    match (requested, head) {
        (Some(id), _) => Ok(copy_str(id)),
        (None, Some(h)) => Ok(copy_str(h)),
        (None, None) => if tag {
            Err(copy_str("cannot tag without a commit"))
        } else {
            Err(copy_str("cannot branch without a commit"))
        },
    }
}

/// How many commits a log walks at most: the requested limit within
/// `1..=512`.
pub fn log_length(limit: usize) -> (r: usize)
    ensures
        r == if limit < 1 {
            1
        } else if limit > 512 {
            512
        } else {
            limit
        },
{
    if limit < 1 {
        1
    } else if limit > 512 {
        512
    } else {
        limit
    }
}

/// A new commit record on `branch` over `parent` (the branch's head), with
/// the trimmed message, carrying the id its content hashes to.
pub fn seal_commit(
    snapshot_hash: String,
    parent: Option<String>,
    branch: String,
    message: &str,
    created_unix_seconds: u64,
    project_id: String,
    project_format_version: u32,
    asset_manifest_hash: String,
    plugin_manifest_hash: String,
    platform: String,
    render: Option<(String, u64)>,
) -> (r: ProjectCommit)
    ensures
        r.schema_version == HISTORY_SCHEMA_VERSION,
        r.snapshot_hash == snapshot_hash,
        r.parent == parent,
        r.branch == branch,
        r.message@ == spec_trim(message@),
        r.created_unix_seconds == created_unix_seconds,
        r.project_id == project_id,
        r.project_format_version == project_format_version,
        r.asset_manifest_hash == asset_manifest_hash,
        r.plugin_manifest_hash == plugin_manifest_hash,
        r.platform == platform,
        match render {
            Some(x) => r.render_artifact_hash == x.0 && r.render_artifact_bytes == x.1,
            None => r.render_artifact_hash@.len() == 0 && r.render_artifact_bytes == 0,
        },
        r.commit_id@ == commit_id_of(r),
{
    let (render_artifact_hash, render_artifact_bytes) = match render {
        Some(x) => (x.0, x.1),
        None => (String::new(), 0),
    };
    let mut commit = ProjectCommit {
        schema_version: HISTORY_SCHEMA_VERSION,
        commit_id: String::new(),
        snapshot_hash,
        parent,
        branch,
        message: crate::text::trim(message),
        created_unix_seconds,
        project_id,
        project_format_version,
        asset_manifest_hash,
        plugin_manifest_hash,
        platform,
        render_artifact_hash,
        render_artifact_bytes,
    };
    let id = commit_id(&commit);
    let ghost before = commit;
    commit.commit_id = id;
    proof {
        assert(commit_material(commit) == commit_material(before));
    }
    commit
}

/// Walks the chunks of a history asset's probe from `offset`: a chunk that
/// runs past the probe ends the walk with what is known.
pub open spec fn asset_walk(b: Seq<u8>, offset: int, st: WaveScan) -> WaveScan
    decreases b.len() - offset,
{
    if offset < 0 || offset + 8 > b.len() {
        st
    } else {
        let size = le32(b, offset + 4);
        let start = offset + 8;
        if start + size > b.len() {
            st
        } else {
            let st2 = if tag_at(b, offset, fmt_tag()) && size >= 16 {
                WaveScan {
                    channels: Some(le16(b, start + 2) as u16),
                    sample_rate: Some(le32(b, start + 4) as u32),
                    block_align: Some(le16(b, start + 12) as u16),
                    ..st
                }
            } else if tag_at(b, offset, data_tag()) {
                WaveScan { data_bytes: Some(size as u64), ..st }
            } else {
                st
            };
            let next = start + size + size % 2;
            if next > b.len() {
                st2
            } else {
                asset_walk(b, next, st2)
            }
        }
    }
}

/// Sample rate, channels and frames of a history asset's WAVE probe, as far
/// as the probe reaches; all `None` unless it starts a RIFF/RF64 WAVE file.
pub open spec fn asset_metadata(b: Seq<u8>) -> (Option<u32>, Option<u16>, Option<u64>) {
    if !wave_header(b) {
        (None, None, None)
    } else {
        let st = asset_walk(b, 12, empty_scan());
        (st.sample_rate, st.channels, frames_of(st.data_bytes, st.block_align))
    }
}

/// Best-effort WAVE metadata of the first bytes of a history asset: the
/// content hash stays authoritative when the probe cannot reach the chunks.
pub fn wav_metadata(bytes: &[u8]) -> (r: (Option<u32>, Option<u16>, Option<u64>))
    ensures
        r == asset_metadata(bytes@),
{
    let ghost b = bytes@;
    if bytes.len() < 12 || (!(bytes[0] == 0x52 && bytes[1] == 0x49 && bytes[2] == 0x46 && bytes[3] == 0x46) && !(
    bytes[0] == 0x52 && bytes[1] == 0x46 && bytes[2] == 0x36 && bytes[3] == 0x34)) || !(bytes[8] == 0x57 && bytes[9]
        == 0x41 && bytes[10] == 0x56 && bytes[11] == 0x45) {
        return (None, None, None);
    }
    let mut cursor: usize = 12;
    let mut sample_rate: Option<u32> = None;
    let mut channels: Option<u16> = None;
    let mut block_align: Option<u16> = None;
    let mut data_bytes: Option<u64> = None;
    while bytes.len() - cursor >= 8
        invariant
            b == bytes@,
            wave_header(b),
            12 <= cursor <= bytes@.len(),
            asset_walk(b, cursor as int, (WaveScan { sample_rate, channels, block_align, data_bytes, rf64_data_bytes: None }))
                == asset_walk(b, 12, empty_scan()),
        ensures
            asset_walk(b, 12, empty_scan()) == (WaveScan {
                sample_rate,
                channels,
                block_align,
                data_bytes,
                rf64_data_bytes: None,
            }),
        decreases bytes.len() - cursor,
    {
        let size = bytes[cursor + 4] as u32 + 256 * (bytes[cursor + 5] as u32) + 65536 * (bytes[cursor + 6] as u32)
            + 16777216 * (bytes[cursor + 7] as u32);
        let start = cursor + 8;
        if size as u64 > (bytes.len() - start) as u64 {
            break;
        }
        let size_us = size as usize;
        let is_fmt = bytes[cursor] == 0x66 && bytes[cursor + 1] == 0x6d && bytes[cursor + 2] == 0x74 && bytes[cursor
            + 3] == 0x20;
        let is_data = bytes[cursor] == 0x64 && bytes[cursor + 1] == 0x61 && bytes[cursor + 2] == 0x74 && bytes[cursor
            + 3] == 0x61;
        if is_fmt && size >= 16 {
            channels = Some(bytes[start + 2] as u16 + 256 * (bytes[start + 3] as u16));
            sample_rate = Some(
                bytes[start + 4] as u32 + 256 * (bytes[start + 5] as u32) + 65536 * (bytes[start + 6] as u32)
                    + 16777216 * (bytes[start + 7] as u32),
            );
            block_align = Some(bytes[start + 12] as u16 + 256 * (bytes[start + 13] as u16));
        } else if is_data {
            data_bytes = Some(size as u64);
        }
        let end = start + size_us;
        let pad = size_us % 2;
        if pad > bytes.len() - end {
            cursor = bytes.len();
            proof {
                assert(asset_walk(b, end + pad, (WaveScan { sample_rate, channels, block_align, data_bytes, rf64_data_bytes: None }))
                    == (WaveScan { sample_rate, channels, block_align, data_bytes, rf64_data_bytes: None }));
            }
            break;
        }
        cursor = end + pad;
    }
    (sample_rate, channels, match (data_bytes, block_align) {
        (Some(d), Some(a)) => if a > 0 {
            Some(d / (a as u64))
        } else {
            None
        },
        _ => None,
    })
}

} // verus!
