//! OpenUtau bridge: the vocal editor's source projects (.ustx, .ust) and
//! their rendered audio (WAV, AIFF), checked and summarised without
//! launching the editor.  OpenUtau is a standalone editor, not a plug-in:
//! its rendered WAV is the audio-region input.
use vstd::prelude::*;
use crate::lines::{
    after_line, after_prefix, line_at, parse_u64, parse_unsigned, read_line, starts_with, strip_prefix, trim_char,
    trim_char_chars, trim_start, trim_start_chars, lemma_next_nl,
};
use crate::text::{decimal, push_decimal, push_str, string_push, eq_ignore_ascii_case, eq_ignore_case, ascii_lower, chars_of, copy_str, spec_trim, string_from, trim_chars};

verus! {

pub struct OpenUtauStatus {
    pub installed: bool,
    pub app_path: Option<String>,
    pub singer_root: Option<String>,
}

pub struct OpenUtauFileAudit {
    pub source_path: String,
    pub rendered_audio_path: String,
    pub source_hash: String,
    pub rendered_audio_hash: String,
    pub rendered_audio_bytes: u64,
    pub rendered_sample_rate: Option<u32>,
    pub rendered_channels: Option<u16>,
    pub rendered_frames: Option<u64>,
    pub source_note_count: u64,
    pub source_singers: Vec<String>,
}

/// A bounded, format-neutral note of the vocal editor, in source ticks.
#[derive(Debug, Clone, PartialEq, Eq)]
pub struct OpenUtauNotePreview {
    pub position: u64,
    pub duration: u64,
    pub pitch: Option<u16>,
    pub lyric: String,
}

/// What `Path::extension` gives for a path.
pub uninterp spec fn path_extension(path: Seq<char>) -> Option<Seq<char>>;

/// `Path::new(path).extension()` as text: the part of the file name after
/// its last dot, or `None` when the file name has no dot other than a
/// leading one (or the path has no file name).  `path_extension` names the
/// result; the parts after a last dot hold no dot and no slash.
#[verifier::external_body]
pub(crate) fn extension_of(path: &str) -> (r: Option<&str>)
    ensures
        match r {
            Some(e) => path_extension(path@) == Some(e@) && !e@.contains('.') && !e@.contains('/'),
            None => path_extension(path@) is None,
        },
{
    std::path::Path::new(path).extension().and_then(|v| v.to_str())
}

/// An OpenUtau project extension, ignoring ASCII case.
pub open spec fn source_extension_ok(ext: Option<Seq<char>>) -> bool {
    ext matches Some(e) && (eq_ignore_case(e, "ustx"@) || eq_ignore_case(e, "ust"@))
}

/// A rendered-audio extension, ignoring ASCII case.
pub open spec fn render_extension_ok(ext: Option<Seq<char>>) -> bool {
    ext matches Some(e) && (ascii_lower(e) == "wav"@ || ascii_lower(e) == "aif"@ || ascii_lower(e) == "aiff"@)
}

/// Checks the extension of an OpenUtau source: `.ustx` or `.ust`.
pub fn check_source_extension(ext: Option<&str>) -> (r: Result<(), String>)
    ensures
        ({
            let e = match ext {
                Some(e) => Some(e@),
                None => None,
            };
            match r {
                Ok(()) => source_extension_ok(e),
                Err(m) => !source_extension_ok(e) && m@ == "OpenUtau source must use the .ustx or .ust extension"@,
            }
        }),
{
    match ext {
        Some(e) => {
            if eq_ignore_ascii_case(e, "ustx") || eq_ignore_ascii_case(e, "ust") {
                return Ok(());
            }
        },
        None => {},
    }
    Err(copy_str("OpenUtau source must use the .ustx or .ust extension"))
}

/// Checks the extension of a rendered file: WAV or AIFF.
pub fn check_render_extension(ext: Option<&str>) -> (r: Result<(), String>)
    ensures
        ({
            let e = match ext {
                Some(e) => Some(e@),
                None => None,
            };
            match r {
                Ok(()) => render_extension_ok(e),
                Err(m) => !render_extension_ok(e) && m@ == "OpenUtau render must use WAV/AIFF extension"@,
            }
        }),
{
    match ext {
        Some(e) => {
            let l = crate::text::to_ascii_lower(e);
            proof {
                reveal_strlit("wav");
                reveal_strlit("aif");
                reveal_strlit("aiff");
            }
            if crate::text::str_eq(l.as_str(), "wav") || crate::text::str_eq(l.as_str(), "aif")
                || crate::text::str_eq(l.as_str(), "aiff") {
                return Ok(());
            }
        },
        None => {},
    }
    Err(copy_str("OpenUtau render must use WAV/AIFF extension"))
}

/// A source reference is structurally acceptable when its extension is
/// `.ustx` or `.ust`; the file need not exist.
pub fn validate_source(path: &str) -> (r: Result<(), String>)
    ensures
        match r {
            Ok(()) => source_extension_ok(path_extension(path@)),
            Err(m) => !source_extension_ok(path_extension(path@)) && m@
                == "OpenUtau source must use the .ustx or .ust extension"@,
        },
{
    check_source_extension(extension_of(path))
}

/// A render reference is structurally acceptable when its extension is
/// WAV or AIFF; the file need not exist.
pub fn validate_render(path: &str) -> (r: Result<(), String>)
    ensures
        match r {
            Ok(()) => render_extension_ok(path_extension(path@)),
            Err(m) => !render_extension_ok(path_extension(path@)) && m@ == "OpenUtau render must use WAV/AIFF extension"@,
        },
{
    check_render_extension(extension_of(path))
}

// ---------------------------------------------------------------------
// RIFF/RF64 WAVE headers.

/// Little-endian 16-bit value at `i`.
pub open spec fn le16(b: Seq<u8>, i: int) -> int {
    b[i] + 256 * b[i + 1]
}

/// Little-endian 32-bit value at `i`.
pub open spec fn le32(b: Seq<u8>, i: int) -> int {
    b[i] + 256 * b[i + 1] + 65536 * b[i + 2] + 16777216 * b[i + 3]
}

/// Little-endian 64-bit value at `i`.
pub open spec fn le64(b: Seq<u8>, i: int) -> int {
    le32(b, i) + 4294967296 * le32(b, i + 4)
}

/// The four bytes at `i` spell the tag.
pub open spec fn tag_at(b: Seq<u8>, i: int, t: (u8, u8, u8, u8)) -> bool {
    b[i] == t.0 && b[i + 1] == t.1 && b[i + 2] == t.2 && b[i + 3] == t.3
}

pub open spec fn riff() -> (u8, u8, u8, u8) {
    (0x52, 0x49, 0x46, 0x46)
}

pub open spec fn rf64() -> (u8, u8, u8, u8) {
    (0x52, 0x46, 0x36, 0x34)
}

pub open spec fn wave() -> (u8, u8, u8, u8) {
    (0x57, 0x41, 0x56, 0x45)
}

pub open spec fn ds64() -> (u8, u8, u8, u8) {
    (0x64, 0x73, 0x36, 0x34)
}

pub open spec fn fmt_tag() -> (u8, u8, u8, u8) {
    (0x66, 0x6d, 0x74, 0x20)
}

pub open spec fn data_tag() -> (u8, u8, u8, u8) {
    (0x64, 0x61, 0x74, 0x61)
}

/// A RIFF or RF64 container of WAVE data.
pub open spec fn wave_header(b: Seq<u8>) -> bool {
    b.len() >= 12 && (tag_at(b, 0, riff()) || tag_at(b, 0, rf64())) && tag_at(b, 8, wave())
}

/// What has been read of a WAVE file's chunks so far.
pub struct WaveScan {
    pub sample_rate: Option<u32>,
    pub channels: Option<u16>,
    pub block_align: Option<u16>,
    pub data_bytes: Option<u64>,
    pub rf64_data_bytes: Option<u64>,
}

/// Frames of the data chunk: its bytes over the block alignment.
pub open spec fn frames_of(data: Option<u64>, align: Option<u16>) -> Option<u64> {
    match (data, align) {
        (Some(d), Some(a)) => if a > 0 {
            Some((d / (a as u64)) as u64)
        } else {
            None
        },
        _ => None,
    }
}

/// Walks the chunks of a complete WAVE file from `offset`: `None` when a
/// chunk is malformed or runs past the end; otherwise sample rate,
/// channels and frames once the format and data chunks are known or the
/// chunks run out.
pub open spec fn wave_walk(b: Seq<u8>, offset: int, st: WaveScan) -> Option<(Option<u32>, Option<u16>, Option<u64>)>
    decreases b.len() - offset,
{
    if offset < 0 || offset + 8 > b.len() {
        Some((st.sample_rate, st.channels, frames_of(st.data_bytes, st.block_align)))
    } else {
        let size32 = le32(b, offset + 4);
        let start = offset + 8;
        let rf = if tag_at(b, offset, ds64()) && size32 >= 16 && start + 16 <= b.len() {
            Some(le64(b, start + 8) as u64)
        } else {
            st.rf64_data_bytes
        };
        let declared: int = if tag_at(b, offset, data_tag()) && size32 == u32::MAX {
            match rf {
                Some(s) => s as int,
                None => -1,
            }
        } else {
            size32
        };
        if declared < 0 || start + declared > b.len() {
            None
        } else {
            let st2 = if tag_at(b, offset, fmt_tag()) && declared >= 16 {
                WaveScan {
                    channels: Some(le16(b, start + 2) as u16),
                    sample_rate: Some(le32(b, start + 4) as u32),
                    block_align: Some(le16(b, start + 12) as u16),
                    rf64_data_bytes: rf,
                    ..st
                }
            } else if tag_at(b, offset, data_tag()) {
                WaveScan { data_bytes: Some(declared as u64), rf64_data_bytes: rf, ..st }
            } else {
                WaveScan { rf64_data_bytes: rf, ..st }
            };
            let next = start + declared + declared % 2;
            if next > b.len() {
                None
            } else if st2.data_bytes is Some && st2.sample_rate is Some && st2.channels is Some {
                Some((st2.sample_rate, st2.channels, frames_of(st2.data_bytes, st2.block_align)))
            } else {
                wave_walk(b, next, st2)
            }
        }
    }
}

pub open spec fn empty_scan() -> WaveScan {
    WaveScan { sample_rate: None, channels: None, block_align: None, data_bytes: None, rf64_data_bytes: None }
}

/// Sample rate, channels and frames of a complete WAVE file; all `None`
/// when it is not RIFF/RF64 WAVE or a chunk is malformed.
pub open spec fn wave_metadata(b: Seq<u8>) -> (Option<u32>, Option<u16>, Option<u64>) {
    if !wave_header(b) {
        (None, None, None)
    } else {
        match wave_walk(b, 12, empty_scan()) {
            Some(m) => m,
            None => (None, None, None),
        }
    }
}

pub(crate) fn read_le16(b: &[u8], i: usize) -> (r: u16)
    requires
        i + 2 <= b@.len(),
    ensures
        r == le16(b@, i as int),
{
    b[i] as u16 + 256 * (b[i + 1] as u16)
}

pub(crate) fn read_le32(b: &[u8], i: usize) -> (r: u32)
    requires
        i + 4 <= b@.len(),
    ensures
        r == le32(b@, i as int),
{
    b[i] as u32 + 256 * (b[i + 1] as u32) + 65536 * (b[i + 2] as u32) + 16777216 * (b[i + 3] as u32)
}

pub(crate) fn read_le64(b: &[u8], i: usize) -> (r: u64)
    requires
        i + 8 <= b@.len(),
    ensures
        r == le64(b@, i as int),
{
    let _n = b.len();
    read_le32(b, i) as u64 + 4294967296 * (read_le32(b, i + 4) as u64)
}

pub(crate) fn has_tag(b: &[u8], i: usize, t0: u8, t1: u8, t2: u8, t3: u8) -> (r: bool)
    requires
        i + 4 <= b@.len(),
    ensures
        r == tag_at(b@, i as int, (t0, t1, t2, t3)),
{
    b[i] == t0 && b[i + 1] == t1 && b[i + 2] == t2 && b[i + 3] == t3
}

/// Sample rate, channels and frames of a complete RIFF/RF64 WAVE file.
/// Chunks are walked without reading past the end: a chunk that runs past
/// it makes every value `None`.
pub fn wav_metadata(bytes: &[u8]) -> (r: (Option<u32>, Option<u16>, Option<u64>))
    ensures
        r == wave_metadata(bytes@),
{
    let ghost b = bytes@;
    if bytes.len() < 12 || (!has_tag(bytes, 0, 0x52, 0x49, 0x46, 0x46) && !has_tag(bytes, 0, 0x52, 0x46, 0x36, 0x34))
        || !has_tag(bytes, 8, 0x57, 0x41, 0x56, 0x45) {
        return (None, None, None);
    }
    let mut offset: usize = 12;
    let mut sample_rate: Option<u32> = None;
    let mut channels: Option<u16> = None;
    let mut block_align: Option<u16> = None;
    let mut data_bytes: Option<u64> = None;
    let mut rf64_data_bytes: Option<u64> = None;
    while bytes.len() - offset >= 8
        invariant
            b == bytes@,
            wave_header(b),
            12 <= offset <= bytes@.len(),
            wave_walk(b, offset as int, WaveScan { sample_rate, channels, block_align, data_bytes, rf64_data_bytes })
                == wave_walk(b, 12, empty_scan()),
        decreases bytes.len() - offset,
    {
        let ghost st = WaveScan { sample_rate, channels, block_align, data_bytes, rf64_data_bytes };
        let size32 = read_le32(bytes, offset + 4);
        let start = offset + 8;
        let is_data = has_tag(bytes, offset, 0x64, 0x61, 0x74, 0x61);
        let is_fmt = has_tag(bytes, offset, 0x66, 0x6d, 0x74, 0x20);
        if has_tag(bytes, offset, 0x64, 0x73, 0x36, 0x34) && size32 >= 16 && bytes.len() - start >= 16 {
            rf64_data_bytes = Some(read_le64(bytes, start + 8));
        }
        let declared: u64 = if is_data && size32 == u32::MAX {
            match rf64_data_bytes {
                Some(size) => size,
                None => {
                    return (None, None, None);
                },
            }
        } else {
            size32 as u64
        };
        if declared > (bytes.len() - start) as u64 {
            return (None, None, None);
        }
        let payload = declared as usize;
        if is_fmt && declared >= 16 {
            channels = Some(read_le16(bytes, start + 2));
            sample_rate = Some(read_le32(bytes, start + 4));
            block_align = Some(read_le16(bytes, start + 12));
        } else if is_data {
            data_bytes = Some(declared);
        }
        let pad = payload % 2;
        if pad > bytes.len() - start - payload {
            return (None, None, None);
        }
        offset = start + payload + pad;
        if data_bytes.is_some() && sample_rate.is_some() && channels.is_some() {
            return (sample_rate, channels, frames(data_bytes, block_align));
        }
    }
    (sample_rate, channels, frames(data_bytes, block_align))
}

fn frames(data: Option<u64>, align: Option<u16>) -> (r: Option<u64>)
    ensures
        r == frames_of(data, align),
{
    match (data, align) {
        (Some(d), Some(a)) => if a > 0 {
            Some(d / (a as u64))
        } else {
            None
        },
        _ => None,
    }
}

// ---------------------------------------------------------------------
// Notes of .ust and .ustx sources.

/// A note as plain values.
pub struct NoteView {
    pub position: u64,
    pub duration: u64,
    pub pitch: Option<u16>,
    pub lyric: Seq<char>,
}

pub open spec fn note_view(n: OpenUtauNotePreview) -> NoteView {
    NoteView { position: n.position, duration: n.duration, pitch: n.pitch, lyric: n.lyric@ }
}

pub open spec fn notes_view(ns: Seq<OpenUtauNotePreview>) -> Seq<NoteView> {
    ns.map_values(|n: OpenUtauNotePreview| note_view(n))
}

/// A field read as `u64`, if it parses.
pub open spec fn field_u64(s: Seq<char>) -> Option<u64> {
    match parse_unsigned(spec_trim(s), u64::MAX as nat) {
        Some(v) => Some(v as u64),
        None => None,
    }
}

/// A field read as a MIDI pitch: a `u16` of at most 127.
pub open spec fn field_pitch(s: Seq<char>) -> Option<u16> {
    match parse_unsigned(spec_trim(s), u16::MAX as nat) {
        Some(v) => if v <= 127 {
            Some(v as u16)
        } else {
            None
        },
        None => None,
    }
}

/// A lyric field: trimmed, then without surrounding quotes.
pub open spec fn field_text(s: Seq<char>) -> Seq<char> {
    trim_char(spec_trim(s), '"')
}

/// `a + b`, saturating at `u64::MAX`.
pub open spec fn sat_add(a: u64, b: u64) -> u64 {
    if a + b > u64::MAX {
        u64::MAX
    } else {
        (a + b) as u64
    }
}

/// Where a .ust parse stands.
pub struct UstState {
    pub notes: Seq<NoteView>,
    pub position: u64,
    pub duration: Option<u64>,
    pub pitch: Option<u16>,
    pub lyric: Seq<char>,
}

/// Closes the pending .ust note: one with a length and a pitch is kept
/// when its length is positive and fewer than 4096 notes are kept, and
/// moves the position on.
pub open spec fn ust_flush(st: UstState) -> UstState {
    let notes = match (st.duration, st.pitch) {
        (Some(len), Some(p)) => if len > 0 && st.notes.len() < 4096 {
            st.notes.push(NoteView { position: st.position, duration: len, pitch: Some(p), lyric: st.lyric })
        } else {
            st.notes
        },
        _ => st.notes,
    };
    let position = match (st.duration, st.pitch) {
        (Some(len), Some(_)) => sat_add(st.position, len),
        _ => st.position,
    };
    UstState { notes, position, duration: None, pitch: None, lyric: Seq::empty() }
}

/// One line of a .ust source.
pub open spec fn ust_step(st: UstState, line: Seq<char>) -> UstState {
    let t = spec_trim(line);
    if starts_with(t, "[#"@) {
        ust_flush(st)
    } else if starts_with(t, "Length="@) {
        UstState { duration: field_u64(after_prefix(t, "Length="@)), ..st }
    } else if starts_with(t, "NoteNum="@) {
        UstState { pitch: field_pitch(after_prefix(t, "NoteNum="@)), ..st }
    } else if starts_with(t, "Lyric="@) {
        UstState { lyric: field_text(after_prefix(t, "Lyric="@)), ..st }
    } else {
        st
    }
}

/// The lines from `i` on, read into the state.
pub open spec fn ust_scan(s: Seq<char>, i: int, st: UstState) -> UstState
    decreases s.len() - i,
{
    if i < 0 || i >= s.len() {
        st
    } else {
        proof {
            lemma_next_nl(s, i);
        }
        ust_scan(s, after_line(s, i), ust_step(st, line_at(s, i)))
    }
}

pub open spec fn ust_start() -> UstState {
    UstState { notes: Seq::empty(), position: 0, duration: None, pitch: None, lyric: Seq::empty() }
}

/// The notes of a .ust source.
pub open spec fn ust_notes(s: Seq<char>) -> Seq<NoteView> {
    ust_flush(ust_scan(s, 0, ust_start())).notes
}

/// Where a .ustx parse stands.
pub struct UstxState {
    pub notes: Seq<NoteView>,
    pub position: Option<u64>,
    pub duration: Option<u64>,
    pub pitch: Option<u16>,
    pub lyric: Seq<char>,
}

/// Closes the pending .ustx note: one with a position and a positive
/// duration is kept while fewer than 4096 notes are kept.
pub open spec fn ustx_flush(st: UstxState) -> UstxState {
    let notes = match (st.position, st.duration) {
        (Some(start), Some(len)) => if len > 0 && st.notes.len() < 4096 {
            st.notes.push(NoteView { position: start, duration: len, pitch: st.pitch, lyric: st.lyric })
        } else {
            st.notes
        },
        _ => st.notes,
    };
    UstxState { notes, position: None, duration: None, pitch: None, lyric: Seq::empty() }
}

/// One line of a .ustx source.
pub open spec fn ustx_step(st: UstxState, line: Seq<char>) -> UstxState {
    let t = spec_trim(line);
    if starts_with(t, "- position:"@) {
        UstxState { position: field_u64(after_prefix(t, "- position:"@)), ..ustx_flush(st) }
    } else if starts_with(t, "position:"@) {
        UstxState { position: field_u64(after_prefix(t, "position:"@)), ..st }
    } else if starts_with(t, "- duration:"@) {
        UstxState { duration: field_u64(after_prefix(t, "- duration:"@)), ..st }
    } else if starts_with(t, "duration:"@) {
        UstxState { duration: field_u64(after_prefix(t, "duration:"@)), ..st }
    } else if starts_with(t, "tone:"@) {
        UstxState { pitch: field_pitch(after_prefix(t, "tone:"@)), ..st }
    } else if starts_with(t, "- tone:"@) {
        UstxState { pitch: field_pitch(after_prefix(t, "- tone:"@)), ..st }
    } else if starts_with(t, "lyric:"@) {
        UstxState { lyric: field_text(after_prefix(t, "lyric:"@)), ..st }
    } else if starts_with(t, "- lyric:"@) {
        UstxState { lyric: field_text(after_prefix(t, "- lyric:"@)), ..st }
    } else {
        st
    }
}

pub open spec fn ustx_scan(s: Seq<char>, i: int, st: UstxState) -> UstxState
    decreases s.len() - i,
{
    if i < 0 || i >= s.len() {
        st
    } else {
        proof {
            lemma_next_nl(s, i);
        }
        ustx_scan(s, after_line(s, i), ustx_step(st, line_at(s, i)))
    }
}

pub open spec fn ustx_start() -> UstxState {
    UstxState { notes: Seq::empty(), position: None, duration: None, pitch: None, lyric: Seq::empty() }
}

/// The notes of a .ustx source.
pub open spec fn ustx_notes(s: Seq<char>) -> Seq<NoteView> {
    ustx_flush(ustx_scan(s, 0, ustx_start())).notes
}

fn read_u64_field(rest: &[char]) -> (r: Option<u64>)
    ensures
        r == field_u64(rest@),
{
    let t = trim_chars(rest);
    parse_u64(t.as_slice())
}

fn read_pitch_field(rest: &[char]) -> (r: Option<u16>)
    ensures
        r == field_pitch(rest@),
{
    let t = trim_chars(rest);
    match parse_u64(t.as_slice()) {
        Some(v) => {
            proof {
                assert(parse_unsigned(t@, u16::MAX as nat) == if v <= u16::MAX {
                    Some(v as nat)
                } else {
                    None::<nat>
                });
            }
            if v <= 127 {
                Some(v as u16)
            } else {
                None
            }
        },
        None => {
            proof {
                assert(parse_unsigned(t@, u16::MAX as nat) is None);
            }
            None
        },
    }
}

fn read_text_field(rest: &[char]) -> (r: Vec<char>)
    ensures
        r@ == field_text(rest@),
{
    let t = trim_chars(rest);
    trim_char_chars(t.as_slice(), '"')
}

fn sat_add_exec(a: u64, b: u64) -> (r: u64)
    ensures
        r == sat_add(a, b),
{
    if u64::MAX - a < b {
        u64::MAX
    } else {
        a + b
    }
}

/// Exec state of a .ust parse.
struct UstRun {
    notes: Vec<OpenUtauNotePreview>,
    position: u64,
    duration: Option<u64>,
    pitch: Option<u16>,
    lyric: Vec<char>,
}

impl UstRun {
    spec fn view(&self) -> UstState {
        UstState {
            notes: notes_view(self.notes@),
            position: self.position,
            duration: self.duration,
            pitch: self.pitch,
            lyric: self.lyric@,
        }
    }

    fn flush(&mut self)
        ensures
            final(self).view() == ust_flush(old(self).view()),
    {
        let ghost before = self.view();
        match (self.duration, self.pitch) {
            (Some(len), Some(p)) => {
                if len > 0 && self.notes.len() < 4096 {
                    let n = OpenUtauNotePreview {
                        position: self.position,
                        duration: len,
                        pitch: Some(p),
                        lyric: string_from(self.lyric.as_slice()),
                    };
                    let ghost nv = notes_view(self.notes@);
                    self.notes.push(n);
                    proof {
                        assert(notes_view(self.notes@) =~= nv.push(note_view(n)));
                    }
                }
                self.position = sat_add_exec(self.position, len);
            },
            _ => {},
        }
        self.duration = None;
        self.pitch = None;
        self.lyric = Vec::new();
        proof {
            assert(self.view() =~= ust_flush(before));
        }
    }

    fn step(&mut self, line: &[char])
        ensures
            final(self).view() == ust_step(old(self).view(), line@),
    {
        let t = trim_chars(line);
        if let Some(_) = strip_prefix(t.as_slice(), "[#") {
            self.flush();
        } else if let Some(rest) = strip_prefix(t.as_slice(), "Length=") {
            self.duration = read_u64_field(rest.as_slice());
        } else if let Some(rest) = strip_prefix(t.as_slice(), "NoteNum=") {
            self.pitch = read_pitch_field(rest.as_slice());
        } else if let Some(rest) = strip_prefix(t.as_slice(), "Lyric=") {
            self.lyric = read_text_field(rest.as_slice());
        }
    }
}

/// The notes of a .ust source: each `[#...]` section with a positive
/// `Length=` and a `NoteNum=` pitch of at most 127 becomes a note placed
/// after the previous ones, up to 4096 notes.
pub fn parse_ust_notes(text: &str) -> (r: Vec<OpenUtauNotePreview>)
    ensures
        notes_view(r@) == ust_notes(text@),
{
    let cs = chars_of(text);
    let mut run = UstRun { notes: Vec::new(), position: 0, duration: None, pitch: None, lyric: Vec::new() };
    proof {
        assert(notes_view(run.notes@) =~= Seq::<NoteView>::empty());
        assert(run.lyric@ =~= Seq::<char>::empty());
        assert(run.view() == ust_start());
    }
    let mut i: usize = 0;
    while i < cs.len()
        invariant
            i <= cs@.len(),
            cs@ == text@,
            ust_scan(cs@, i as int, run.view()) == ust_scan(cs@, 0, ust_start()),
        decreases cs.len() - i,
    {
        let (line, next) = read_line(cs.as_slice(), i);
        run.step(line.as_slice());
        i = next;
    }
    run.flush();
    run.notes
}

/// Exec state of a .ustx parse.
struct UstxRun {
    notes: Vec<OpenUtauNotePreview>,
    position: Option<u64>,
    duration: Option<u64>,
    pitch: Option<u16>,
    lyric: Vec<char>,
}

impl UstxRun {
    spec fn view(&self) -> UstxState {
        UstxState {
            notes: notes_view(self.notes@),
            position: self.position,
            duration: self.duration,
            pitch: self.pitch,
            lyric: self.lyric@,
        }
    }

    fn flush(&mut self)
        ensures
            final(self).view() == ustx_flush(old(self).view()),
    {
        let ghost before = self.view();
        match (self.position, self.duration) {
            (Some(start), Some(len)) => {
                if len > 0 && self.notes.len() < 4096 {
                    let n = OpenUtauNotePreview {
                        position: start,
                        duration: len,
                        pitch: self.pitch,
                        lyric: string_from(self.lyric.as_slice()),
                    };
                    let ghost nv = notes_view(self.notes@);
                    self.notes.push(n);
                    proof {
                        assert(notes_view(self.notes@) =~= nv.push(note_view(n)));
                    }
                }
            },
            _ => {},
        }
        self.position = None;
        self.duration = None;
        self.pitch = None;
        self.lyric = Vec::new();
        proof {
            assert(self.view() =~= ustx_flush(before));
        }
    }

    fn step(&mut self, line: &[char])
        ensures
            final(self).view() == ustx_step(old(self).view(), line@),
    {
        let t = trim_chars(line);
        if let Some(rest) = strip_prefix(t.as_slice(), "- position:") {
            self.flush();
            self.position = read_u64_field(rest.as_slice());
        } else if let Some(rest) = strip_prefix(t.as_slice(), "position:") {
            self.position = read_u64_field(rest.as_slice());
        } else if let Some(rest) = strip_prefix(t.as_slice(), "- duration:") {
            self.duration = read_u64_field(rest.as_slice());
        } else if let Some(rest) = strip_prefix(t.as_slice(), "duration:") {
            self.duration = read_u64_field(rest.as_slice());
        } else if let Some(rest) = strip_prefix(t.as_slice(), "tone:") {
            self.pitch = read_pitch_field(rest.as_slice());
        } else if let Some(rest) = strip_prefix(t.as_slice(), "- tone:") {
            self.pitch = read_pitch_field(rest.as_slice());
        } else if let Some(rest) = strip_prefix(t.as_slice(), "lyric:") {
            self.lyric = read_text_field(rest.as_slice());
        } else if let Some(rest) = strip_prefix(t.as_slice(), "- lyric:") {
            self.lyric = read_text_field(rest.as_slice());
        }
    }
}

/// The notes of a .ustx source: each `- position:` entry with a positive
/// duration becomes a note (pitch and lyric when given), up to 4096.
pub fn parse_ustx_notes(text: &str) -> (r: Vec<OpenUtauNotePreview>)
    ensures
        notes_view(r@) == ustx_notes(text@),
{
    let cs = chars_of(text);
    let mut run = UstxRun { notes: Vec::new(), position: None, duration: None, pitch: None, lyric: Vec::new() };
    proof {
        assert(notes_view(run.notes@) =~= Seq::<NoteView>::empty());
        assert(run.lyric@ =~= Seq::<char>::empty());
        assert(run.view() == ustx_start());
    }
    let mut i: usize = 0;
    while i < cs.len()
        invariant
            i <= cs@.len(),
            cs@ == text@,
            ustx_scan(cs@, i as int, run.view()) == ustx_scan(cs@, 0, ustx_start()),
        decreases cs.len() - i,
    {
        let (line, next) = read_line(cs.as_slice(), i);
        run.step(line.as_slice());
        i = next;
    }
    run.flush();
    run.notes
}

// ---------------------------------------------------------------------
// Source summaries and the note preview.

/// What a source summary has counted so far: notes, singers, and for .ust
/// whether the current section has a pitch.
pub struct CountState {
    pub count: nat,
    pub singers: Seq<Seq<char>>,
    pub has_note_num: bool,
}

/// One line of a .ustx summary: `- position:` entries count as notes and
/// each new non-empty `- singer:` is listed once, in order.
pub open spec fn ustx_count_step(st: CountState, line: Seq<char>) -> CountState {
    let count = if starts_with(trim_start(line), "- position:"@) {
        st.count + 1
    } else {
        st.count
    };
    let t = spec_trim(line);
    let singers = if starts_with(t, "- singer:"@) {
        let v = field_text(after_prefix(t, "- singer:"@));
        if v.len() > 0 && !st.singers.contains(v) {
            st.singers.push(v)
        } else {
            st.singers
        }
    } else {
        st.singers
    };
    CountState { count, singers, ..st }
}

/// One line of a .ust summary: a `#[` line closes a section, which counts
/// when its last `NoteNum=` parsed as a `u16`.
pub open spec fn ust_count_step(st: CountState, line: Seq<char>) -> CountState {
    if starts_with(line, "#["@) {
        CountState { count: if st.has_note_num { st.count + 1 } else { st.count }, has_note_num: false, ..st }
    } else if starts_with(line, "NoteNum="@) {
        CountState {
            has_note_num: parse_unsigned(spec_trim(after_prefix(line, "NoteNum="@)), u16::MAX as nat) is Some,
            ..st
        }
    } else {
        st
    }
}

pub open spec fn count_scan(s: Seq<char>, i: int, st: CountState, ustx: bool) -> CountState
    decreases s.len() - i,
{
    if i < 0 || i >= s.len() {
        st
    } else {
        proof {
            lemma_next_nl(s, i);
        }
        let next = if ustx {
            ustx_count_step(st, line_at(s, i))
        } else {
            ust_count_step(st, line_at(s, i))
        };
        count_scan(s, after_line(s, i), next, ustx)
    }
}

/// The note count and singers of a source text: .ustx by its entries and
/// `- singer:` lines, otherwise .ust by its pitched sections.
pub open spec fn source_summary(text: Seq<char>, ustx: bool) -> (nat, Seq<Seq<char>>) {
    let st = count_scan(text, 0, CountState { count: 0, singers: Seq::empty(), has_note_num: false }, ustx);
    if ustx {
        (st.count, st.singers)
    } else {
        (if st.has_note_num { st.count + 1 } else { st.count }, Seq::empty())
    }
}

/// What `String::from_utf8_lossy` gives for the bytes.
pub uninterp spec fn utf8_lossy(bytes: Seq<u8>) -> Seq<char>;

/// `String::from_utf8_lossy`: the text of the bytes, each invalid sequence
/// replaced by U+FFFD, as `utf8_lossy` names it; valid UTF-8 gives back
/// the text it encodes.
#[verifier::external_body]
fn lossy_text(bytes: &[u8]) -> (r: String)
    ensures
        r@ == utf8_lossy(bytes@),
        forall|t: Seq<char>| vstd::utf8::encode_utf8(t) == bytes@ ==> r@ == t,
{
    String::from_utf8_lossy(bytes).into_owned()
}

fn contains_text_vec(v: &Vec<String>, t: &[char]) -> (r: bool)
    ensures
        r == crate::keyed::text_views(v@).contains(t@),
{
    let ghost tv = crate::keyed::text_views(v@);
    let mut i: usize = 0;
    while i < v.len()
        invariant
            i <= v@.len(),
            tv == crate::keyed::text_views(v@),
            forall|j: int| 0 <= j < i ==> #[trigger] tv[j] != t@,
        decreases v.len() - i,
    {
        let c = chars_of(v[i].as_str());
        if crate::text::chars_eq(c.as_slice(), t) {
            proof {
                assert(tv[i as int] == t@);
            }
            return true;
        }
        i += 1;
    }
    false
}

/// The note count and singers of a source, from its bytes; a `.ustx`
/// path (ignoring ASCII case) is read as USTX, any other as UST.
pub fn source_metadata(path: &str, bytes: &[u8]) -> (r: (u64, Vec<String>))
    ensures
        ({
            let ustx = path_extension(path@) matches Some(e) && ascii_lower(e) == "ustx"@;
            let (n, singers) = source_summary(utf8_lossy(bytes@), ustx);
            r.0 == n as u64 && crate::keyed::text_views(r.1@) == singers
        }),
{
    let text = lossy_text(bytes);
    let ustx = match extension_of(path) {
        Some(e) => {
            let l = crate::text::to_ascii_lower(e);
            proof {
                reveal_strlit("ustx");
            }
            crate::text::str_eq(l.as_str(), "ustx")
        },
        None => false,
    };
    let cs = chars_of(text.as_str());
    let ghost start = CountState { count: 0, singers: Seq::empty(), has_note_num: false };
    let mut count: u64 = 0;
    let mut singers: Vec<String> = Vec::new();
    let mut has: bool = false;
    proof {
        assert(crate::keyed::text_views(singers@) =~= Seq::<Seq<char>>::empty());
    }
    let mut i: usize = 0;
    while i < cs.len()
        invariant
            i <= cs@.len(),
            count + (if has { 1int } else { 0int }) <= i,
            count_scan(cs@, i as int, CountState { count: count as nat, singers: crate::keyed::text_views(singers@), has_note_num: has }, ustx)
                == count_scan(cs@, 0, start, ustx),
        decreases cs.len() - i,
    {
        let ghost st = CountState { count: count as nat, singers: crate::keyed::text_views(singers@), has_note_num: has };
        let (line, next) = read_line(cs.as_slice(), i);
        if ustx {
            let ts = trim_start_chars(line.as_slice());
            if let Some(_) = strip_prefix(ts.as_slice(), "- position:") {
                count += 1;
            }
            let t = trim_chars(line.as_slice());
            if let Some(rest) = strip_prefix(t.as_slice(), "- singer:") {
                let v = read_text_field(rest.as_slice());
                if v.len() > 0 && !contains_text_vec(&singers, v.as_slice()) {
                    let ghost sv = crate::keyed::text_views(singers@);
                    singers.push(string_from(v.as_slice()));
                    proof {
                        assert(crate::keyed::text_views(singers@) =~= sv.push(v@));
                    }
                }
            }
            proof {
                assert(CountState { count: count as nat, singers: crate::keyed::text_views(singers@), has_note_num: has }
                    == ustx_count_step(st, line@));
            }
        } else {
            if let Some(_) = strip_prefix(line.as_slice(), "#[") {
                if has {
                    count += 1;
                }
                has = false;
            } else if let Some(rest) = strip_prefix(line.as_slice(), "NoteNum=") {
                let t = trim_chars(rest.as_slice());
                let parsed = parse_u64(t.as_slice());
                has = match parsed {
                    Some(v) => v <= 65535,
                    None => false,
                };
                proof {
                    if parsed is None {
                        assert(parse_unsigned(t@, u16::MAX as nat) is None);
                    }
                }
            }
            proof {
                assert(CountState { count: count as nat, singers: crate::keyed::text_views(singers@), has_note_num: has }
                    == ust_count_step(st, line@));
            }
        }
        i = next;
    }
    if !ustx && has {
        count += 1;
    }
    if !ustx {
        singers = Vec::new();
        proof {
            assert(crate::keyed::text_views(singers@) =~= Seq::<Seq<char>>::empty());
        }
    }
    (count, singers)
}

// ---------------------------------------------------------------------
// The header probe of a rendered WAVE file.

/// What the probe yields: sample rate, channels, frames and the end of the
/// data chunk.
pub type ProbeResult = (Option<u32>, Option<u16>, Option<u64>, Option<u64>);

/// Walks the chunks of a WAVE header probe from `offset` (the probe may
/// stop short of the data): `None` when a chunk it must read is cut off or
/// malformed; the metadata once the data chunk starts; sample rate and
/// channels only when the chunks run out first.
pub open spec fn probe_walk(b: Seq<u8>, offset: int, st: WaveScan) -> Option<ProbeResult>
    decreases b.len() - offset,
{
    if offset < 0 || offset + 8 > b.len() {
        Some((st.sample_rate, st.channels, None, None))
    } else {
        let size32 = le32(b, offset + 4);
        let start = offset + 8;
        let is_ds64 = tag_at(b, offset, ds64()) && size32 >= 16;
        if is_ds64 && start + 16 > b.len() {
            None
        } else {
            let rf = if is_ds64 {
                Some(le64(b, start + 8) as u64)
            } else {
                st.rf64_data_bytes
            };
            if tag_at(b, offset, fmt_tag()) {
                if size32 < 16 || start + 16 > b.len() {
                    None
                } else {
                    let st2 = WaveScan {
                        channels: Some(le16(b, start + 2) as u16),
                        sample_rate: Some(le32(b, start + 4) as u32),
                        block_align: Some(le16(b, start + 12) as u16),
                        rf64_data_bytes: rf,
                        ..st
                    };
                    probe_next(b, offset, size32, st2)
                }
            } else if tag_at(b, offset, data_tag()) {
                let size: int = if size32 == u32::MAX {
                    match rf {
                        Some(v) => v as int,
                        None => -1,
                    }
                } else {
                    size32
                };
                if size < 0 || start + size > u64::MAX {
                    None
                } else {
                    Some((st.sample_rate, st.channels, frames_of(Some(size as u64), st.block_align), Some((start + size) as u64)))
                }
            } else {
                probe_next(b, offset, size32, WaveScan { rf64_data_bytes: rf, ..st })
            }
        }
    }
}

/// Moves past a chunk of `size32` bytes (padded to even) and walks on.
pub open spec fn probe_next(b: Seq<u8>, offset: int, size32: int, st: WaveScan) -> Option<ProbeResult>
    decreases b.len() - offset, 0int,
{
    let next = offset + 8 + size32 + size32 % 2;
    if size32 + size32 % 2 > usize::MAX || next > usize::MAX {
        None
    } else if next > b.len() || offset < 0 || offset + 8 > b.len() || size32 < 0 {
        Some((st.sample_rate, st.channels, None, None))
    } else {
        probe_walk(b, next, st)
    }
}

/// The header probe's metadata: all `None` unless the bytes start a RIFF or
/// RF64 WAVE file.
pub open spec fn probe_metadata(b: Seq<u8>) -> ProbeResult {
    if !wave_header(b) {
        (None, None, None, None)
    } else {
        match probe_walk(b, 12, empty_scan()) {
            Some(m) => m,
            None => (None, None, None, None),
        }
    }
}

/// Reads a WAVE header probe (the first bytes of the file) without needing
/// the whole payload: sample rate, channels, frames and the end of the
/// data chunk.  The caller checks that end against the file size.
pub fn wav_metadata_prefix(bytes: &[u8]) -> (r: ProbeResult)
    ensures
        r == probe_metadata(bytes@),
{
    let ghost b = bytes@;
    if bytes.len() < 12 || (!has_tag(bytes, 0, 0x52, 0x49, 0x46, 0x46) && !has_tag(bytes, 0, 0x52, 0x46, 0x36, 0x34))
        || !has_tag(bytes, 8, 0x57, 0x41, 0x56, 0x45) {
        return (None, None, None, None);
    }
    let mut offset: usize = 12;
    let mut sample_rate: Option<u32> = None;
    let mut channels: Option<u16> = None;
    let mut block_align: Option<u16> = None;
    let mut rf64_data_bytes: Option<u64> = None;
    while bytes.len() - offset >= 8
        invariant
            b == bytes@,
            wave_header(b),
            12 <= offset <= bytes@.len(),
            probe_walk(b, offset as int, WaveScan { sample_rate, channels, block_align, data_bytes: None, rf64_data_bytes })
                == probe_walk(b, 12, empty_scan()),
        decreases bytes.len() - offset,
    {
        let size32 = read_le32(bytes, offset + 4);
        let start = offset + 8;
        if has_tag(bytes, offset, 0x64, 0x73, 0x36, 0x34) && size32 >= 16 {
            if bytes.len() - start < 16 {
                return (None, None, None, None);
            }
            rf64_data_bytes = Some(read_le64(bytes, start + 8));
        }
        if has_tag(bytes, offset, 0x66, 0x6d, 0x74, 0x20) {
            if size32 < 16 || bytes.len() - start < 16 {
                return (None, None, None, None);
            }
            channels = Some(read_le16(bytes, start + 2));
            sample_rate = Some(read_le32(bytes, start + 4));
            block_align = Some(read_le16(bytes, start + 12));
        } else if has_tag(bytes, offset, 0x64, 0x61, 0x74, 0x61) {
            let data_size: u64 = if size32 == u32::MAX {
                match rf64_data_bytes {
                    Some(size) => size,
                    None => {
                        return (None, None, None, None);
                    },
                }
            } else {
                size32 as u64
            };
            if data_size > u64::MAX - start as u64 {
                return (None, None, None, None);
            }
            let data_end = start as u64 + data_size;
            return (sample_rate, channels, frames(Some(data_size), block_align), Some(data_end));
        }
        let padded: u64 = size32 as u64 + (size32 % 2) as u64;
        if padded > usize::MAX as u64 {
            return (None, None, None, None);
        }
        let padded_us = padded as usize;
        if padded_us > usize::MAX - start {
            return (None, None, None, None);
        }
        let next = start + padded_us;
        if next > bytes.len() {
            return (sample_rate, channels, None, None);
        }
        offset = next;
    }
    (sample_rate, channels, None, None)
}

/// The lowercased extension of a path, empty when it has none.
pub open spec fn lower_extension(path: Seq<char>) -> Seq<char> {
    match path_extension(path) {
        Some(e) => ascii_lower(e),
        None => Seq::empty(),
    }
}

/// The AIFF header: `FORM`, then `AIFF` or `AIFC` at byte 8.
pub open spec fn aiff_header(b: Seq<u8>) -> bool {
    b.len() >= 12 && tag_at(b, 0, (0x46, 0x4f, 0x52, 0x4d)) && (tag_at(b, 8, (0x41, 0x49, 0x46, 0x46)) || tag_at(
        b,
        8,
        (0x41, 0x49, 0x46, 0x43),
    ))
}

/// The render payload is audio of its kind: a WAV with a format, at least
/// one frame, and a data chunk within the file; an AIFF with its header.
pub open spec fn payload_error(
    ext: Seq<char>,
    b: Seq<u8>,
    file_size: u64,
    sample_rate: Option<u32>,
    channels: Option<u16>,
    frames: Option<u64>,
    data_end: Option<u64>,
) -> Option<Seq<char>> {
    if ext == "wav"@ {
        if sample_rate is None || channels is None || (frames matches Some(f) ==> f == 0) || file_size < 12 || (
        data_end matches Some(e) ==> e > file_size) {
            Some("OpenUtau WAV render has no valid non-empty RIFF/WAVE audio payload"@)
        } else {
            None
        }
    } else if ext == "aif"@ || ext == "aiff"@ {
        if !aiff_header(b) {
            Some("OpenUtau AIFF render has no valid FORM/AIFF payload"@)
        } else {
            None
        }
    } else {
        Some("OpenUtau render extension is unsupported"@)
    }
}

/// Checks that a rendered file holds audio of its kind, from its header
/// probe, its size and the probed WAVE metadata.
pub fn validate_render_payload(
    path: &str,
    bytes: &[u8],
    file_size: u64,
    sample_rate: Option<u32>,
    channels: Option<u16>,
    frames: Option<u64>,
    data_end: Option<u64>,
) -> (r: Result<(), String>)
    ensures
        match payload_error(lower_extension(path@), bytes@, file_size, sample_rate, channels, frames, data_end) {
            Some(m) => r matches Err(e) && e@ == m,
            None => r is Ok,
        },
{
    let ext = match extension_of(path) {
        Some(e) => crate::text::to_ascii_lower(e),
        None => String::new(),
    };
    proof {
        reveal_strlit("wav");
        reveal_strlit("aif");
        reveal_strlit("aiff");
    }
    if crate::text::str_eq(ext.as_str(), "wav") {
        let no_frames = match frames {
            Some(f) => f == 0,
            None => true,
        };
        let past_end = match data_end {
            Some(e) => e > file_size,
            None => true,
        };
        if sample_rate.is_none() || channels.is_none() || no_frames || file_size < 12 || past_end {
            return Err(copy_str("OpenUtau WAV render has no valid non-empty RIFF/WAVE audio payload"));
        }
        Ok(())
    } else if crate::text::str_eq(ext.as_str(), "aif") || crate::text::str_eq(ext.as_str(), "aiff") {
        if bytes.len() < 12 || !has_tag(bytes, 0, 0x46, 0x4f, 0x52, 0x4d) || !(has_tag(bytes, 8, 0x41, 0x49, 0x46, 0x46)
            || has_tag(bytes, 8, 0x41, 0x49, 0x46, 0x43)) {
            return Err(copy_str("OpenUtau AIFF render has no valid FORM/AIFF payload"));
        }
        Ok(())
    } else {
        Err(copy_str("OpenUtau render extension is unsupported"))
    }
}

// ---------------------------------------------------------------------
// The note preview of the embedded vocal editor.

/// `s` right-aligned to width `w` with `c` (as `{:>w}` or `{:0w}` pad).
pub open spec fn pad_left(s: Seq<char>, w: nat, c: char) -> Seq<char> {
    if s.len() >= w {
        s
    } else {
        Seq::new((w - s.len()) as nat, |_i: int| c) + s
    }
}

pub open spec fn note_names() -> Seq<Seq<char>> {
    seq!["C"@, "C#"@, "D"@, "D#"@, "E"@, "F"@, "F#"@, "G"@, "G#"@, "A"@, "A#"@, "B"@]
}

/// The note name and octave of a MIDI pitch (60 is `C4`).
pub open spec fn pitch_name(p: u16) -> Seq<char> {
    let octave = (p / 12) as int - 1;
    note_names()[(p % 12) as int] + if octave < 0 {
        "-1"@
    } else {
        decimal(octave as nat)
    }
}

/// The pitch and its name, or a placeholder.
pub open spec fn pitch_label(p: Option<u16>) -> Seq<char> {
    match p {
        Some(p) => decimal(p as nat) + " / "@ + pitch_name(p),
        None => "-- / unknown"@,
    }
}

/// Line breaks in a lyric shown as spaces.
pub open spec fn clean_lyric(l: Seq<char>) -> Seq<char> {
    l.map_values(|c: char| if c == '\n' || c == '\r' { ' ' } else { c })
}

/// The preview line of the note at index `i`.
pub open spec fn preview_line(i: nat, n: NoteView) -> Seq<char> {
    "#"@ + pad_left(decimal(i + 1), 3, '0') + "  tick "@ + pad_left(decimal(n.position as nat), 6, ' ') + "–"@
        + pad_left(decimal(sat_add(n.position, n.duration) as nat), 6, ' ') + "  len "@ + pad_left(
        decimal(n.duration as nat),
        5,
        ' ',
    ) + "  "@ + pitch_label(n.pitch) + "  ·  "@ + clean_lyric(
        if n.lyric.len() == 0 {
            "…"@
        } else {
            n.lyric
        },
    )
}

/// Appends `n` in decimal, right-aligned to width `w` with `c`.
fn push_padded(s: &mut String, n: u64, w: usize, c: char)
    ensures
        final(s)@ == old(s)@ + pad_left(decimal(n as nat), w as nat, c),
{
    let mut digits = String::new();
    push_decimal(&mut digits, n);
    proof {
        assert(Seq::<char>::empty() + decimal(n as nat) =~= decimal(n as nat));
    }
    let len = digits.as_str().unicode_len();
    if len < w {
        let mut k: usize = 0;
        while k < w - len
            invariant
                k <= w - len,
                len < w,
                s@ == old(s)@ + Seq::new(k as nat, |_i: int| c),
            decreases w - len - k,
        {
            string_push(s, c);
            k += 1;
            proof {
                assert(old(s)@ + Seq::new(k as nat, |_i: int| c) =~= old(s)@ + Seq::new((k - 1) as nat, |_i: int| c) + seq![c]);
            }
        }
        push_str(s, digits.as_str());
        proof {
            assert(old(s)@ + Seq::new((w - len) as nat, |_i: int| c) + decimal(n as nat) =~= old(s)@ + pad_left(
                decimal(n as nat),
                w as nat,
                c,
            ));
        }
    } else {
        push_str(s, digits.as_str());
    }
}

fn name_of(k: u16) -> (r: &'static str)
    requires
        k < 12,
    ensures
        r@ == note_names()[k as int],
{
    match k {
        0 => "C",
        1 => "C#",
        2 => "D",
        3 => "D#",
        4 => "E",
        5 => "F",
        6 => "F#",
        7 => "G",
        8 => "G#",
        9 => "A",
        10 => "A#",
        _ => "B",
    }
}

fn push_pitch_label(s: &mut String, pitch: Option<u16>)
    ensures
        final(s)@ == old(s)@ + pitch_label(pitch),
{
    match pitch {
        Some(p) => {
            push_decimal(s, p as u64);
            push_str(s, " / ");
            push_str(s, name_of(p % 12));
            if p < 12 {
                push_str(s, "-1");
            } else {
                push_decimal(s, (p / 12 - 1) as u64);
            }
            proof {
                assert(s@ =~= old(s)@ + pitch_label(pitch));
            }
        },
        None => {
            push_str(s, "-- / unknown");
        },
    }
}

fn push_lyric(s: &mut String, lyric: &str)
    ensures
        final(s)@ == old(s)@ + clean_lyric(if lyric@.len() == 0 { "…"@ } else { lyric@ }),
{
    if lyric.unicode_len() == 0 {
        proof {
            reveal_strlit("…");
            assert(clean_lyric("…"@) =~= "…"@);
        }
        push_str(s, "…");
        return;
    }
    let cs = chars_of(lyric);
    let mut i: usize = 0;
    while i < cs.len()
        invariant
            i <= cs@.len(),
            cs@ == lyric@,
            lyric@.len() > 0,
            s@ == old(s)@ + clean_lyric(cs@.take(i as int)),
        decreases cs.len() - i,
    {
        let c = cs[i];
        string_push(s, if c == '\n' || c == '\r' { ' ' } else { c });
        i += 1;
        proof {
            assert(clean_lyric(cs@.take(i as int)) =~= clean_lyric(cs@.take(i - 1)).push(
                if c == '\n' || c == '\r' { ' ' } else { c },
            ));
            assert(s@ =~= old(s)@ + clean_lyric(cs@.take(i as int)));
        }
    }
    proof {
        assert(cs@.take(i as int) =~= lyric@);
    }
}

fn preview_line_text(i: usize, n: &OpenUtauNotePreview) -> (r: String)
    requires
        i < 256,
    ensures
        r@ == preview_line(i as nat, note_view(*n)),
{
    let mut s = copy_str("#");
    push_padded(&mut s, (i + 1) as u64, 3, '0');
    push_str(&mut s, "  tick ");
    push_padded(&mut s, n.position, 6, ' ');
    push_str(&mut s, "–");
    let end = sat_add_exec(n.position, n.duration);
    push_padded(&mut s, end, 6, ' ');
    push_str(&mut s, "  len ");
    push_padded(&mut s, n.duration, 5, ' ');
    push_str(&mut s, "  ");
    push_pitch_label(&mut s, n.pitch);
    push_str(&mut s, "  ·  ");
    push_lyric(&mut s, n.lyric.as_str());
    proof {
        assert(s@ =~= preview_line(i as nat, note_view(*n)));
    }
    s
}

/// The summary lines of the first 256 notes: index, tick span, length,
/// pitch and lyric, so timing and pitch mistakes show before the external
/// editor opens.
pub fn note_preview(notes: &[OpenUtauNotePreview]) -> (r: Vec<String>)
    ensures
        r@.len() == if notes@.len() < 256 { notes@.len() } else { 256 },
        forall|i: int| 0 <= i < r@.len() ==> #[trigger] r@[i]@ == preview_line(i as nat, note_view(notes@[i])),
{
    let mut r: Vec<String> = Vec::new();
    let mut i: usize = 0;
    while i < notes.len() && i < 256
        invariant
            i <= notes@.len(),
            i <= 256,
            r@.len() == i,
            forall|j: int| 0 <= j < i ==> #[trigger] r@[j]@ == preview_line(j as nat, note_view(notes@[j])),
        decreases notes.len() - i,
    {
        r.push(preview_line_text(i, &notes[i]));
        i += 1;
    }
    r
}

/// The notes of a source file's bytes: nothing for more than 64 MiB; a
/// `.ust` path (ignoring ASCII case) is read as UST, any other as USTX.
pub fn notes_from_source(path: &str, bytes: &[u8]) -> (r: Vec<OpenUtauNotePreview>)
    ensures
        bytes@.len() > 64 * 1024 * 1024 ==> r@.len() == 0,
        bytes@.len() <= 64 * 1024 * 1024 ==> notes_view(r@) == if lower_extension(path@) == "ust"@ {
            ust_notes(utf8_lossy(bytes@))
        } else {
            ustx_notes(utf8_lossy(bytes@))
        },
{
    if bytes.len() > 64 * 1024 * 1024 {
        return Vec::new();
    }
    let text = lossy_text(bytes);
    let ext = match extension_of(path) {
        Some(e) => crate::text::to_ascii_lower(e),
        None => String::new(),
    };
    proof {
        reveal_strlit("ust");
    }
    if crate::text::str_eq(ext.as_str(), "ust") {
        parse_ust_notes(text.as_str())
    } else {
        parse_ustx_notes(text.as_str())
    }
}

/// The persisted identity of a source and its render, from the source
/// bytes, the render's header probe and size, and the render's hash and
/// byte count: refused when the render holds no audio of its kind.
pub fn audit_record(
    source: &str,
    render: &str,
    source_bytes: &[u8],
    render_prefix: &[u8],
    render_size: u64,
    rendered_audio_hash: String,
    rendered_audio_bytes: u64,
) -> (r: Result<OpenUtauFileAudit, String>)
    ensures
        ({
            let (sr, ch, fr, end) = probe_metadata(render_prefix@);
            match payload_error(lower_extension(render@), render_prefix@, render_size, sr, ch, fr, end) {
                Some(m) => r matches Err(e) && e@ == m,
                None => r matches Ok(a) && {
                    let ustx = path_extension(source@) matches Some(e) && ascii_lower(e) == "ustx"@;
                    let (n, singers) = source_summary(utf8_lossy(source_bytes@), ustx);
                    &&& a.source_path@ == source@
                    &&& a.rendered_audio_path@ == render@
                    &&& a.source_hash@ == crate::digest::hex_bytes(crate::digest::sha256_of(source_bytes@))
                    &&& a.rendered_audio_hash@ == rendered_audio_hash@
                    &&& a.rendered_audio_bytes == rendered_audio_bytes
                    &&& a.rendered_sample_rate == sr
                    &&& a.rendered_channels == ch
                    &&& a.rendered_frames == fr
                    &&& a.source_note_count == n as u64
                    &&& crate::keyed::text_views(a.source_singers@) == singers
                },
            }
        }),
{
    let (sample_rate, channels, frames, data_end) = wav_metadata_prefix(render_prefix);
    match validate_render_payload(render, render_prefix, render_size, sample_rate, channels, frames, data_end) {
        Err(e) => {
            return Err(e);
        },
        Ok(()) => {},
    }
    let (source_note_count, source_singers) = source_metadata(source, source_bytes);
    Ok(
        OpenUtauFileAudit {
            source_path: copy_str(source),
            rendered_audio_path: copy_str(render),
            source_hash: crate::digest::sha256_hex(source_bytes),
            rendered_audio_hash,
            rendered_audio_bytes,
            rendered_sample_rate: sample_rate,
            rendered_channels: channels,
            rendered_frames: frames,
            source_note_count,
            source_singers,
        },
    )
}

// ---------------------------------------------------------------------
// Vocal notes as project MIDI notes.

/// A project note as plain values: track, pitch, velocity, start, length
/// and lyric (the other fields stay at their defaults).
pub open spec fn midi_view(m: crate::project_contracts::MidiNoteContract) -> (u32, u8, u8, u64, u64, Seq<char>) {
    (m.track_id, m.pitch, m.velocity, m.start_sample, m.length_samples, m.lyric@)
}

/// The conversion of one more note: notes without a MIDI pitch or with no
/// duration are skipped; ticks become samples rounded down (a length of at
/// least one); a start, length or end beyond `u64` refuses the whole
/// conversion.
pub open spec fn midi_step(acc: Seq<(u32, u8, u8, u64, u64, Seq<char>)>, n: NoteView, track: u32, sr: u32, tpb: u32) -> Result<
    Seq<(u32, u8, u8, u64, u64, Seq<char>)>,
    Seq<char>,
> {
    match n.pitch {
        None => Ok(acc),
        Some(p) => if p > 127 || n.duration == 0 {
            Ok(acc)
        } else {
            let start = (n.position * sr) / (tpb as int);
            let raw = (n.duration * sr) / (tpb as int);
            let length = if raw < 1 { 1 } else { raw };
            if start > u64::MAX {
                Err("OpenUtau note start overflows sample timeline"@)
            } else if length > u64::MAX {
                Err("OpenUtau note length overflows sample timeline"@)
            } else if start + length > u64::MAX {
                Err("MIDI note range overflows sample position"@)
            } else {
                Ok(acc.push((track, p as u8, 100u8, start as u64, length as u64, n.lyric)))
            }
        },
    }
}

/// The conversion of the notes, in order; the first refusal wins.
pub open spec fn midi_notes(ns: Seq<NoteView>, track: u32, sr: u32, tpb: u32) -> Result<
    Seq<(u32, u8, u8, u64, u64, Seq<char>)>,
    Seq<char>,
>
    decreases ns.len(),
{
    if ns.len() == 0 {
        Ok(Seq::empty())
    } else {
        match midi_notes(ns.drop_last(), track, sr, tpb) {
            Err(e) => Err(e),
            Ok(acc) => midi_step(acc, ns.last(), track, sr, tpb),
        }
    }
}

proof fn lemma_midi_error_sticks(ns: Seq<NoteView>, k: int, track: u32, sr: u32, tpb: u32)
    requires
        0 <= k <= ns.len(),
        midi_notes(ns.take(k), track, sr, tpb) is Err,
    ensures
        midi_notes(ns, track, sr, tpb) == midi_notes(ns.take(k), track, sr, tpb),
    decreases ns.len() - k,
{
    if k < ns.len() {
        assert(ns.take(k + 1).drop_last() =~= ns.take(k));
        lemma_midi_error_sticks(ns, k + 1, track, sr, tpb);
    } else {
        assert(ns.take(k) =~= ns);
    }
}

/// Converts OpenUtau notes (in source ticks) into project MIDI notes on the
/// sample timeline.  Refused when the sample rate or the ticks per beat is
/// zero, or when a note leaves the timeline.
pub fn notes_as_midi(notes: &[OpenUtauNotePreview], track_id: u32, sample_rate: u32, ticks_per_beat: u32) -> (r: Result<
    Vec<crate::project_contracts::MidiNoteContract>,
    String,
>)
    ensures
        sample_rate == 0 || ticks_per_beat == 0 ==> (r matches Err(e) && e@
            == "OpenUtau MIDI conversion requires positive sample rate and PPQ"@),
        sample_rate > 0 && ticks_per_beat > 0 ==> match midi_notes(notes_view(notes@), track_id, sample_rate, ticks_per_beat) {
            Ok(ms) => r matches Ok(v) && v@.map_values(|m: crate::project_contracts::MidiNoteContract| midi_view(m)) == ms,
            Err(m) => r matches Err(e) && e@ == m,
        },
{
    if sample_rate == 0 || ticks_per_beat == 0 {
        return Err(copy_str("OpenUtau MIDI conversion requires positive sample rate and PPQ"));
    }
    let ghost nv = notes_view(notes@);
    let mut result: Vec<crate::project_contracts::MidiNoteContract> = Vec::new();
    proof {
        assert(nv.take(0) =~= Seq::<NoteView>::empty());
        assert(result@.map_values(|m: crate::project_contracts::MidiNoteContract| midi_view(m)) =~= Seq::<
            (u32, u8, u8, u64, u64, Seq<char>),
        >::empty());
    }
    let mut i: usize = 0;
    while i < notes.len()
        invariant
            i <= notes@.len(),
            sample_rate > 0 && ticks_per_beat > 0,
            nv == notes_view(notes@),
            midi_notes(nv.take(i as int), track_id, sample_rate, ticks_per_beat) == Ok::<
                Seq<(u32, u8, u8, u64, u64, Seq<char>)>,
                Seq<char>,
            >(result@.map_values(|m: crate::project_contracts::MidiNoteContract| midi_view(m))),
        decreases notes.len() - i,
    {
        let ghost acc = result@.map_values(|m: crate::project_contracts::MidiNoteContract| midi_view(m));
        proof {
            assert(nv.take(i + 1).drop_last() =~= nv.take(i as int));
            assert(nv.take(i + 1).last() == note_view(notes@[i as int]));
        }
        let note = &notes[i];
        match note.pitch {
            None => {},
            Some(pitch) => {
                if pitch <= 127 && note.duration != 0 {
                    proof {
                        let a = note.position as int;
                        let b = note.duration as int;
                        let c = sample_rate as int;
                        assert(a * c <= 0xffff_ffff_ffff_ffff * 0xffff_ffff) by (nonlinear_arith)
                            requires
                                0 <= a <= 0xffff_ffff_ffff_ffff,
                                0 <= c <= 0xffff_ffff,
                        ;
                        assert(b * c <= 0xffff_ffff_ffff_ffff * 0xffff_ffff) by (nonlinear_arith)
                            requires
                                0 <= b <= 0xffff_ffff_ffff_ffff,
                                0 <= c <= 0xffff_ffff,
                        ;
                    }
                    let start: u128 = (note.position as u128 * sample_rate as u128) / ticks_per_beat as u128;
                    let raw: u128 = (note.duration as u128 * sample_rate as u128) / ticks_per_beat as u128;
                    let length: u128 = if raw < 1 { 1 } else { raw };
                    if start > u64::MAX as u128 {
                        proof {
                            lemma_midi_error_sticks(nv, i + 1, track_id, sample_rate, ticks_per_beat);
                        }
                        return Err(copy_str("OpenUtau note start overflows sample timeline"));
                    }
                    if length > u64::MAX as u128 {
                        proof {
                            lemma_midi_error_sticks(nv, i + 1, track_id, sample_rate, ticks_per_beat);
                        }
                        return Err(copy_str("OpenUtau note length overflows sample timeline"));
                    }
                    let contract = crate::project_contracts::MidiNoteContract {
                        track_id,
                        pitch: pitch as u8,
                        velocity: 100,
                        start_sample: start as u64,
                        length_samples: length as u64,
                        lyric: copy_str(note.lyric.as_str()),
                        phoneme: String::new(),
                        pitch_curve_cents: Vec::new(),
                        vibrato_depth_cents: 0,
                        portamento_samples: 0,
                        probability: 100,
                        repeat_count: 1,
                    };
                    proof {
                        assert(contract.phoneme@ =~= Seq::<char>::empty());
                        assert(crate::text::byte_len(contract.phoneme@) == 0);
                    }
                    match contract.validate() {
                        Err(e) => {
                            proof {
                                lemma_midi_error_sticks(nv, i + 1, track_id, sample_rate, ticks_per_beat);
                            }
                            return Err(e);
                        },
                        Ok(()) => {},
                    }
                    result.push(contract);
                    proof {
                        assert(result@.map_values(|m: crate::project_contracts::MidiNoteContract| midi_view(m)) =~= acc.push(
                            midi_view(contract),
                        ));
                    }
                }
            },
        }
        i += 1;
    }
    proof {
        assert(nv.take(i as int) =~= nv);
    }
    Ok(result)
}

} // verus!
