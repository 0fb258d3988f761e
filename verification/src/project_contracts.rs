//! Persisted control-plane records of the project model: MIDI notes,
//! sidechain routes, render targets, freeze artifacts and comp takes, with
//! the checks every host surface applies to them.
use vstd::prelude::*;
use crate::text::{blank, byte_len, contains_char, copy_str, is_blank, within_bytes};

verus! {

pub const PROJECT_CONTRACT_VERSION: u32 = 1;

#[derive(Debug, Clone, Copy, PartialEq, Eq, Structural)]
pub enum PluginFormat {
    Clap,
    Vst3,
    AudioUnit,
    BuiltIn,
}

/// A scheduled note of the project document.
#[derive(Debug, Clone, PartialEq, Eq)]
pub struct MidiNoteContract {
    pub track_id: u32,
    pub pitch: u8,
    pub velocity: u8,
    pub start_sample: u64,
    pub length_samples: u64,
    /// Vocal lyric kept by OpenUtau import; empty for ordinary notes.
    pub lyric: String,
    pub phoneme: String,
    /// Pitch offsets in cents at normalised points.
    pub pitch_curve_cents: Vec<i16>,
    pub vibrato_depth_cents: u16,
    pub portamento_samples: u32,
    pub probability: u8,
    pub repeat_count: u16,
}

/// A logical sidechain edge; hydration recreates the buffers.
#[derive(Debug, Clone, PartialEq, Eq)]
pub struct SidechainRouteContract {
    pub source_id: u32,
    pub destination_id: u32,
    pub plugin_index: u32,
    pub tap_point: u32,
}

#[derive(Debug, Clone, Copy, PartialEq, Eq, Structural)]
pub enum RenderTargetKind {
    Track,
    Bus,
    Master,
}

#[derive(Debug, Clone, PartialEq, Eq)]
pub struct RenderTargetContract {
    pub target_id: String,
    pub kind: RenderTargetKind,
    pub source_id: u32,
    pub pre_fader: bool,
    pub include_inserts: bool,
    pub include_tail: bool,
    pub offline_generation: u64,
}

/// The identity of a track freeze render: the file may be missing on
/// another machine, and this lets the loader mark it stale.
#[derive(Debug, Clone, PartialEq, Eq)]
pub struct FreezeArtifactContract {
    pub track_id: u32,
    pub project_generation: u64,
    pub audio_generation: u64,
    pub total_samples: u64,
    pub sample_rate: u32,
    pub path: String,
    pub content_checksum: u64,
}

/// A recorded take available to the comp editor.
#[derive(Debug, Clone, PartialEq, Eq)]
pub struct CompTakeContract {
    pub id: u32,
    pub name: String,
    pub start_sample: u64,
    pub end_sample: u64,
}

/// One non-destructive section selected from a take.
#[derive(Debug, Clone, PartialEq, Eq)]
pub struct CompSegmentContract {
    pub take_id: u32,
    pub start_sample: u64,
    pub length_samples: u64,
    pub crossfade_samples: u32,
}

/// Why a note is refused, checked in this order: its fields, its range,
/// its phoneme, its pitch curve, its portamento.
pub open spec fn note_error(n: MidiNoteContract) -> Option<Seq<char>> {
    if n.pitch > 127 || n.velocity == 0 || n.length_samples == 0 {
        Some("invalid MIDI note fields"@)
    } else if n.start_sample + n.length_samples > u64::MAX {
        Some("MIDI note range overflows sample position"@)
    } else if byte_len(n.phoneme@) > 128 || n.phoneme@.contains('\0') {
        Some("MIDI note phoneme is invalid"@)
    } else if n.pitch_curve_cents@.len() > 256 {
        Some("MIDI note pitch curve is too large"@)
    } else if n.portamento_samples > n.length_samples {
        Some("MIDI note portamento exceeds note length"@)
    } else {
        None
    }
}

impl MidiNoteContract {
    pub fn validate(&self) -> (r: Result<(), String>)
        ensures
            match note_error(*self) {
                Some(m) => r matches Err(e) && e@ == m,
                None => r is Ok,
            },
    {
        if self.pitch > 127 || self.velocity == 0 || self.length_samples == 0 {
            return Err(copy_str("invalid MIDI note fields"));
        }
        if self.length_samples > u64::MAX - self.start_sample {
            return Err(copy_str("MIDI note range overflows sample position"));
        }
        if !within_bytes(self.phoneme.as_str(), 128) || contains_char(self.phoneme.as_str(), '\0') {
            return Err(copy_str("MIDI note phoneme is invalid"));
        }
        if self.pitch_curve_cents.len() > 256 {
            return Err(copy_str("MIDI note pitch curve is too large"));
        }
        if self.portamento_samples as u64 > self.length_samples {
            return Err(copy_str("MIDI note portamento exceeds note length"));
        }
        Ok(())
    }
}

/// A take has a non-zero id, a non-blank name of at most 128 bytes without
/// NUL, and ends after it starts.
pub open spec fn take_ok(t: CompTakeContract) -> bool {
    t.id != 0 && !is_blank(t.name@) && !t.name@.contains('\0') && byte_len(t.name@) <= 128 && t.end_sample
        > t.start_sample
}

impl CompTakeContract {
    pub fn validate(&self) -> (r: Result<(), String>)
        ensures
            match r {
                Ok(()) => take_ok(*self),
                Err(e) => !take_ok(*self) && e@ == "invalid comp take metadata"@,
            },
    {
        if self.id == 0 || blank(self.name.as_str()) || contains_char(self.name.as_str(), '\0') || !within_bytes(
            self.name.as_str(),
            128,
        ) || self.end_sample <= self.start_sample {
            return Err(copy_str("invalid comp take metadata"));
        }
        Ok(())
    }
}

/// A segment comes from a take, is not empty, crossfades within itself and
/// ends within the sample range.
pub open spec fn segment_ok(s: CompSegmentContract) -> bool {
    s.take_id != 0 && s.length_samples != 0 && s.crossfade_samples <= s.length_samples && s.start_sample
        + s.length_samples <= u64::MAX
}

impl CompSegmentContract {
    pub fn validate(&self) -> (r: Result<(), String>)
        ensures
            match r {
                Ok(()) => segment_ok(*self),
                Err(e) => !segment_ok(*self) && e@ == "invalid comp segment bounds"@,
            },
    {
        if self.take_id == 0 || self.length_samples == 0 || self.crossfade_samples as u64 > self.length_samples
            || self.length_samples > u64::MAX - self.start_sample {
            return Err(copy_str("invalid comp segment bounds"));
        }
        Ok(())
    }
}

} // verus!
