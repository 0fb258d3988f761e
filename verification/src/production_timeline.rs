//! The shared integer timeline that audio, video and automation clients read:
//! a master tick, a clock that counts such ticks at a fixed rate, and the
//! split of a whole number of video frames into a SMPTE timecode.
use vstd::prelude::*;

verus! {

/// The version tag of the timeline contracts.
pub const TIMELINE_API_VERSION: &'static str = "aura.timeline.v1";

/// One position on the master timeline, in ticks.
#[derive(Debug, Clone, Copy, PartialEq, Eq)]
pub struct MasterTick(pub u128);

/// A position on the master timeline together with the number of ticks that
/// make one second.
#[derive(Debug, Clone, Copy, PartialEq, Eq)]
pub struct MasterClock {
    pub tick: MasterTick,
    pub ticks_per_second: u64,
}

/// A parameter of one media domain bound to a parameter of another, each
/// named with its unit.
#[derive(Debug, Clone, PartialEq, Eq)]
pub struct ParameterBinding {
    pub source: String,
    pub target: String,
    pub source_unit: String,
    pub target_unit: String,
}

/// The whole-frame part of a SMPTE timecode.
#[derive(Debug, Clone, Copy, PartialEq, Eq)]
pub struct TimecodeFields {
    pub hours: u64,
    pub minutes: u64,
    pub seconds: u64,
    pub frames: u64,
}

/// The number of frames in one hour at `fps` frames a second.
pub open spec fn frames_per_hour(fps: int) -> int {
    fps * 3600
}

/// The number of frames in one minute at `fps` frames a second.
pub open spec fn frames_per_minute(fps: int) -> int {
    fps * 60
}

/// The timecode of frame `whole` at `fps` frames a second: hours counted
/// without wrapping, then the minute in the hour, the second in the minute
/// and the frame in the second.
pub open spec fn timecode_of(whole: int, fps: int) -> TimecodeFields
    recommends
        fps > 0,
{
    TimecodeFields {
        hours: (whole / frames_per_hour(fps)) as u64,
        minutes: ((whole % frames_per_hour(fps)) / frames_per_minute(fps)) as u64,
        seconds: ((whole % frames_per_minute(fps)) / fps) as u64,
        frames: (whole % fps) as u64,
    }
}

/// Splits frame `whole_frames` at `fps` whole frames a second into hours,
/// minutes, seconds and frames; there is no timecode at zero frames a second.
pub fn timecode_fields(whole_frames: u64, fps: u64) -> (r: Option<TimecodeFields>)
    requires
        fps * 3600 <= u64::MAX,
    ensures
        fps == 0 <==> r is None,
        fps > 0 ==> r == Some(timecode_of(whole_frames as int, fps as int)),
{
    if fps == 0 {
        return None;
    }
    let frames_per_hour = fps * 60 * 60;
    let frames_per_minute = fps * 60;
    Some(
        TimecodeFields {
            hours: whole_frames / frames_per_hour,
            minutes: (whole_frames % frames_per_hour) / frames_per_minute,
            seconds: (whole_frames % frames_per_minute) / fps,
            frames: whole_frames % fps,
        },
    )
}

/// A timecode names its frame exactly: its fields lie in their ranges (fewer
/// than 60 minutes, 60 seconds and `fps` frames), and counting them back up
/// gives the frame it was made from.
pub proof fn lemma_timecode_recomposes(whole: u64, fps: u64)
    requires
        fps > 0,
    ensures
        ({
            let t = timecode_of(whole as int, fps as int);
            &&& t.minutes < 60
            &&& t.seconds < 60
            &&& t.frames < fps
            &&& t.hours * frames_per_hour(fps as int) + t.minutes * frames_per_minute(fps as int)
                + t.seconds * fps + t.frames == whole as int
        }),
{
    let f = fps as int;
    let w = whole as int;
    let h = frames_per_hour(f);
    let m = frames_per_minute(f);
    assert(h == 60 * m) by (nonlinear_arith)
        requires
            h == f * 3600,
            m == f * 60,
    ;
    assert(m > 0 && h > 0) by (nonlinear_arith)
        requires
            f > 0,
            h == f * 3600,
            m == f * 60,
    ;
    let hh = w / h;
    let rh = w % h;
    let mm = rh / m;
    let rm = w % m;
    let ss = rm / f;
    let ff = w % f;
    assert(w == hh * h + rh && 0 <= rh < h) by (nonlinear_arith)
        requires
            h > 0,
            hh == w / h,
            rh == w % h,
    ;
    assert(rh == mm * m + rh % m && 0 <= rh % m < m) by (nonlinear_arith)
        requires
            m > 0,
            mm == rh / m,
    ;
    assert(mm < 60) by (nonlinear_arith)
        requires
            m > 0,
            h == 60 * m,
            0 <= rh < h,
            mm == rh / m,
    ;
    // w = hh*60*m + mm*m + rh%m, so w % m == rh % m.
    assert(rm == rh % m) by (nonlinear_arith)
        requires
            m > 0,
            h == 60 * m,
            w == hh * h + rh,
            rh == mm * m + rh % m,
            0 <= rh % m < m,
            rm == w % m,
    ;
    assert(m == 60 * f) by (nonlinear_arith)
        requires
            m == f * 60,
    ;
    assert(rm == ss * f + rm % f && 0 <= rm % f < f) by (nonlinear_arith)
        requires
            f > 0,
            ss == rm / f,
    ;
    assert(ss < 60) by (nonlinear_arith)
        requires
            f > 0,
            m == 60 * f,
            0 <= rm < m,
            ss == rm / f,
    ;
    assert(w == hh * h + mm * m + rm);
    let q = hh * 3600 + mm * 60 + ss;
    let r = rm % f;
    assert(w == q * f + r) by (nonlinear_arith)
        requires
            h == 60 * m,
            m == 60 * f,
            w == hh * h + mm * m + rm,
            rm == ss * f + r,
            q == hh * 3600 + mm * 60 + ss,
    ;
    assert(ff == r) by {
        vstd::arithmetic::div_mod::lemma_fundamental_div_mod_converse(w, f, q, r);
    }
    assert(0 <= hh && 0 <= mm && 0 <= ss) by (nonlinear_arith)
        requires
            w >= 0,
            h > 0,
            m > 0,
            f > 0,
            hh == w / h,
            rh >= 0,
            mm == rh / m,
            rm >= 0,
            ss == rm / f,
    ;
    assert(hh <= w) by (nonlinear_arith)
        requires
            w >= 0,
            h > 0,
            hh == w / h,
    ;
}

} // verus!
