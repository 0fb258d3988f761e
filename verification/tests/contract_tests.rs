use aura_core_bridge::openutau::{notes_as_midi, OpenUtauNotePreview};
use aura_core_bridge::project_contracts::{CompSegmentContract, CompTakeContract, MidiNoteContract};

fn note(start: u64, length: u64) -> MidiNoteContract {
    MidiNoteContract {
        track_id: 1,
        pitch: 60,
        velocity: 90,
        start_sample: start,
        length_samples: length,
        lyric: String::new(),
        phoneme: String::new(),
        pitch_curve_cents: vec![],
        vibrato_depth_cents: 0,
        portamento_samples: 0,
        probability: 100,
        repeat_count: 1,
    }
}

#[test]
fn midi_notes_are_checked_in_order() {
    assert!(note(0, 10).validate().is_ok());
    assert_eq!(note(0, 0).validate().unwrap_err(), "invalid MIDI note fields");
    assert_eq!(note(u64::MAX, 1).validate().unwrap_err(), "MIDI note range overflows sample position");
    let mut n = note(0, 10);
    n.phoneme = "a\0".into();
    assert_eq!(n.validate().unwrap_err(), "MIDI note phoneme is invalid");
    let mut n = note(0, 10);
    n.pitch_curve_cents = vec![0; 257];
    assert_eq!(n.validate().unwrap_err(), "MIDI note pitch curve is too large");
    let mut n = note(0, 10);
    n.portamento_samples = 11;
    assert_eq!(n.validate().unwrap_err(), "MIDI note portamento exceeds note length");
}

#[test]
fn comp_takes_and_segments_are_bounded() {
    let take = CompTakeContract { id: 1, name: "Take 1".into(), start_sample: 0, end_sample: 10 };
    assert!(take.validate().is_ok());
    let empty = CompTakeContract { id: 1, name: "Take 1".into(), start_sample: 10, end_sample: 10 };
    assert_eq!(empty.validate().unwrap_err(), "invalid comp take metadata");
    let segment = CompSegmentContract { take_id: 1, start_sample: 5, length_samples: 10, crossfade_samples: 10 };
    assert!(segment.validate().is_ok());
    let wide = CompSegmentContract { take_id: 1, start_sample: 5, length_samples: 10, crossfade_samples: 11 };
    assert_eq!(wide.validate().unwrap_err(), "invalid comp segment bounds");
}

#[test]
fn vocal_notes_map_ticks_to_samples() {
    let notes = vec![
        OpenUtauNotePreview { position: 480, duration: 240, pitch: Some(64), lyric: "la".into() },
        OpenUtauNotePreview { position: 0, duration: 480, pitch: None, lyric: String::new() },
        OpenUtauNotePreview { position: 1, duration: 1, pitch: Some(60), lyric: String::new() },
    ];
    let midi = notes_as_midi(&notes, 4, 48_000, 480).unwrap();
    assert_eq!(midi.len(), 2);
    assert_eq!((midi[0].start_sample, midi[0].length_samples, midi[0].pitch), (48_000, 24_000, 64));
    assert_eq!(midi[0].lyric, "la");
    assert_eq!(midi[0].track_id, 4);
    assert_eq!((midi[1].start_sample, midi[1].length_samples), (100, 100));
    assert!(notes_as_midi(&notes, 4, 0, 480).is_err());
    let far = vec![OpenUtauNotePreview { position: u64::MAX, duration: 1, pitch: Some(60), lyric: String::new() }];
    assert_eq!(notes_as_midi(&far, 1, 48_000, 1).unwrap_err(), "OpenUtau note start overflows sample timeline");
}
