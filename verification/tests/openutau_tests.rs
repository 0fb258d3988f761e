use aura_core_bridge::openutau::{
    audit_record, note_preview, notes_from_source, parse_ust_notes, parse_ustx_notes, source_metadata,
    validate_render, validate_render_payload, validate_source, wav_metadata, wav_metadata_prefix,
    OpenUtauNotePreview,
};

fn rf64_bytes() -> Vec<u8> {
    let mut bytes = Vec::new();
    bytes.extend_from_slice(b"RF64");
    bytes.extend_from_slice(&u32::MAX.to_le_bytes());
    bytes.extend_from_slice(b"WAVE");
    bytes.extend_from_slice(b"ds64");
    bytes.extend_from_slice(&28u32.to_le_bytes());
    bytes.extend_from_slice(&0u64.to_le_bytes());
    bytes.extend_from_slice(&2u64.to_le_bytes());
    bytes.extend_from_slice(&1u64.to_le_bytes());
    bytes.extend_from_slice(&0u32.to_le_bytes());
    bytes.extend_from_slice(b"JUNK");
    bytes.extend_from_slice(&1u32.to_le_bytes());
    bytes.extend_from_slice(&[0, 0]);
    bytes.extend_from_slice(b"fmt ");
    bytes.extend_from_slice(&16u32.to_le_bytes());
    bytes.extend_from_slice(&1u16.to_le_bytes());
    bytes.extend_from_slice(&1u16.to_le_bytes());
    bytes.extend_from_slice(&44_100u32.to_le_bytes());
    bytes.extend_from_slice(&88_200u32.to_le_bytes());
    bytes.extend_from_slice(&2u16.to_le_bytes());
    bytes.extend_from_slice(&16u16.to_le_bytes());
    bytes.extend_from_slice(b"data");
    bytes.extend_from_slice(&u32::MAX.to_le_bytes());
    bytes.extend_from_slice(&[0, 0]);
    bytes
}

fn pcm_wav(channels: u16, rate: u32, align: u16, data: &[u8]) -> Vec<u8> {
    let mut wav = Vec::new();
    wav.extend_from_slice(b"RIFF");
    wav.extend_from_slice(&((36 + data.len()) as u32).to_le_bytes());
    wav.extend_from_slice(b"WAVEfmt ");
    wav.extend_from_slice(&16u32.to_le_bytes());
    wav.extend_from_slice(&1u16.to_le_bytes());
    wav.extend_from_slice(&channels.to_le_bytes());
    wav.extend_from_slice(&rate.to_le_bytes());
    wav.extend_from_slice(&(rate * align as u32).to_le_bytes());
    wav.extend_from_slice(&align.to_le_bytes());
    wav.extend_from_slice(&16u16.to_le_bytes());
    wav.extend_from_slice(b"data");
    wav.extend_from_slice(&(data.len() as u32).to_le_bytes());
    wav.extend_from_slice(data);
    wav
}

#[test]
fn openutau_accepts_project_references_even_when_assets_are_not_local() {
    assert!(validate_source("voice/chorus.ustx").is_ok());
    assert!(validate_render("audio/chorus.wav").is_ok());
}

#[test]
fn openutau_rejects_non_openutau_extensions() {
    assert!(validate_source("voice/chorus.mid").is_err());
    assert!(validate_render("audio/chorus.mp3").is_err());
}

#[test]
fn openutau_accepts_rf64_and_unknown_odd_chunks_without_overreading() {
    let bytes = rf64_bytes();
    assert_eq!(wav_metadata(&bytes), (Some(44_100), Some(1), Some(1)));
}

#[test]
fn openutau_tests_accepts_project_references_even_when_assets_are_not_local() {
    assert!(validate_source("voice/chorus.ustx").is_ok());
    assert!(validate_render("audio/chorus.wav").is_ok());
}

#[test]
fn openutau_tests_rejects_non_openutau_extensions() {
    assert!(validate_source("voice/chorus.mid").is_err());
    assert!(validate_render("audio/chorus.mp3").is_err());
}

#[test]
fn openutau_tests_accepts_rf64_and_unknown_odd_chunks_without_overreading() {
    let bytes = rf64_bytes();
    assert_eq!(wav_metadata(&bytes), (Some(44_100), Some(1), Some(1)));
}

#[test]
fn extensions_ignore_case_and_need_a_dot() {
    assert!(validate_source("Voice.UST").is_ok());
    assert!(validate_render("take.AIFF").is_ok());
    assert_eq!(
        validate_source("ustx").unwrap_err(),
        "OpenUtau source must use the .ustx or .ust extension"
    );
    assert_eq!(validate_render(".wav").unwrap_err(), "OpenUtau render must use WAV/AIFF extension");
}

#[test]
fn wav_chunks_that_run_past_the_end_are_refused() {
    let wav = pcm_wav(2, 48_000, 4, &[0, 0, 0, 0]);
    assert_eq!(wav_metadata(&wav), (Some(48_000), Some(2), Some(1)));
    let mut cut = wav.clone();
    cut.truncate(cut.len() - 2);
    assert_eq!(wav_metadata(&cut), (None, None, None));
    assert_eq!(wav_metadata(b"not-a-wav"), (None, None, None));
}

#[test]
fn header_probe_reports_the_data_end() {
    let wav = pcm_wav(1, 44_100, 2, &[0, 0]);
    assert_eq!(wav_metadata_prefix(&wav), (Some(44_100), Some(1), Some(1), Some(46)));
    assert_eq!(wav_metadata_prefix(&wav[..30]), (None, None, None, None));
    assert!(validate_render_payload("v.wav", &wav, wav.len() as u64, Some(44_100), Some(1), Some(1), Some(46)).is_ok());
    assert_eq!(
        validate_render_payload("v.wav", &wav, 40, Some(44_100), Some(1), Some(1), Some(46)).unwrap_err(),
        "OpenUtau WAV render has no valid non-empty RIFF/WAVE audio payload"
    );
    assert!(validate_render_payload("v.aif", b"FORM\0\0\0\0AIFC", 12, None, None, None, None).is_ok());
    assert_eq!(
        validate_render_payload("v.aiff", b"RIFF\0\0\0\0WAVE", 12, None, None, None, None).unwrap_err(),
        "OpenUtau AIFF render has no valid FORM/AIFF payload"
    );
    assert_eq!(
        validate_render_payload("v.mp3", &wav, 46, None, None, None, None).unwrap_err(),
        "OpenUtau render extension is unsupported"
    );
}

#[test]
fn ust_sections_become_consecutive_notes() {
    let text = "[#SETTING]\nTempo=120\n[#0000]\nLength=480\nLyric=\"la\"\nNoteNum=60\n[#0001]\nLength=240\nLyric=R\nNoteNum=200\n[#0002]\r\nLength= 120 \r\nNoteNum=+62\r\n";
    let notes = parse_ust_notes(text);
    assert_eq!(notes.len(), 2);
    assert_eq!(notes[0], OpenUtauNotePreview { position: 0, duration: 480, pitch: Some(60), lyric: "la".into() });
    assert_eq!(notes[1], OpenUtauNotePreview { position: 480, duration: 120, pitch: Some(62), lyric: String::new() });
}

#[test]
fn ustx_entries_become_notes() {
    let text = "notes:\n  - position: 0\n    duration: 480\n    tone: 64\n    lyric: \"a\"\n  - position: 480\n    duration: 0\n  - position: 960\n    duration: 240\n";
    let notes = parse_ustx_notes(text);
    assert_eq!(notes.len(), 2);
    assert_eq!(notes[0].pitch, Some(64));
    assert_eq!(notes[0].lyric, "a");
    assert_eq!(notes[1], OpenUtauNotePreview { position: 960, duration: 240, pitch: None, lyric: String::new() });
    assert_eq!(notes_from_source("v.UST", b"[#0000]\nLength=10\nNoteNum=1\n").len(), 1);
    assert_eq!(notes_from_source("v.ustx", b"[#0000]\nLength=10\nNoteNum=1\n").len(), 0);
}

#[test]
fn preview_lines_show_span_pitch_and_lyric() {
    let notes = vec![
        OpenUtauNotePreview { position: 0, duration: 480, pitch: Some(60), lyric: "la\nla".into() },
        OpenUtauNotePreview { position: 1234567, duration: 5, pitch: None, lyric: String::new() },
        OpenUtauNotePreview { position: 0, duration: 1, pitch: Some(1), lyric: "x".into() },
    ];
    let lines = note_preview(&notes);
    assert_eq!(lines[0], "#001  tick      0–   480  len   480  60 / C4  ·  la la");
    assert_eq!(lines[1], "#002  tick 1234567–1234572  len     5  -- / unknown  ·  …");
    assert_eq!(lines[2], "#003  tick      0–     1  len     1  1 / C#-1  ·  x");
    let many: Vec<OpenUtauNotePreview> = (0..300)
        .map(|i| OpenUtauNotePreview { position: i, duration: 1, pitch: None, lyric: "a".into() })
        .collect();
    assert_eq!(note_preview(&many).len(), 256);
}

#[test]
fn source_metadata_counts_notes_and_singers() {
    let ustx = "ustx_version: \"0.7\"\ntracks:\n- singer: KasaneTetoOfficial\n- singer: \"KasaneTetoOfficial\"\nvoice_parts:\nnotes:\n  - position: 0\n  - position: 480\n";
    assert_eq!(source_metadata("voice.ustx", ustx.as_bytes()), (2, vec!["KasaneTetoOfficial".to_string()]));
    let ust = "#[0000]\nNoteNum=60\n#[0001]\nNoteNum=x\n#[0002]\nNoteNum=61\n";
    assert_eq!(source_metadata("voice.ust", ust.as_bytes()), (2, vec![]));
}

#[test]
fn audit_record_joins_source_and_render_identity() {
    let wav = pcm_wav(2, 48_000, 4, &[0, 0, 0, 0]);
    let audit = audit_record("voice.ustx", "voice.wav", b"project-version: 0.1\n", &wav, wav.len() as u64, "ab".repeat(32), wav.len() as u64).unwrap();
    assert_eq!(audit.rendered_sample_rate, Some(48_000));
    assert_eq!(audit.rendered_channels, Some(2));
    assert_eq!(audit.rendered_frames, Some(1));
    assert_eq!(audit.source_hash.len(), 64);
    assert_eq!(audit.source_hash, "ec1d961ca2345fa40d916b739e056ecfc49c3111b92d9662da9a53a7aa519ce9");
    let err = audit_record("voice.ustx", "voice.wav", b"x", b"not-a-wav", 9, String::new(), 9).err().unwrap();
    assert!(err.contains("valid non-empty RIFF/WAVE"));
}
