use aura_core_bridge::preview_audio::{
    catalog_order, is_wav_extension, preview_sample_rate_ok, probe_wav, stable_asset_id, wav_layout, PreviewRegistry,
    WavLayout,
};
use std::collections::HashSet;

fn chunk(tag: &[u8; 4], payload: &[u8]) -> Vec<u8> {
    let mut c = tag.to_vec();
    c.extend_from_slice(&(payload.len() as u32).to_le_bytes());
    c.extend_from_slice(payload);
    if payload.len() % 2 == 1 {
        c.push(0);
    }
    c
}

fn fmt(format: u16, channels: u16, rate: u32, bits: u16) -> Vec<u8> {
    let mut f = Vec::new();
    f.extend_from_slice(&format.to_le_bytes());
    f.extend_from_slice(&channels.to_le_bytes());
    f.extend_from_slice(&rate.to_le_bytes());
    f.extend_from_slice(&(rate * channels as u32 * bits as u32 / 8).to_le_bytes());
    f.extend_from_slice(&(channels * bits / 8).to_le_bytes());
    f.extend_from_slice(&bits.to_le_bytes());
    f
}

fn wav(chunks: &[Vec<u8>]) -> Vec<u8> {
    let mut body = b"WAVE".to_vec();
    for c in chunks {
        body.extend_from_slice(c);
    }
    let mut w = b"RIFF".to_vec();
    w.extend_from_slice(&(body.len() as u32).to_le_bytes());
    w.extend_from_slice(&body);
    w
}

#[test]
fn stereo_pcm16_layout_points_at_the_samples() {
    let bytes = wav(&[chunk(b"fmt ", &fmt(1, 2, 44100, 16)), chunk(b"data", &[0, 64, 0, 192, 255, 127, 0, 0])]);
    assert_eq!(bytes.len(), 52);
    assert_eq!(
        wav_layout(&bytes),
        Ok(WavLayout { audio_format: 1, channels: 2, bits: 16, sample_rate: 44100, data_start: 44, data_end: 52 })
    );
    assert_eq!(probe_wav(&bytes), Ok((44100, 2, 2)));
}

#[test]
fn undecodable_wave_files_say_why() {
    assert_eq!(wav_layout(b"RIFX0000WAVE"), Err("unsupported WAV".to_owned()));
    let no_data = wav(&[chunk(b"fmt ", &fmt(1, 1, 8000, 16))]);
    assert_eq!(wav_layout(&no_data), Err("WAV data missing".to_owned()));
    let empty = wav(&[chunk(b"fmt ", &fmt(1, 1, 8000, 16)), chunk(b"data", &[])]);
    assert_eq!(wav_layout(&empty), Err("WAV data is empty".to_owned()));
    let eight_bit = wav(&[chunk(b"fmt ", &fmt(1, 1, 8000, 8)), chunk(b"data", &[1, 2])]);
    assert_eq!(wav_layout(&eight_bit), Err("only PCM16/24/32 or float32 WAV is supported".to_owned()));
    let float16 = wav(&[chunk(b"fmt ", &fmt(3, 1, 8000, 16)), chunk(b"data", &[1, 2])]);
    assert_eq!(wav_layout(&float16), Err("only PCM16/24/32 or float32 WAV is supported".to_owned()));
    let ragged = wav(&[chunk(b"fmt ", &fmt(1, 2, 8000, 16)), chunk(b"data", &[1, 2, 3, 4, 5, 6])]);
    assert_eq!(wav_layout(&ragged), Err("WAV data is not aligned to complete frames".to_owned()));
    let mut truncated = wav(&[chunk(b"fmt ", &fmt(1, 1, 8000, 16)), chunk(b"data", &[1, 2])]);
    truncated[40] = 200;
    assert_eq!(wav_layout(&truncated), Err("truncated WAV".to_owned()));
    let mut short_riff = wav(&[chunk(b"fmt ", &fmt(1, 1, 8000, 16)), chunk(b"data", &[1, 2])]);
    short_riff[4] = 255;
    assert_eq!(wav_layout(&short_riff), Err("invalid RIFF size".to_owned()));
    assert_eq!(probe_wav(&no_data), Err("WAV metadata is incomplete".to_owned()));
    assert_eq!(probe_wav(b"RIFF0000WAVX"), Err("unsupported WAV".to_owned()));
}

#[test]
fn odd_chunks_are_padded_and_skipped() {
    let bytes = wav(&[
        chunk(b"LIST", &[1, 2, 3]),
        chunk(b"fmt ", &fmt(1, 1, 22050, 24)),
        chunk(b"data", &[1, 2, 3, 4, 5, 6]),
    ]);
    let layout = wav_layout(&bytes).unwrap();
    assert_eq!(layout.bits, 24);
    assert_eq!(layout.data_end - layout.data_start, 6);
    assert_eq!(probe_wav(&bytes), Ok((22050, 1, 2)));
}

#[test]
fn preview_sample_rates_are_bounded() {
    assert!(preview_sample_rate_ok(1));
    assert!(preview_sample_rate_ok(384_000));
    assert!(!preview_sample_rate_ok(0));
    assert!(!preview_sample_rate_ok(384_001));
}

#[test]
fn asset_ids_start_at_the_fnv_of_the_hash_and_probe_upwards() {
    let hash = "2d711642b726b04401627ca9fbac32f5c8530fb1903cc4db02258717921a4881";
    let mut used = HashSet::new();
    let first = stable_asset_id(hash.as_bytes(), &mut used);
    assert_eq!(first, 7465615368324121658);
    let second = stable_asset_id(hash.as_bytes(), &mut used);
    assert_eq!(second, first + 1);
    assert!(used.contains(&first) && used.contains(&second));
    let mut full = HashSet::new();
    full.insert(u64::MAX);
    let empty_identity = stable_asset_id(b"", &mut full);
    assert_eq!(empty_identity, 14695981039346656037);
}

#[test]
fn pads_play_only_registered_previews() {
    let mut registry = PreviewRegistry::new();
    let id = registry.enroll("abc", "/lib/kick.wav");
    assert_eq!(registry.find_path("/lib/kick.wav"), Some(id));
    assert_eq!(registry.find_path("/lib/snare.wav"), None);
    assert!(registry.assign_pad(3, Some(id)));
    assert_eq!(registry.pad_asset(3), Some(id));
    assert!(!registry.assign_pad(16, Some(id)));
    assert!(!registry.assign_pad(2, Some(id.wrapping_add(1))));
    assert!(registry.assign_pad(3, None));
    assert_eq!(registry.pad_asset(3), None);
    assert_eq!(registry.pad_asset(99), None);
    let other = registry.enroll("abc", "/lib/copy.wav");
    assert_ne!(other, id);
    assert_eq!(registry.asset_count(), 2);
    registry.clear();
    assert_eq!(registry.asset_count(), 0);
    assert_eq!(registry.pad_asset(3), None);
}

#[test]
fn catalog_lists_by_lowercased_name_keeping_ties_in_order() {
    let names = vec!["beta.wav".to_owned(), "Alpha.wav".to_owned(), "BETA.wav".to_owned(), "alpha.wav".to_owned()];
    assert_eq!(catalog_order(&names), vec![1, 3, 0, 2]);
    assert!(is_wav_extension("WAV"));
    assert!(is_wav_extension("Wave"));
    assert!(!is_wav_extension("aiff"));
}
