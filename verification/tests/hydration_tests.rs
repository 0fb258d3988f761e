use aura_core_bridge::hydration::{hydrate_layout, LayoutTrackPlain};
use aura_core_bridge::project_contracts::SidechainRouteContract;

fn track(id: u32) -> LayoutTrackPlain {
    LayoutTrackPlain {
        id,
        sidechain_routes: vec![],
        feedback_ends: vec![],
        feedback_gains_ok: vec![],
        frozen: false,
        frozen_path: String::new(),
        frozen_total_samples: 0,
        frozen_sample_rate: 0,
        frozen_bytes: None,
        plugin_types: vec![],
        plugin_bypasses: vec![],
        plugin_parameter_counts: vec![],
        plugin_state_hex: vec![],
        plugin_gui_state_hex: vec![],
        plugin_state_versions: vec![],
        sandbox_plugin_state_hex: vec![],
        sandbox_plugin_state_versions: vec![],
    }
}

fn err(tracks: Vec<LayoutTrackPlain>) -> String {
    match hydrate_layout(&tracks) {
        Ok(_) => panic!("layout should be refused"),
        Err(e) => e,
    }
}

#[test]
fn layout_loads_plugin_state_routes_and_freeze_artifacts() {
    let mut a = track(1);
    a.plugin_types = vec![3, 4];
    a.plugin_state_hex = vec!["00ff".to_string(), "".to_string()];
    a.plugin_state_versions = vec![0, 1];
    a.frozen = true;
    a.frozen_path = "/cache/a.wav".to_string();
    a.frozen_total_samples = 48_000;
    a.frozen_sample_rate = 48_000;
    a.frozen_bytes = Some(b"RIFF".to_vec());
    let mut b = track(2);
    b.sidechain_routes = vec![SidechainRouteContract { source_id: 1, destination_id: 2, plugin_index: 0, tap_point: 2 }];
    b.feedback_ends = vec![(2, 1)];
    b.feedback_gains_ok = vec![true];
    let h = hydrate_layout(&vec![a, b]).unwrap();
    assert_eq!(h.tracks.len(), 2);
    assert_eq!(h.tracks[0].plugin_states, vec![vec![0x00, 0xff], vec![]]);
    assert_eq!(h.tracks[0].plugin_gui_states, vec![Vec::<u8>::new(), Vec::new()]);
    assert_eq!(h.tracks[0].plugin_bypasses, vec![false, false]);
    assert_eq!(h.tracks[0].plugin_state_versions, vec![1, 1]);
    assert_eq!(h.freeze_artifacts.len(), 1);
    assert_eq!(h.freeze_artifacts[0].track_id, 1);
    assert_eq!(h.sidechain_routes.len(), 1);
    assert_eq!(h.feedback_ends, vec![(2, 1)]);
}

#[test]
fn layout_refusals_name_the_first_violation() {
    assert_eq!(err(vec![track(3), track(3)]), "duplicate track id 3");
    let mut t = track(5);
    t.sidechain_routes = vec![SidechainRouteContract { source_id: 1, destination_id: 9, plugin_index: 0, tap_point: 0 }];
    assert_eq!(err(vec![t]), "invalid sidechain route for track 5");
    let mut t = track(6);
    t.feedback_ends = vec![(6, 1)];
    t.feedback_gains_ok = vec![false];
    assert_eq!(err(vec![t]), "invalid feedback route for track 6");
    let mut t = track(7);
    t.frozen = true;
    t.frozen_path = "/cache/missing.wav".to_string();
    assert_eq!(err(vec![t]), "frozen audio cache is unreadable: /cache/missing.wav");
    let mut t = track(8);
    t.frozen = true;
    t.frozen_path = "/cache/x.wav".to_string();
    t.frozen_bytes = Some(vec![]);
    assert_eq!(err(vec![t]), "frozen audio metadata is invalid for track 8");
    let mut t = track(9);
    t.plugin_types = vec![1];
    t.plugin_bypasses = vec![true, false];
    assert_eq!(err(vec![t]), "plugin bypass/type counts differ");
    let mut t = track(10);
    t.plugin_state_hex = vec!["abc".to_string()];
    assert_eq!(err(vec![t]), "plugin state hex has odd length");
    let mut t = track(11);
    t.plugin_state_hex = vec!["zz".to_string()];
    t.plugin_state_versions = vec![1];
    assert_eq!(err(vec![t]), "plugin state contains invalid hex");
    let mut t = track(12);
    t.plugin_state_hex = vec!["00".to_string()];
    t.plugin_state_versions = vec![7];
    assert_eq!(err(vec![t]), "unsupported plugin state version 7");
    let mut t = track(13);
    t.plugin_types = vec![1];
    t.plugin_parameter_counts = vec![70_000];
    assert_eq!(err(vec![t]), "plugin parameter values exceed aggregate limit");
}

use aura_core_bridge::plugin_instances::{derive_plugin_instances, InstanceSource, SANDBOX_PLUGIN_TYPE};
use aura_core_bridge::project_contracts::PluginFormat;

#[test]
fn instances_follow_slots_and_name_builtin_and_sandboxed_plugins() {
    let sources = vec![InstanceSource {
        track_id: 4,
        plugin_types: vec![7, SANDBOX_PLUGIN_TYPE],
        plugin_bypasses: vec![false, true],
        plugin_states: vec![vec![1, 2]],
        plugin_gui_states: vec![],
        sandbox_plugin_paths: vec!["/plugins/Reverb.CLAP".to_string()],
        sandbox_plugin_states: vec![vec![9]],
        sandbox_binary_hashes: vec!["ab".to_string()],
    }];
    let r = derive_plugin_instances(&sources, "x86_64");
    assert_eq!(r.len(), 2);
    assert_eq!(r[0].instance_id, "track:4:slot:0");
    assert_eq!(r[0].bundle_path, "builtin://7");
    assert_eq!(r[0].plugin_id, "builtin:7");
    assert_eq!(r[0].state_blob, vec![1, 2]);
    assert_eq!(r[0].capability, "builtin");
    assert!(!r[0].bypassed);
    assert_eq!(r[1].instance_id, "track:4:slot:1");
    assert_eq!(r[1].plugin_id, "Reverb");
    assert!(r[1].format == PluginFormat::Clap);
    assert_eq!(r[1].state_blob, vec![9]);
    assert_eq!(r[1].binary_hash, "ab");
    assert!(r[1].bypassed);
    assert_eq!(r[1].architecture, "x86_64");
}
