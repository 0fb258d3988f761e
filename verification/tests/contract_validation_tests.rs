use aura_core_bridge::contract_validation::{
    validate_contracts, MacroMappingCheck, MidiLearnCheck, PluginInstanceCheck, WarpMarkerCheck,
};
use aura_core_bridge::project_contracts::{RenderTargetContract, RenderTargetKind};

fn plugin(id: &str) -> PluginInstanceCheck {
    PluginInstanceCheck {
        instance_id: id.to_string(),
        plugin_id: "com.example.synth".to_string(),
        bundle_path: "/plugins/synth.clap".to_string(),
        component_ids: vec![],
        input_channels: 2,
        output_channels: 2,
        sidechain_channels: 0,
        binary_hash: String::new(),
        plugin_version: "1.0".to_string(),
        architecture: "x86_64".to_string(),
        state_schema_version: 1,
        state_blob_bytes: 0,
        gui_state_bytes: 0,
        latency_samples: 0,
        parameter_ids: vec!["cutoff".to_string()],
        parameter_value_count: 1,
        parameter_values_in_range: true,
    }
}

fn macro_mapping(id: &str, target: &str, parameter: &str) -> MacroMappingCheck {
    MacroMappingCheck {
        mapping_id: id.to_string(),
        macro_index: 0,
        target_instance_id: target.to_string(),
        target_parameter_id: parameter.to_string(),
        range_ok: true,
    }
}

#[test]
fn valid_records_pass() {
    let targets = vec![RenderTargetContract {
        target_id: "mix".to_string(),
        kind: RenderTargetKind::Master,
        source_id: 0,
        pre_fader: false,
        include_inserts: true,
        include_tail: true,
        offline_generation: 1,
    }];
    let markers = vec![WarpMarkerCheck { marker_id: "m1".to_string(), pitch_ok: true }];
    let mappings = vec![MidiLearnCheck {
        mapping_id: "cc1".to_string(),
        device_id: "keys".to_string(),
        channel: 0,
        controller: 74,
        target_instance_id: "p1".to_string(),
        target_parameter_id: "cutoff".to_string(),
        range_ok: true,
    }];
    let macros = vec![macro_mapping("x1", "p1", "cutoff")];
    assert_eq!(validate_contracts(&[plugin("p1")], &mappings, &macros, &markers, &targets), Ok(()));
}

#[test]
fn first_violation_is_reported() {
    assert_eq!(
        validate_contracts(&[plugin("p1"), plugin("p1")], &[], &[], &[], &[]),
        Err("plugin instance ids must be non-empty and unique".to_string())
    );
    let mut p = plugin("p2");
    p.sidechain_channels = 2;
    p.output_channels = 0;
    assert_eq!(
        validate_contracts(&[p], &[], &[], &[], &[]),
        Err("plugin instance p2 has invalid bus layout".to_string())
    );
    let mut p = plugin("p3");
    p.binary_hash = "abc".to_string();
    assert_eq!(
        validate_contracts(&[p], &[], &[], &[], &[]),
        Err("plugin instance p3 has invalid binary hash".to_string())
    );
    let mut p = plugin("p4");
    p.parameter_ids = vec!["a".to_string(), "a".to_string()];
    p.parameter_value_count = 2;
    assert_eq!(
        validate_contracts(&[p], &[], &[], &[], &[]),
        Err("plugin instance p4 has duplicate or invalid parameter ids".to_string())
    );
    assert_eq!(
        validate_contracts(&[plugin("p1")], &[], &[macro_mapping("x", "nope", "cutoff")], &[], &[]),
        Err("macro mapping x targets an unknown plugin".to_string())
    );
    assert_eq!(
        validate_contracts(&[plugin("p1")], &[], &[macro_mapping("x", "p1", "resonance")], &[], &[]),
        Err("macro mapping x is invalid".to_string())
    );
    let markers = vec![WarpMarkerCheck { marker_id: "w".to_string(), pitch_ok: false }];
    assert_eq!(
        validate_contracts(&[], &[], &[], &markers, &[]),
        Err("warp marker w has invalid pitch".to_string())
    );
}

fn contract_plugin(instance_id: &str, bundle_path: &str, plugin_id: &str) -> PluginInstanceCheck {
    PluginInstanceCheck {
        instance_id: instance_id.to_string(),
        plugin_id: plugin_id.to_string(),
        bundle_path: bundle_path.to_string(),
        component_ids: vec![],
        input_channels: 0,
        output_channels: 2,
        sidechain_channels: 0,
        binary_hash: String::new(),
        plugin_version: String::new(),
        architecture: String::new(),
        state_schema_version: 1,
        state_blob_bytes: 0,
        gui_state_bytes: 0,
        latency_samples: 0,
        parameter_ids: vec![],
        parameter_value_count: 0,
        parameter_values_in_range: true,
    }
}

#[test]
fn contracts_reject_duplicate_plugin_ids_and_bad_midi_ranges() {
    let plugin = contract_plugin("p1", "plugin.clap", "gain");
    assert!(validate_contracts(&[plugin.clone(), plugin], &[], &[], &[], &[]).is_err());
    let mapping = MidiLearnCheck {
        mapping_id: "m1".to_string(),
        device_id: "dev".to_string(),
        channel: 16,
        controller: 1,
        target_instance_id: "p1".to_string(),
        target_parameter_id: "gain".to_string(),
        range_ok: true,
    };
    assert!(validate_contracts(&[], &[mapping], &[], &[], &[]).is_err());
}

#[test]
fn midi_channel_fifteen_is_the_last_accepted_channel() {
    let mut mapping = MidiLearnCheck {
        mapping_id: "m1".to_string(),
        device_id: "dev".to_string(),
        channel: 15,
        controller: 1,
        target_instance_id: "p1".to_string(),
        target_parameter_id: "gain".to_string(),
        range_ok: true,
    };
    assert_eq!(validate_contracts(&[], &[mapping.clone()], &[], &[], &[]), Ok(()));
    mapping.channel = 16;
    assert_eq!(
        validate_contracts(&[], &[mapping], &[], &[], &[]),
        Err("MIDI mapping m1 is invalid".to_string())
    );
}

#[test]
fn plugin_bus_layout_supports_components_and_sidechain() {
    let mut plugin = contract_plugin("p-layout", "processor.vst3", "vendor.processor");
    plugin.component_ids = vec!["processor".to_string(), "editor".to_string()];
    plugin.input_channels = 2;
    plugin.output_channels = 2;
    plugin.sidechain_channels = 2;
    plugin.latency_samples = 128;
    plugin.plugin_version = "1.0.0".to_string();
    plugin.architecture = "arm64".to_string();
    assert!(validate_contracts(&[plugin.clone()], &[], &[], &[], &[]).is_ok());

    let mut invalid = plugin;
    invalid.output_channels = 0;
    assert!(validate_contracts(&[invalid], &[], &[], &[], &[]).is_err());
}

#[test]
fn macro_mapping_requires_existing_plugin_and_round_trips() {
    let mut plugin = contract_plugin("track:1:slot:0", "builtin://0", "builtin:0");
    plugin.parameter_ids = vec!["12".to_string()];
    plugin.parameter_value_count = 1;
    let mapping = MacroMappingCheck {
        mapping_id: "macro-cutoff".to_string(),
        macro_index: 2,
        target_instance_id: "track:1:slot:0".to_string(),
        target_parameter_id: "12".to_string(),
        range_ok: true,
    };
    validate_contracts(&[plugin.clone()], &[], &[mapping.clone()], &[], &[]).unwrap();
    let mut missing = mapping;
    missing.target_instance_id = "track:9:slot:0".to_string();
    assert!(validate_contracts(&[plugin], &[], &[missing], &[], &[]).is_err());
}
