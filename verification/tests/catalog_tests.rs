use aura_core_bridge::plugin_catalog::{
    content_fingerprint, instrument_profiles, normalized, plugin_cache_identity, PluginBlockReason,
    PluginInspection, PluginManagerRegistry,
};

#[test]
fn plugin_version_and_schema_changes_invalidate_identity() {
    let hash = "a".repeat(64);
    let v1 = plugin_cache_identity("vital", "1.5.5", &hash, 1, 1).unwrap();
    let v2 = plugin_cache_identity("vital", "1.5.6", &hash, 1, 1).unwrap();
    let gui = plugin_cache_identity("vital", "1.5.5", &hash, 1, 2).unwrap();
    assert_ne!(v1, v2);
    assert_ne!(v1, gui);
    assert!(plugin_cache_identity("vital", "1", "bad", 1, 1).is_none());
}

#[test]
fn cache_identity_spells_out_every_part() {
    let hash = "0123456789abcdefABCDEF0123456789abcdef0123456789abcdef0123456789";
    assert_eq!(
        plugin_cache_identity("vital", "1.5.5", hash, 3, 12).unwrap(),
        format!("vital@1.5.5#bin-{hash}:state-3:gui-12")
    );
    assert!(plugin_cache_identity("vital", "1.5.5", hash, 0, 1).is_none());
    assert!(plugin_cache_identity("  ", "1.5.5", hash, 1, 1).is_none());
    assert!(plugin_cache_identity("vital", "1.5.5", &"g".repeat(64), 1, 1).is_none());
    assert!(plugin_cache_identity("vi\0tal", "1.5.5", hash, 1, 1).is_none());
}

#[test]
fn aliases_ignore_spaces_and_punctuation() {
    assert_eq!(normalized("Surge XT"), "surgext");
    assert_eq!(normalized("Vital.vst3"), "vitalvst3");
}

#[test]
fn catalog_ids_include_format_and_binary_identity() {
    let a = content_fingerprint("/plugins/vital.clap");
    let b = content_fingerprint("/plugins/vital.vst3");
    assert_ne!(a, b);
    assert_eq!(a.len(), 16);
}

#[test]
fn fingerprint_is_fnv1a_in_hex() {
    assert_eq!(content_fingerprint(""), "cbf29ce484222325");
    assert_eq!(content_fingerprint("a"), "af63dc4c8601ec8c");
}

#[test]
fn third_party_instrument_profiles_expose_midi_automation_and_state_contract() {
    let profiles = instrument_profiles();
    assert_eq!(profiles.len(), 2);
    for profile in profiles {
        assert!(profile.midi_input);
        assert_eq!(profile.midi_channels, 16);
        assert!(profile.parameter_automation);
        assert!(profile.state_save_restore);
        assert!(profile.formats.contains(&"clap".to_owned()));
        assert_eq!(profile.verification_status, "template_unverified");
    }
}

fn plugin(id: &str, bitness: u8) -> PluginInspection {
    PluginInspection {
        id: id.into(),
        name: id.into(),
        vendor: "Vendor".into(),
        category: "Fx".into(),
        format: "VST3".into(),
        version: "1.0".into(),
        path: format!("/plugins/{id}.vst3"),
        bitness,
        supports_f64: true,
        asio_guard: true,
        sidechain_inputs: 1,
        latency_samples: 64,
        hidden: false,
        block_reason: None,
    }
}

#[test]
fn failed_scan_enters_blocklist_and_successful_rescan_reactivates_64_bit() {
    let mut registry = PluginManagerRegistry::default();
    assert!(registry.record_scan(plugin("unstable", 64), false));
    assert_eq!(registry.blocklist().len(), 1);
    assert!(!registry.reactivate("unstable", false));
    assert!(registry.reactivate("unstable", true));
    assert_eq!(registry.available(None, false).len(), 1);
    assert!(registry.validate());
}

#[test]
fn unsupported_32_bit_plugin_cannot_be_reactivated() {
    let mut registry = PluginManagerRegistry::default();
    assert!(registry.record_scan(plugin("legacy", 32), true));
    assert_eq!(registry.plugins[0].block_reason, Some(PluginBlockReason::Unsupported32Bit));
    assert!(!registry.reactivate("legacy", true));
}

#[test]
fn hidden_and_project_filters_affect_browser_but_not_report() {
    let mut registry = PluginManagerRegistry::default();
    assert!(registry.record_scan(plugin("eq", 64), true));
    assert!(registry.record_scan(plugin("compressor", 64), true));
    assert!(registry.set_hidden("eq", true));
    let used = vec!["compressor".to_owned()];
    assert_eq!(registry.available(Some(&used), true)[0].id, "compressor");
    let report = registry.diagnostic_report("macOS test host").unwrap();
    assert!(report.contains("eq | Vendor"));
    assert!(report.contains("compressor | Vendor"));
}

#[test]
fn registry_keeps_id_order_and_reports_every_field() {
    let mut registry = PluginManagerRegistry::default();
    assert!(registry.record_scan(plugin(" zeta ", 64), true));
    assert!(registry.record_scan(plugin("alpha", 64), true));
    let mut failing = plugin("beta", 64);
    failing.block_reason = Some(PluginBlockReason::LoadFailure("bad \"state\"".into()));
    assert!(registry.record_scan(failing, false));
    let ids: Vec<&str> = registry.plugins.iter().map(|p| p.id.as_str()).collect();
    assert_eq!(ids, vec!["alpha", "beta", "zeta"]);
    assert!(!registry.record_scan(plugin("   ", 64), true));
    let report = registry.diagnostic_report("  host  ").unwrap();
    assert!(report.starts_with("Aura Plug-in Report\nSystem: host\nPlug-ins: 3\n"));
    assert!(report.contains(
        "beta | Vendor | VST3 | 64-bit | latency=64 | sidechains=1 | hidden=false | status=Some(LoadFailure(\"bad \\\"state\\\"\"))\n"
    ));
    assert!(report.ends_with("zeta | Vendor | VST3 | 64-bit | latency=64 | sidechains=1 | hidden=false | status=None\n"));
    assert_eq!(registry.diagnostic_report(" "), Err("invalid plug-in report data".to_string()));
    assert_eq!(registry.blocklist()[0].id, "beta");
}
