use aura_core_bridge::plugin_processing::{PluginLatencyRegistry, PluginProcessingState};
use aura_core_bridge::plugin_registry::PluginRegistry;

#[test]
fn toggles_processing_mode() {
    let mut s = PluginProcessingState { plugin_id: "plug".into(), online: true, reason: String::new() };
    assert!(s.set_online(false, "offline render"));
    assert!(!s.online);
    assert!(s.validate());
}

#[test]
fn set_online_trims_and_refuses_bad_text() {
    let mut s = PluginProcessingState { plugin_id: "  plug ".into(), online: true, reason: String::new() };
    assert!(s.set_online(false, "  heavy  "));
    assert_eq!(s.plugin_id, "plug");
    assert_eq!(s.reason, "heavy");
    assert!(!s.set_online(true, "bad\0reason"));
    assert!(!s.online);
    let mut blank = PluginProcessingState { plugin_id: "   ".into(), online: true, reason: String::new() };
    assert!(!blank.set_online(false, "x"));
    assert!(blank.online);
}

#[test]
fn latency_registry_supports_removal() {
    let mut r = PluginLatencyRegistry::default();
    assert!(r.set_latency("a", 128));
    assert_eq!(r.latency("a"), Some(128));
    assert!(r.remove("a"));
    assert!(!r.remove("a"));
    assert_eq!(r.latency("a"), None);
}

#[test]
fn latency_registry_reports_and_compensates() {
    let mut r = PluginLatencyRegistry::default();
    assert!(r.set_latency("fast", 32));
    assert!(r.set_latency("slow", 96));
    assert!(r.set_latency("mid", 96));
    assert!(!r.set_latency("huge", 10_000_001));
    assert_eq!(r.compensation_samples("fast"), Some(64));
    assert_eq!(r.compensation_samples("FAST "), Some(64));
    assert_eq!(r.compensation_samples("none"), None);
    assert_eq!(r.total_samples(), 224);
    assert_eq!(r.max_latency(), Some(("slow".to_string(), 96)));
    assert_eq!(
        r.latency_report(),
        vec![("mid".to_string(), 96), ("slow".to_string(), 96), ("fast".to_string(), 32)]
    );
    assert!(r.validate());
}

#[test]
fn tracks_failures_and_blacklist() {
    let mut r = PluginRegistry::default();
    assert!(r.record_scan_failure("vst", "bad metadata"));
    assert!(r.record_crash("vst", "segfault"));
    assert!(r.set_blacklisted("VST", true));
    assert!(!r.is_allowed("vst"));
    assert_eq!(r.blacklisted_ids(), vec!["vst"]);
    assert_eq!(r.failed_scans(), vec![("vst".into(), 1)]);
    assert!(r.validate());
}

#[test]
fn detects_regressions() {
    let mut base = PluginRegistry::default();
    base.record_scan_failure("a", "old");
    let mut current = base.clone();
    current.record_crash("a", "new");
    current.record_scan_failure("b", "bad");
    let ids = current.regression_ids(&base);
    assert_eq!(ids, vec!["a".to_string(), "b".to_string()]);
}

#[test]
fn failures_are_ordered_and_cleared() {
    let mut r = PluginRegistry::default();
    assert!(r.record_scan_failure("b", "x"));
    assert!(r.record_scan_failure("a", "x"));
    assert!(r.record_scan_failure("b", "y"));
    assert!(!r.record_scan_failure("   ", "x"));
    assert_eq!(r.failed_scans(), vec![("b".into(), 2), ("a".into(), 1)]);
    assert!(r.clear_failures(" B "));
    assert_eq!(r.failed_scans(), vec![("a".into(), 1)]);
    assert!(!r.clear_failures("zzz"));
    assert!(r.is_allowed("unknown"));
    assert_eq!(r.regression_ids(&r.clone()), Vec::<String>::new());
}
