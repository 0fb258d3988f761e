use aura_core_bridge::piano_roll_editor::{drum_lane_label, PianoRollOrchestrator};
use aura_core_bridge::project_snapshot_store::SnapshotOrchestrator;

#[test]
fn replacing_a_snapshot_name_does_not_reuse_or_consume_an_id() {
    let mut snapshots = SnapshotOrchestrator::new();
    let first = snapshots.take_snapshot("A".into(), 10);
    let replacement = snapshots.take_snapshot("A".into(), 20);
    assert_eq!(first, replacement);
    assert_eq!(snapshots.restore_snapshot("A"), Some(20));
    assert!(snapshots.audit_project_snapshot_store());
}

#[test]
fn snapshot_ids_are_nonzero_and_unique() {
    let mut snapshots = SnapshotOrchestrator::new();
    let a = snapshots.take_snapshot("A".into(), 1);
    let b = snapshots.take_snapshot("B".into(), 2);
    assert_ne!(a, 0);
    assert_ne!(b, 0);
    assert_ne!(a, b);
    assert!(snapshots.audit_project_snapshot_store());
}

#[test]
fn snapshot_ids_wrap_past_the_largest_and_skip_live_ones() {
    let mut snapshots = SnapshotOrchestrator::default();
    assert!(!snapshots.audit_project_snapshot_store());
    snapshots.next_id = u32::MAX;
    assert_eq!(snapshots.take_snapshot(" top ".into(), 5), u32::MAX);
    assert_eq!(snapshots.next_id, 1);
    assert_eq!(snapshots.take_snapshot("one".into(), 6), 1);
    snapshots.next_id = u32::MAX;
    assert_eq!(snapshots.take_snapshot("two".into(), 7), 2);
    assert_eq!(snapshots.take_snapshot("  ".into(), 7), 0);
    assert_eq!(snapshots.restore_snapshot("top"), Some(5));
    assert_eq!(snapshots.restore_snapshot(" top "), None);
    assert_eq!(snapshots.compare_snapshots("one", "two"), Some(-1));
    assert_eq!(snapshots.compare_snapshots("one", "missing"), None);
}

#[test]
fn snapshots_list_by_lowercased_name_then_id() {
    let mut snapshots = SnapshotOrchestrator::new();
    snapshots.take_snapshot("beta".into(), 1);
    snapshots.take_snapshot("Alpha".into(), 2);
    snapshots.take_snapshot("alpha".into(), 3);
    let names: Vec<&str> = snapshots.list_snapshots().iter().map(|s| s.name.as_str()).collect();
    assert_eq!(names, vec!["Alpha", "alpha", "beta"]);
}

#[test]
fn drum_editor_exposes_standard_gm_lanes_and_custom_fallback() {
    assert_eq!(drum_lane_label(36), "Bass Drum 1");
    assert_eq!(drum_lane_label(42), "Closed Hi-Hat");
    assert_eq!(drum_lane_label(10), "Custom Drum");
}

#[test]
fn drum_lanes_cover_the_general_midi_kit() {
    assert_eq!(drum_lane_label(35), "Acoustic Bass Drum");
    assert_eq!(drum_lane_label(81), "Open Triangle");
    assert_eq!(drum_lane_label(82), "Custom Drum");
}

#[test]
fn selection_replaces_or_extends() {
    let mut editor = PianoRollOrchestrator::new();
    editor.select_note(3, false);
    editor.select_note(4, true);
    assert_eq!(editor.selection.len(), 2);
    editor.select_note(5, false);
    assert_eq!(editor.selection.len(), 1);
    assert!(editor.selection.contains(&5));
    assert!(editor.audit_piano_roll_editor());
    editor.select_note(0, true);
    assert!(!editor.audit_piano_roll_editor());
}
