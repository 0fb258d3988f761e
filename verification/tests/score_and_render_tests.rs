use aura_core_bridge::notation::{AnnotationKind, AnnotationTrack, ScoreAnnotation};
use aura_core_bridge::offline::OfflineOrchestrator;
use aura_core_bridge::orchestral::{ArticulationMap, OrchestralOrchestrator};
use aura_core_bridge::parallel_bounce::{BounceOrchestrator, RenderTaskRust};
use aura_core_bridge::plugin_presets::{PluginPreset, PluginPresetBrowser};

fn preset(id: &str, plugin_id: &str, name: &str, category: &str, tags: &[&str], favorite: bool) -> PluginPreset {
    PluginPreset {
        id: id.into(),
        plugin_id: plugin_id.into(),
        name: name.into(),
        category: category.into(),
        tags: tags.iter().map(|t| t.to_string()).collect(),
        favorite,
        compatible: true,
    }
}

#[test]
fn browser_filters_presets() {
    let mut b = PluginPresetBrowser::default();
    assert!(b.upsert(PluginPreset {
        id: "1".into(),
        plugin_id: "p".into(),
        name: "Warm Pad".into(),
        category: "Pads".into(),
        tags: vec!["analog".into()],
        favorite: true,
        compatible: true
    }));
    assert_eq!(b.search(Some("p"), "analog", true, true).len(), 1);
}

#[test]
fn preset_search_puts_favorites_first_then_names() {
    let mut b = PluginPresetBrowser::default();
    assert!(b.upsert(preset("a", "synth", "Zeta Lead", "Leads", &[], false)));
    assert!(b.upsert(preset("b", "synth", "alpha Bass", "Bass", &[], false)));
    assert!(b.upsert(preset("c", "SYNTH", "Mid Pad", "Pads", &[], true)));
    assert!(b.upsert(preset("d", "other", "Any", "Pads", &[], true)));
    let hits = b.search(Some("synth"), "", false, false);
    let ids: Vec<&str> = hits.iter().map(|p| p.id.as_str()).collect();
    assert_eq!(ids, vec!["c", "b", "a"]);
    assert_eq!(b.search(None, "  PADS ", false, false).len(), 2);
}

#[test]
fn preset_upsert_refuses_repeated_tags_and_replaces_by_id() {
    let mut b = PluginPresetBrowser::default();
    assert!(!b.upsert(preset("x", "p", "Name", "Cat", &["Warm", "warm"], false)));
    assert!(!b.upsert(preset(" ", "p", "Name", "Cat", &[], false)));
    assert!(b.upsert(preset("x", "p", "Name", "Cat", &["warm"], false)));
    assert!(b.upsert(preset("x", "p", "Renamed", "Cat", &[], false)));
    assert_eq!(b.presets.len(), 1);
    assert_eq!(b.presets[0].name, "Renamed");
    assert!(b.validate());
    assert!(b.remove("x"));
    assert!(!b.remove("x"));
    assert!(b.presets.is_empty());
}

fn map(instrument: &str, pairs: &[(&str, u8)]) -> ArticulationMap {
    ArticulationMap {
        id: 1,
        instrument: instrument.into(),
        technique_to_keyswitch: pairs.iter().map(|(t, k)| (t.to_string(), *k)).collect(),
    }
}

#[test]
fn keyswitch_lookup_falls_back_to_zero() {
    let mut o = OrchestralOrchestrator::new();
    assert!(!o.audit_orchestral());
    o.library.push(("Violins".into(), map("Violins", &[("legato", 24), ("pizzicato", 26)])));
    assert_eq!(o.get_keyswitch("Violins", "pizzicato"), 26);
    assert_eq!(o.get_keyswitch("Violins", "tremolo"), 0);
    assert_eq!(o.get_keyswitch("Cellos", "legato"), 0);
    assert!(o.audit_orchestral());
    o.library.push(("Horns".into(), map("Trumpets", &[("staccato", 30)])));
    assert!(!o.audit_orchestral());
}

#[test]
fn render_stems_makes_the_tasks_active() {
    let mut b = BounceOrchestrator::new();
    assert!(b.active_tasks.is_empty());
    b.render_stems(vec![
        RenderTaskRust { track_id: 3, target_path: "stems/drums.wav".into() },
        RenderTaskRust { track_id: 5, target_path: "stems/bass.wav".into() },
    ]);
    assert_eq!(b.active_tasks.len(), 2);
    assert_eq!(b.active_tasks[1].track_id, 5);
    assert!(b.audit_parallel_bounce());
}

fn note(position: u64, text: &str, kind: AnnotationKind) -> ScoreAnnotation {
    ScoreAnnotation { position, text: text.into(), kind }
}

#[test]
fn annotations_stay_in_position_order() {
    let mut t = AnnotationTrack::default();
    assert!(t.insert(note(960, "la", AnnotationKind::Lyric)));
    assert!(t.insert(note(0, "Cmaj7", AnnotationKind::Chord)));
    assert!(t.insert(note(960, "mf", AnnotationKind::Expression)));
    assert!(!t.insert(note(10, "   ", AnnotationKind::Lyric)));
    let positions: Vec<u64> = t.entries.iter().map(|a| a.position).collect();
    assert_eq!(positions, vec![0, 960, 960]);
    assert_eq!(t.entries[1].text, "la");
    assert_eq!(t.at(960).len(), 2);
    assert_eq!(t.search(" CMAJ ").len(), 1);
    assert!(t.search("  ").is_empty());
    assert!(t.audit());
}

#[test]
fn annotation_shift_and_removal() {
    let mut t = AnnotationTrack::default();
    assert!(t.insert(note(100, "one", AnnotationKind::Lyric)));
    assert!(t.insert(note(200, "two", AnnotationKind::Chord)));
    assert!(!t.shift(0, -150));
    assert!(t.shift(150, -120));
    let positions: Vec<u64> = t.entries.iter().map(|a| a.position).collect();
    assert_eq!(positions, vec![80, 100]);
    assert_eq!(t.remove_at(80, Some(AnnotationKind::Lyric)), 0);
    assert_eq!(t.remove_at(80, None), 1);
    assert_eq!(t.entries.len(), 1);
}

#[test]
fn offline_jobs_count_versions_per_region() {
    let mut o = OfflineOrchestrator::new();
    o.submit_job(1, " Verse ", vec!["normalize".into()]);
    o.submit_job(2, "Verse", vec!["reverse".into(), "fade".into()]);
    o.submit_job(3, "Chorus", vec!["normalize".into()]);
    assert_eq!(o.jobs.len(), 3);
    assert_eq!(o.jobs[0].region_name, "Verse");
    assert_eq!(o.jobs[1].version_index, 1);
    assert_eq!(o.jobs[2].version_index, 0);
    assert!(o.last_error.is_none());
    o.submit_job(2, "Bridge", vec!["gain".into()]);
    assert_eq!(o.last_error.as_deref(), Some("invalid offline job"));
    o.submit_job(4, "Bridge", vec![]);
    assert_eq!(o.jobs.len(), 3);
    assert!(o.audit_rendering(&[]));
}

#[test]
fn offline_render_generations_and_outputs() {
    let mut o = OfflineOrchestrator::default();
    o.orchestrate_render();
    assert_eq!(o.last_error.as_deref(), Some("no offline jobs queued"));
    o.submit_job(7, "Intro", vec!["trim".into()]);
    o.orchestrate_render();
    assert_eq!(o.last_error.as_deref(), Some("offline renderer is not connected; jobs remain queued"));
    assert_eq!(o.begin_render_generation(), 1);
    assert_eq!(o.cancel_render_generation(), 2);
    o.generation = u64::MAX;
    assert_eq!(o.begin_render_generation(), 0);
    assert_eq!(o.completed_output(7), None);
    o.completed_outputs.push((7, "renders/intro.wav".into()));
    assert_eq!(o.completed_output(7), Some("renders/intro.wav"));
    assert!(o.audit_rendering(&[true]));
    assert!(!o.audit_rendering(&[false]));
    o.completed_outputs.push((9, "renders/other.wav".into()));
    assert!(!o.audit_rendering(&[true, true]));
}
