use aura_core_bridge::presets::{Preset, PresetMetadata, PresetOrchestrator, ProjectTemplate};

fn template(name: &str, layout: &str, tags: &[&str]) -> ProjectTemplate {
    ProjectTemplate {
        name: name.into(),
        author: "Aura".into(),
        version: 1,
        layout_json: layout.into(),
        tags: tags.iter().map(|t| t.to_string()).collect(),
    }
}

#[test]
fn template_search_matches_name_or_tag_of_valid_templates() {
    let templates = vec![
        template("Film Score", "{\"tracks\":[]}", &["Orchestral"]),
        template("Podcast", "{}", &["voice"]),
        template("Broken", "{not json", &["orchestral"]),
        template("  ", "{}", &[]),
    ];
    let hits = PresetOrchestrator::search_templates(&templates, " ORCH ");
    assert_eq!(hits.len(), 1);
    assert_eq!(hits[0].name, "Film Score");
    assert_eq!(PresetOrchestrator::search_templates(&templates, "").len(), 2);
    assert_eq!(PresetOrchestrator::search_templates(&templates, "cast").len(), 1);
    assert!(!templates[2].validate());
    let mut zero = template("Zero", "{}", &[]);
    zero.version = 0;
    assert!(!zero.validate());
}

fn preset(name: &str, tags: &[&str]) -> Preset {
    Preset {
        metadata: PresetMetadata {
            name: name.into(),
            author: "me".into(),
            category: "pad".into(),
            tags: tags.iter().map(|t| t.to_string()).collect(),
            version_hash: 0,
        },
        plugin_id: 7,
        binary_data: vec![1, 2, 3],
    }
}

#[test]
fn tag_search_is_exact_and_keeps_order() {
    let mut presets = PresetOrchestrator::new();
    presets.library.push(preset("a", &["warm", "soft"]));
    presets.library.push(preset("b", &["Warm"]));
    presets.library.push(preset("c", &["warm"]));
    let hits = presets.search_by_tag("warm");
    let names: Vec<&str> = hits.iter().map(|p| p.metadata.name.as_str()).collect();
    assert_eq!(names, vec!["a", "c"]);
    assert_eq!(hits[0].binary_data, vec![1, 2, 3]);
}

#[test]
fn metadata_hash_runs_fnv1a_over_all_fields() {
    let presets = PresetOrchestrator::default();
    let meta = preset("ab", &["c", "d"]).metadata;
    let mut expected = 0xcbf29ce484222325u64;
    for b in b"abmepadcd" {
        expected ^= *b as u64;
        expected = expected.wrapping_mul(0x100000001b3);
    }
    assert_eq!(presets.calculate_metadata_hash(&meta), expected);
    let empty = PresetMetadata { name: String::new(), author: String::new(), category: String::new(), tags: vec![], version_hash: 0 };
    assert_eq!(presets.calculate_metadata_hash(&empty), 0xcbf29ce484222325);
}
