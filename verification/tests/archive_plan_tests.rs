use aura_core_bridge::archive_plan::{plan_archive, unique_package_path, ArchiveSource};

const H1: &str = "0123456789abcdef0123456789abcdef0123456789abcdef0123456789abcdef";

fn source(path: &str, name: &str, found: Option<(u64, &str)>) -> ArchiveSource {
    ArchiveSource {
        source: path.to_string(),
        file_name: Some(name.to_string()),
        found: found.map(|(n, h)| (n, h.to_string())),
    }
}

#[test]
fn same_named_dependencies_get_unique_package_paths() {
    let sources = vec![
        source("/song/one/take.wav", "take.wav", Some((10, H1))),
        source("/song/two/take.wav", "take.wav", Some((7, H1))),
        source("/song/gone.wav", "gone.wav", None),
    ];
    let m = plan_archive("/song/song.aura", &sources).unwrap();
    assert!(m.validate());
    assert_eq!(m.entries.len(), 2);
    assert_eq!(m.entries[0].package_path, "Media/take.wav");
    assert_eq!(m.entries[1].package_path, "Media/take_01234567.wav");
    assert_eq!(m.missing, vec!["/song/gone.wav".to_string()]);
    assert_eq!(m.total_bytes, 17);
}

#[test]
fn counter_follows_the_hash_prefix_when_that_is_taken_too() {
    let used = vec!["Media/take.wav".to_string(), "Media/take_01234567.wav".to_string()];
    assert_eq!(unique_package_path("take.wav", H1, &used), "Media/take_01234567_2.wav");
    let used = vec!["Media/.hidden".to_string()];
    assert_eq!(unique_package_path(".hidden", H1, &used), "Media/.hidden_01234567");
}

#[test]
fn plan_refusals() {
    assert_eq!(plan_archive("", &vec![]).unwrap_err(), "project file path is empty");
    let big = vec![source("/song/huge.wav", "huge.wav", Some((3 * 1024 * 1024 * 1024, "")))];
    assert_eq!(plan_archive("/song/song.aura", &big).unwrap_err(), "dependency is too large: /song/huge.wav");
    let twice = vec![
        source("/song/a.wav", "a.wav", Some((1, H1))),
        source("/song/a.wav", "a.wav", Some((1, H1))),
    ];
    assert_eq!(plan_archive("/song/song.aura", &twice).unwrap_err(), "generated archive manifest is invalid");
    let nameless = vec![ArchiveSource { source: "/song/x".to_string(), file_name: None, found: Some((1, H1.to_string())) }];
    assert_eq!(plan_archive("/song/song.aura", &nameless).unwrap().entries[0].package_path, "Media/asset");
}
