use aura_core_bridge::project_archive::{safe_package_path, ArchiveEntry, ArchiveManifest, ARCHIVE_SCHEMA_VERSION};

fn packaged(source: &str, package_path: &str, bytes: u64) -> ArchiveEntry {
    ArchiveEntry {
        source: source.into(),
        package_path: package_path.into(),
        bytes,
        sha256: "0".repeat(64),
        exists: true,
    }
}

fn manifest(entries: Vec<ArchiveEntry>, missing: Vec<String>, total_bytes: u64) -> ArchiveManifest {
    ArchiveManifest {
        schema_version: ARCHIVE_SCHEMA_VERSION,
        project_file: "song.aura".into(),
        entries,
        missing,
        total_bytes,
    }
}

#[test]
fn manifest_rejects_traversal_and_duplicate_missing_paths() {
    let mut manifest = ArchiveManifest {
        schema_version: ARCHIVE_SCHEMA_VERSION,
        project_file: "song.aura".into(),
        entries: vec![ArchiveEntry {
            source: "take.wav".into(),
            package_path: "Media/../take.wav".into(),
            bytes: 1,
            sha256: "0".repeat(64),
            exists: true,
        }],
        missing: vec![],
        total_bytes: 1,
    };
    assert!(!manifest.validate());
    manifest.entries.clear();
    manifest.total_bytes = 0;
    manifest.missing = vec!["lost.wav".into(), "lost.wav".into()];
    assert!(!manifest.validate());
}

#[test]
fn package_paths_stay_under_media() {
    assert!(safe_package_path("Media/take.wav"));
    assert!(safe_package_path("Media//sub/./take.wav"));
    assert!(safe_package_path("Media"));
    assert!(!safe_package_path(""));
    assert!(!safe_package_path("/Media/take.wav"));
    assert!(!safe_package_path("Media/../take.wav"));
    assert!(!safe_package_path("./Media/take.wav"));
    assert!(!safe_package_path("Other/take.wav"));
    assert!(!safe_package_path("MediaX/take.wav"));
}

#[test]
fn manifest_accepts_consistent_entries_and_totals() {
    let good = manifest(
        vec![packaged("/a/take.wav", "Media/take.wav", 3), packaged("/b/take.wav", "Media/take_00000000.wav", 4)],
        vec!["/c/lost.wav".into()],
        7,
    );
    assert!(good.validate());
    let mut wrong_total = good.clone();
    wrong_total.total_bytes = 8;
    assert!(!wrong_total.validate());
    let mut same_source = good.clone();
    same_source.entries[1].source = "/a/take.wav".into();
    assert!(!same_source.validate());
    let mut same_package = good.clone();
    same_package.entries[1].package_path = "Media/take.wav".into();
    assert!(!same_package.validate());
    let mut missing_packaged = good.clone();
    missing_packaged.missing = vec!["/a/take.wav".into()];
    assert!(!missing_packaged.validate());
    let mut short_hash = good.clone();
    short_hash.entries[0].sha256 = "abc".into();
    assert!(!short_hash.validate());
    let mut absent_with_bytes = good.clone();
    absent_with_bytes.entries[0].exists = false;
    assert!(!absent_with_bytes.validate());
    let mut wrong_schema = good.clone();
    wrong_schema.schema_version = 2;
    assert!(!wrong_schema.validate());
    let mut blank_project = good;
    blank_project.project_file = "  ".into();
    assert!(!blank_project.validate());
}

#[test]
fn absent_entries_carry_no_size_or_hash() {
    let absent = ArchiveEntry {
        source: "/x/gone.wav".into(),
        package_path: "Media/gone.wav".into(),
        bytes: 0,
        sha256: String::new(),
        exists: false,
    };
    assert!(manifest(vec![absent.clone()], vec![], 0).validate());
    let mut hashed = absent;
    hashed.sha256 = "0".repeat(64);
    assert!(!manifest(vec![hashed], vec![], 0).validate());
}
