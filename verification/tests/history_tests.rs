use aura_core_bridge::project_history::{
    check_loaded_commit, commit_id, commit_matches_id, content_hash, log_length, ref_target, seal_commit, validate_commit_id,
    validate_commit_message, validate_ref_name, wav_metadata, ProjectCommit,
};

#[test]
fn commit_and_ref_names_are_strictly_validated() {
    assert!(validate_commit_id(&"a".repeat(64)).is_ok());
    assert!(validate_commit_id("short").is_err());
    assert!(validate_commit_id(&"g".repeat(64)).is_err());
    assert!(validate_ref_name("main-2").is_ok());
    assert!(validate_ref_name("../escape").is_err());
    assert!(validate_ref_name("bad name").is_err());
}

#[test]
fn ref_names_refuse_hidden_dots_and_long_names() {
    assert!(validate_ref_name("release.1_x").is_ok());
    assert!(validate_ref_name(".hidden").is_err());
    assert!(validate_ref_name("a..b").is_err());
    assert!(validate_ref_name("").is_err());
    assert!(validate_ref_name(&"b".repeat(129)).is_err());
    assert!(validate_ref_name("caf\u{e9}").is_err());
    assert_eq!(validate_ref_name("x/y").unwrap_err(), "invalid history ref name");
    assert_eq!(validate_commit_id("z").unwrap_err(), "invalid commit id");
    assert!(validate_commit_message("fix mix").is_ok());
    assert!(validate_commit_message("  ").is_err());
    assert!(validate_commit_message(&"m".repeat(513)).is_err());
}

#[test]
fn content_hash_is_lowercase_sha256() {
    assert_eq!(content_hash(b""), "e3b0c44298fc1c149afbf4c8996fb92427ae41e4649b934ca495991b7852b855");
    assert_eq!(content_hash(b"abc"), "ba7816bf8f01cfea414140de5dae2223b00361a396177a9cb410ff61f20015ad");
}

fn commit() -> ProjectCommit {
    ProjectCommit {
        schema_version: 1,
        commit_id: String::new(),
        snapshot_hash: "s".into(),
        parent: None,
        branch: "main".into(),
        message: "first".into(),
        created_unix_seconds: 7,
        project_id: "p".into(),
        project_format_version: 2,
        asset_manifest_hash: "a".into(),
        plugin_manifest_hash: "b".into(),
        platform: "linux".into(),
        render_artifact_hash: String::new(),
        render_artifact_bytes: 0,
    }
}

#[test]
fn commit_ids_hash_every_content_field() {
    let c = commit();
    let id = commit_id(&c);
    assert_eq!(id, content_hash(b"s\n\nmain\nfirst\n7\np\n2\na\nb\nlinux\n\n0"));
    assert!(commit_matches_id(&c, &id));
    let mut changed = c.clone();
    changed.message = "second".into();
    assert!(!commit_matches_id(&changed, &id));
    let mut child = c.clone();
    child.parent = Some(id.clone());
    assert_ne!(commit_id(&child), id);
}

#[test]
fn asset_probe_reads_what_it_reaches() {
    let mut wav = Vec::new();
    wav.extend_from_slice(b"RIFF");
    wav.extend_from_slice(&40u32.to_le_bytes());
    wav.extend_from_slice(b"WAVEfmt ");
    wav.extend_from_slice(&16u32.to_le_bytes());
    wav.extend_from_slice(&1u16.to_le_bytes());
    wav.extend_from_slice(&1u16.to_le_bytes());
    wav.extend_from_slice(&44_100u32.to_le_bytes());
    wav.extend_from_slice(&88_200u32.to_le_bytes());
    wav.extend_from_slice(&2u16.to_le_bytes());
    wav.extend_from_slice(&16u16.to_le_bytes());
    wav.extend_from_slice(b"data");
    wav.extend_from_slice(&4u32.to_le_bytes());
    wav.extend_from_slice(&[0, 0, 0, 0]);
    assert_eq!(wav_metadata(&wav), (Some(44_100), Some(1), Some(2)));
    assert_eq!(wav_metadata(&wav[..wav.len() - 2]), (Some(44_100), Some(1), None));
    assert_eq!(wav_metadata(b"RIFF"), (None, None, None));
}

#[test]
fn sealed_commits_pass_the_load_checks() {
    let h = "a".repeat(64);
    let c = seal_commit(
        h.clone(),
        None,
        "main".into(),
        "  first take  ",
        42,
        "project-1".into(),
        1,
        h.clone(),
        h.clone(),
        "linux".into(),
        None,
    );
    assert_eq!(c.message, "first take");
    assert_eq!(c.commit_id, commit_id(&c));
    assert_eq!(check_loaded_commit(&c, &c.commit_id), Ok(()));
    assert_eq!(check_loaded_commit(&c, &"b".repeat(64)), Err("invalid commit metadata".to_string()));
    let mut short = c.clone();
    short.snapshot_hash = "abc".into();
    let id = short.commit_id.clone();
    assert_eq!(check_loaded_commit(&short, &id), Err("incomplete commit metadata".to_string()));
    let mut edited = c.clone();
    edited.message = "other".into();
    let id = edited.commit_id.clone();
    assert_eq!(check_loaded_commit(&edited, &id), Err("commit checksum mismatch".to_string()));
}

#[test]
fn refs_point_at_the_requested_commit_or_the_head() {
    assert_eq!(ref_target(Some("c1"), Some("h"), false), Ok("c1".to_string()));
    assert_eq!(ref_target(None, Some("h"), true), Ok("h".to_string()));
    assert_eq!(ref_target(None, None, false), Err("cannot branch without a commit".to_string()));
    assert_eq!(ref_target(None, None, true), Err("cannot tag without a commit".to_string()));
    assert_eq!(log_length(0), 1);
    assert_eq!(log_length(20), 20);
    assert_eq!(log_length(10_000), 512);
}
