use aura_core_bridge::persistence::{
    lock_owner, lock_record, temp_owner, PersistenceOrchestrator, RecoveryCandidate, SovereignPersistence,
};

#[test]
fn persistence_checksum_uses_sha256_and_reads_legacy_fnv() {
    let data = b"aura-persistence-checksum";
    let modern = PersistenceOrchestrator::calculate_checksum(data);
    let legacy = PersistenceOrchestrator::legacy_fnv1a_checksum(data);
    assert_ne!(modern, legacy);
    assert_eq!(modern, 9457746414791646468);
    assert_eq!(legacy, 5644150088474287776);
    let persistence = PersistenceOrchestrator::new(1);
    assert!(persistence.audit_persistence(data, modern));
    assert!(persistence.audit_persistence(data, legacy));
    assert!(!persistence.audit_persistence(b"mutated", modern));
}

#[test]
fn save_records_keep_the_newest_and_a_bounded_count() {
    let mut persistence = PersistenceOrchestrator::new(2);
    assert_eq!(PersistenceOrchestrator::new(20_000).max_backups, 10_000);
    let first = persistence.record_save("song.aura", b"one", 10).unwrap();
    assert_eq!(first.index, 0);
    assert_eq!(first.checksum, PersistenceOrchestrator::calculate_checksum(b"one"));
    persistence.record_save("song.aura", b"two", 11).unwrap();
    let third = persistence.record_save("song.aura", b"three", 12).unwrap();
    assert_eq!(third.index, 2);
    assert_eq!(persistence.current_backups.len(), 2);
    assert_eq!(persistence.current_backups[0].timestamp, 11);
    assert!(persistence.record_save("  ", b"x", 1).is_err());
    persistence.orchestrate_backup();
}

#[test]
fn backup_generations_are_read_from_file_names() {
    assert_eq!(PersistenceOrchestrator::backup_generation("song.aura.bak.3", "song.aura"), Some(3));
    assert_eq!(PersistenceOrchestrator::backup_generation("song.aura.bak.x", "song.aura"), None);
    assert_eq!(PersistenceOrchestrator::backup_generation("other.aura.bak.1", "song.aura"), None);
    assert_eq!(PersistenceOrchestrator::backup_generation("song.aura.bak.4294967296", "song.aura"), None);
    assert_eq!(SovereignPersistence::scan_assets("/p", &["a.wav".to_string()]), vec!["a.wav".to_string()]);
}

#[test]
fn save_temporaries_name_their_writer_process() {
    assert_eq!(temp_owner("song.aura.tmp-123-456-abc-def", "song.aura"), Some("123".to_owned()));
    assert_eq!(temp_owner("song.aura.tmp-7-8-ff", "song.aura"), Some("7".to_owned()));
    assert_eq!(temp_owner("song.aura.tmp-7-8-", "song.aura"), None);
    assert_eq!(temp_owner("song.aura.tmp-7-8", "song.aura"), None);
    assert_eq!(temp_owner("song.aura.tmp-x7-8-ff", "song.aura"), None);
    assert_eq!(temp_owner("song.aura.tmp-7--ff", "song.aura"), None);
    assert_eq!(temp_owner("song.aura.tmp-7-8-zz", "song.aura"), None);
    assert_eq!(temp_owner(&format!("song.aura.tmp-7-8-{}", "a".repeat(129)), "song.aura"), None);
    assert_eq!(temp_owner("other.aura.tmp-7-8-ff", "song.aura"), None);
}

#[test]
fn save_lock_owner_needs_a_valid_token_and_pid() {
    assert_eq!(lock_owner("pid=42 created_unix_seconds=1 token=ab-12\n"), Some(42));
    assert_eq!(lock_owner("  token=ff\tpid=x pid=-7 "), Some(-7));
    assert_eq!(lock_owner("pid=42 token=xyz"), None);
    assert_eq!(lock_owner("pid=42"), None);
    assert_eq!(lock_owner("token=ab pid=2147483648"), None);
    assert_eq!(lock_owner("token=ab pid=+2147483647"), Some(2147483647));
    assert_eq!(lock_owner("token= pid=1"), None);
    assert_eq!(lock_record("a token=one token=two pid=5"), (Some("one".to_owned()), Some(5)));
    assert_eq!(lock_record(""), (None, None));
}

#[test]
fn recovery_candidates_come_newest_generation_first() {
    let candidate = |path: &str, generation: u32| RecoveryCandidate {
        path: path.to_owned(),
        generation,
        bytes: 1,
        modified_unix_seconds: 0,
        checksum: 0,
    };
    let ordered = PersistenceOrchestrator::order_candidates(&vec![
        candidate("c", 3),
        candidate("a", 1),
        candidate("b1", 2),
        candidate("b2", 2),
    ]);
    let paths: Vec<&str> = ordered.iter().map(|c| c.path.as_str()).collect();
    assert_eq!(paths, vec!["a", "b1", "b2", "c"]);
}

#[test]
fn blank_save_paths_are_refused() {
    assert!(PersistenceOrchestrator::check_save_path("song.aura").is_ok());
    assert_eq!(PersistenceOrchestrator::check_save_path("  "), Err("project path must not be empty".to_owned()));
    assert!(PersistenceOrchestrator::check_save_path("a\0b").is_err());
}
