use aura_core_bridge::project_session_registry::ProjectSessionRegistry;

#[test]
fn switches_independent_project_sessions_with_bounded_capacity() {
    let mut registry = ProjectSessionRegistry::default();
    registry.open("one", "/tmp/one.aura").unwrap();
    registry.open("two", "/tmp/two.aura").unwrap();
    assert_eq!(registry.active(), Some("one"));
    assert!(registry.activate("two"));
    assert_eq!(registry.active(), Some("two"));
    assert!(registry.close("two"));
    assert_eq!(registry.active(), Some("one"));
    assert!(!registry.activate("missing"));
    assert_eq!(registry.path("one"), Some("/tmp/one.aura"));
    assert_eq!(registry.sessions().len(), 1);
    assert!(registry.audit());
}

#[test]
fn session_ids_and_paths_are_trimmed_and_bounded() {
    let mut registry = ProjectSessionRegistry::new();
    assert_eq!(registry.open("  ", "/a"), Err("invalid project session"));
    assert_eq!(registry.open("id", "bad\0path"), Err("invalid project session"));
    assert!(registry.is_empty());
    for i in 0..32 {
        registry.open(&format!("s{:02}", i), " /p ").unwrap();
    }
    assert_eq!(registry.len(), 32);
    assert_eq!(registry.path("s07"), Some("/p"));
    assert_eq!(registry.open("extra", "/x"), Err("project session limit reached"));
    assert_eq!(registry.open(" s07 ", "/q"), Ok(()));
    assert_eq!(registry.path("s07"), Some("/q"));
    assert_eq!(registry.active(), Some("s00"));
    assert!(registry.close("s00"));
    assert_eq!(registry.active(), Some("s01"));
    let ids: Vec<String> = registry.sessions().into_iter().map(|(id, _)| id).take(2).collect();
    assert_eq!(ids, vec!["s01".to_string(), "s02".to_string()]);
    assert!(!registry.close("s00"));
    assert!(registry.audit());
}
