use aura_core_bridge::plugin_catalog::{PluginCollectionManager, DEFAULT_PLUGIN_COLLECTION_ID};

#[test]
fn default_collection_is_immutable_and_rebuilt_on_rescan() {
    let mut manager = PluginCollectionManager::new(&["plug.b", "plug.a"]);
    assert!(manager.validate());
    assert_eq!(
        manager.active_entries(false).iter().map(|entry| entry.plugin_id.as_str()).collect::<Vec<_>>(),
        vec!["plug.a", "plug.b"]
    );
    assert!(!manager.rename(DEFAULT_PLUGIN_COLLECTION_ID, "Other"));
    assert!(!manager.delete(DEFAULT_PLUGIN_COLLECTION_ID));
    manager.rescan(&["plug.c", "plug.a"]);
    assert_eq!(
        manager.active_entries(false).iter().map(|entry| entry.plugin_id.as_str()).collect::<Vec<_>>(),
        vec!["plug.a", "plug.c"]
    );
    assert!(manager.validate());
}

#[test]
fn user_collection_supports_folders_copy_activation_and_unavailable_cleanup() {
    let mut manager = PluginCollectionManager::new(&["synth", "eq", "compressor"]);
    let favorites = manager.create("Favorites", false).unwrap();
    assert!(manager.add_plugin(&favorites, "synth", &["Instruments".into()]));
    assert!(manager.add_plugin(&favorites, "eq", &["Mix".into(), "EQ".into()]));
    assert!(!manager.add_plugin(&favorites, "missing", &[]));
    assert!(manager.activate(&favorites));
    assert_eq!(manager.active_entries(false).len(), 2);

    let copied = manager.copy_collection(&favorites, "Studio A").unwrap();
    assert!(manager.activate(&copied));
    manager.rescan(&["synth", "compressor"]);
    assert_eq!(manager.active_entries(true).len(), 2);
    assert_eq!(manager.active_entries(false).len(), 1);
    assert_eq!(manager.remove_unavailable_from_user_collections(), 2);
    assert_eq!(manager.active_entries(true).len(), 1);
    assert!(manager.validate());
}

#[test]
fn deleting_active_user_collection_falls_back_to_default() {
    let mut manager = PluginCollectionManager::new(&["limiter"]);
    let id = manager.create("Mastering", true).unwrap();
    assert!(manager.activate(&id));
    assert!(manager.delete(&id));
    assert_eq!(manager.active_id, DEFAULT_PLUGIN_COLLECTION_ID);
    assert!(manager.validate());
}

#[test]
fn collection_ids_count_up_and_names_stay_unique() {
    let mut manager = PluginCollectionManager::new(&["a", "bad/id", ""]);
    assert_eq!(manager.available_plugin_ids, vec!["a".to_string()]);
    assert_eq!(manager.create("One", true), Some("user-1".to_string()));
    assert_eq!(manager.create(" one ", false), None);
    assert_eq!(manager.create("Two", false), Some("user-2".to_string()));
    assert!(manager.rename("user-2", "Second"));
    assert!(!manager.rename("user-2", "ONE"));
    assert!(manager.remove_plugin("user-1", "a"));
    assert!(!manager.remove_plugin("user-1", "a"));
    assert!(!manager.add_plugin("user-1", "a", &["..".into()]));
    assert!(manager.validate());
}

#[test]
fn every_operation_keeps_the_manager_valid() {
    let mut manager = PluginCollectionManager::new(&["synth", "eq", "bad/id", "eq"]);
    assert!(manager.validate());
    let a = manager.create("Mixing", true).unwrap();
    assert!(manager.validate());
    assert!(manager.create("mixing", false).is_none());
    let b = manager.copy_collection(&a, "Mixing Copy").unwrap();
    assert!(manager.validate());
    assert!(manager.rename(&b, "Tracking"));
    assert!(!manager.rename(&b, "MIXING"));
    assert!(manager.validate());
    assert!(manager.activate(&b));
    assert!(manager.add_plugin(&b, "synth", &["Keys".into()]) == false);
    assert!(manager.remove_plugin(&b, "synth"));
    assert!(manager.add_plugin(&b, "synth", &["Keys".into()]));
    assert!(manager.validate());
    manager.rescan(&["eq"]);
    assert!(manager.validate());
    assert_eq!(manager.remove_unavailable_from_user_collections(), 2);
    assert!(manager.validate());
    assert!(manager.delete(&b));
    assert_eq!(manager.active_id, DEFAULT_PLUGIN_COLLECTION_ID);
    assert!(manager.validate());
}
