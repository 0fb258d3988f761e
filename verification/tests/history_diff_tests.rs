use aura_core_bridge::history_changes::{entity_changes, entity_key};
use aura_core_bridge::project_history::content_hash;

fn item(id: &str, bytes: &[u8]) -> (String, Vec<u8>) {
    (id.to_string(), bytes.to_vec())
}

#[test]
fn entity_changes_name_added_removed_and_changed_ids_in_order() {
    let before = vec![item("1", b"a"), item("2", b"b"), item("4", b"same")];
    let after = vec![item("4", b"same"), item("3", b"d"), item("2", b"c")];
    let changes = entity_changes("tracks", &before, &after);
    let ids: Vec<String> = changes.iter().map(|c| c.entity_id.clone().unwrap()).collect();
    assert_eq!(ids, vec!["1", "2", "3"]);
    assert_eq!(changes[0].operation, "removed");
    assert_eq!(changes[0].before_hash, content_hash(b"a"));
    assert_eq!(changes[0].after_hash, content_hash(b""));
    assert_eq!(changes[1].operation, "changed");
    assert_eq!(changes[1].before_hash, content_hash(b"b"));
    assert_eq!(changes[1].after_hash, content_hash(b"c"));
    assert_eq!(changes[2].operation, "added");
    assert_eq!(changes[2].after_hash, content_hash(b"d"));
    assert!(changes.iter().all(|c| c.section == "tracks"));
}

#[test]
fn entity_changes_use_the_last_entity_of_an_id_and_skip_other_sections() {
    let before = vec![item("7", b"old"), item("7", b"new")];
    let after = vec![item("7", b"new")];
    assert!(entity_changes("regions", &before, &after).is_empty());
    let after = vec![item("7", b"old")];
    assert_eq!(entity_changes("regions", &before, &after).len(), 1);
    assert!(entity_changes("metadata", &before, &vec![]).is_empty());
    assert_eq!(entity_key("plugin_instances"), Some("instance_id"));
    assert_eq!(entity_key("midi_notes"), Some(""));
    assert_eq!(entity_key("sample_rate"), None);
}
