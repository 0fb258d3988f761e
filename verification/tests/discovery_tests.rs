use aura_core_bridge::plugin_catalog::{
    binary_hash_for_path, binary_identity, builtin_plugins, catalog_listing, capabilities_from_output, catalog_by_id,
    catalog_entry, clear_plugin_quarantine, favorite_entries, format_for_extension, is_quarantined_hash,
    quarantine_entries, quarantine_plugin, resolve, resolve_among, scan, set_favorite, split_alias, BundleFile,
    InstalledPlugin, PluginIdSet, ScannedBinary, WorkerCapabilities,
};

fn caps(clap: bool, au: bool, vst3: bool) -> WorkerCapabilities {
    WorkerCapabilities { clap, au, vst3 }
}

fn entry(path: &str, stem: &str, format: &str) -> InstalledPlugin {
    catalog_entry(path, stem, format, "abc", 10, 5, false, caps(true, true, true)).unwrap()
}

fn binary(path: &str, stem: &str, extension: &str, hash: &str) -> ScannedBinary {
    ScannedBinary {
        path: path.to_owned(),
        stem: stem.to_owned(),
        extension: extension.to_owned(),
        binary_hash: hash.to_owned(),
        binary_bytes: 100,
        modified_unix_seconds: 7,
        quarantined: false,
    }
}

fn file(relative: &str, contents: Option<&[u8]>, modified: Option<u64>) -> BundleFile {
    BundleFile {
        relative: relative.to_owned(),
        contents: contents.map(|c| c.to_vec()),
        modified_unix_seconds: modified,
    }
}

#[test]
fn binary_identity_changes_when_plugin_contents_change() {
    let first = binary_identity(&vec![file("Contents/MacOS/plugin", Some(b"version-a"), Some(10))]);
    let second = binary_identity(&vec![file("Contents/MacOS/plugin", Some(b"version-b-updated"), Some(11))]);
    assert_ne!(first.0, second.0);
    assert_ne!(first.1, second.1);
    assert!(first.0.len() == 64 && second.0.len() == 64);
}

#[test]
fn binary_identity_hashes_paths_lengths_and_contents_in_path_order() {
    let (hash, bytes, newest) = binary_identity(&vec![file("Contents/MacOS/plugin", Some(b"version-a"), Some(10))]);
    assert_eq!(hash, "7d5024cbae2f8a344018fb2df6f358b939ac6db54e6201ad3aae0b98bbdcfae8");
    assert_eq!(bytes, 9);
    assert_eq!(newest, 10);
    let (hash, bytes, newest) =
        binary_identity(&vec![file("b", Some(b"xy"), Some(3)), file("a", None, Some(9)), file("c", None, None)]);
    let (alone, _, _) = binary_identity(&vec![file("a", None, Some(9)), file("b", Some(b"xy"), Some(3))]);
    assert_ne!(hash, alone);
    let (sorted, _, _) = binary_identity(&vec![file("a", None, None), file("b", Some(b"xy"), None)]);
    assert_eq!(sorted, "bec2c33b5ed5c4e863e7fd6adb53e75f198f5a5b5f3cf78b552c59b05d12ca6b");
    assert_eq!(alone, sorted);
    assert_eq!(bytes, 2);
    assert_eq!(newest, 9);
}

#[test]
fn unreadable_bundle_has_no_binary_hash() {
    assert_eq!(binary_hash_for_path(&vec![]), None);
    assert_eq!(binary_hash_for_path(&vec![file("plugin", None, Some(4))]), None);
    assert_eq!(
        binary_hash_for_path(&vec![file("Contents/MacOS/plugin", Some(b"version-a"), None)]),
        Some("7d5024cbae2f8a344018fb2df6f358b939ac6db54e6201ad3aae0b98bbdcfae8".to_owned())
    );
}

#[test]
fn bundle_extensions_name_their_formats() {
    assert_eq!(format_for_extension("clap"), Some("clap"));
    assert_eq!(format_for_extension("VST3"), Some("vst3"));
    assert_eq!(format_for_extension("Component"), Some("au"));
    assert_eq!(format_for_extension("dll"), None);
    assert_eq!(format_for_extension(""), None);
}

#[test]
fn catalog_entry_joins_alias_key_format_and_path_fingerprint() {
    let p = catalog_entry("/Plugins/Vital.clap", "Vital", "clap", "abc", 10, 5, false, caps(true, false, false))
        .unwrap();
    assert_eq!(p.id, "vital.clap.676b343ef8de17ed");
    assert_eq!(p.name, "Vital");
    assert_eq!(p.capability, "sandbox-ready");
    assert!(p.sandboxed && p.installed && !p.favorite);
    assert_eq!(p.tags, vec!["clap".to_owned()]);
    assert_eq!(p.binary_bytes, 10);
    assert_eq!(p.modified_unix_seconds, 5);
}

#[test]
fn catalog_entry_capability_follows_worker_and_quarantine() {
    let c = caps(false, false, false);
    let vst3 = catalog_entry("/p/a.vst3", "A", "vst3", "h", 1, 0, false, c).unwrap();
    assert_eq!(vst3.capability, "vst3-sdk-required");
    assert!(!vst3.sandboxed);
    let au = catalog_entry("/p/a.component", "A", "au", "h", 1, 0, false, caps(false, true, false)).unwrap();
    assert_eq!(au.capability, "au-sandbox-ready");
    assert!(au.sandboxed);
    let au_off = catalog_entry("/p/a.component", "A", "au", "h", 1, 0, false, c).unwrap();
    assert_eq!(au_off.capability, "au-worker-unavailable");
    let clap_off = catalog_entry("/p/a.clap", "A", "clap", "h", 1, 0, false, c).unwrap();
    assert_eq!(clap_off.capability, "worker-unavailable");
    let q = catalog_entry("/p/a.clap", "A", "clap", "h", 1, 0, true, caps(true, true, true)).unwrap();
    assert_eq!(q.capability, "quarantined");
    assert!(q.quarantined);
}

#[test]
fn unreadable_or_nameless_binaries_are_no_catalog_entry() {
    let c = caps(true, true, true);
    assert!(catalog_entry("/p/a.clap", "A", "clap", "h", 0, 0, false, c).is_none());
    assert!(catalog_entry("/p/a.clap", "A", "clap", "", 3, 0, false, c).is_none());
    assert!(catalog_entry("/p/__.clap", "--", "clap", "h", 3, 0, false, c).is_none());
}

#[test]
fn catalog_keeps_the_first_entry_of_each_id_in_id_order() {
    let first = entry("/p/Zeta.clap", "Zeta", "clap");
    let mut again = entry("/p/Zeta.clap", "Zeta", "clap");
    again.binary_bytes = 99;
    let alpha = entry("/p/Alpha.vst3", "Alpha", "vst3");
    let r = catalog_by_id(&vec![first.clone(), alpha.clone(), again]);
    assert_eq!(r.len(), 2);
    assert_eq!(r[0], alpha);
    assert_eq!(r[1], first);
}

#[test]
fn scan_keeps_every_format_and_skips_unreadable_binaries() {
    let found = vec![
        binary("/p/Vital.vst3", "Vital", "vst3", "h1"),
        binary("/p/Vital.clap", "Vital", "clap", "h2"),
        binary("/p/Empty.clap", "Empty", "clap", ""),
        binary("/p/Vital.clap", "Vital", "clap", "h3"),
    ];
    let r = scan(&found, caps(true, true, true));
    assert_eq!(r.len(), 2);
    assert!(r[0].id.starts_with("vital.clap."));
    assert_eq!(r[0].binary_hash, "h2");
    assert!(r[1].id.starts_with("vital.vst3."));
    assert_eq!(r[1].capability, "vst3-sandbox-ready");
}

#[test]
fn aliases_split_at_the_first_at_sign_else_colon() {
    assert_eq!(split_alias("Vital@VST3"), ("Vital".to_owned(), Some("vst3".to_owned())));
    assert_eq!(split_alias("Surge XT:clap"), ("Surge XT".to_owned(), Some("clap".to_owned())));
    assert_eq!(split_alias("a:b@c"), ("a:b".to_owned(), Some("c".to_owned())));
    assert_eq!(split_alias("Vital"), ("Vital".to_owned(), None));
}

#[test]
fn builtin_plugins_come_first_and_resolve_by_id_or_name() {
    let builtins = builtin_plugins();
    assert_eq!(builtins.len(), 11);
    assert_eq!(builtins[0].id, "aura.internal.limiter");
    assert_eq!(builtins[10].name, "Aura Stereo Width");
    assert!(builtins.iter().all(|p| p.format == "internal" && p.binary_hash == "builtin"));
    let limiter = resolve("aura.internal.limiter", &vec![]).unwrap();
    assert_eq!(limiter.name, "Aura Limiter");
    let by_key = resolve("AURA internal Compressor", &vec![]).unwrap();
    assert_eq!(by_key.id, "aura.internal.compressor");
    let by_name = resolve("aura de-esser", &vec![]).unwrap();
    assert_eq!(by_name.id, "aura.internal.deesser");
    assert!(resolve("no such plugin", &vec![]).is_none());
}

#[test]
fn name_lookup_prefers_clap_then_vst3_then_au_and_honours_format() {
    let vst3 = entry("/p/Vital.vst3", "Vital", "vst3");
    let clap = entry("/p/Vital.clap", "Vital", "clap");
    let au = entry("/p/Vital.component", "Vital", "au");
    let scanned = vec![au.clone(), vst3.clone(), clap.clone()];
    assert_eq!(resolve("vital", &scanned), Some(clap.clone()));
    assert_eq!(resolve("Vital@VST3", &scanned), Some(vst3.clone()));
    assert_eq!(resolve("vital:au", &scanned), Some(au.clone()));
    assert_eq!(resolve("vital@lv2", &scanned), None);
    assert_eq!(resolve(&vst3.id, &scanned), Some(vst3));
}

#[test]
fn equal_formats_resolve_to_the_lowest_path_then_the_first_listed() {
    let b = entry("/b/Surge XT.clap", "Surge XT", "clap");
    let a = entry("/A/Surge XT.clap", "Surge XT", "clap");
    let mut a_again = a.clone();
    a_again.binary_bytes = 77;
    assert_eq!(resolve_among("surge xt", &vec![b.clone(), a.clone(), a_again.clone()]), Some(a.clone()));
    assert_eq!(resolve_among("surgext", &vec![b, a_again.clone(), a]), Some(a_again));
}

#[test]
fn worker_reports_capabilities_as_json() {
    let c = capabilities_from_output(br#"{"clap": true, "au": false, "vst3": "yes"}"#).unwrap();
    assert!(c.clap);
    assert!(!c.au);
    assert!(!c.vst3);
    let all = capabilities_from_output(br#"{"clap":true,"au":true,"vst3":true}"#).unwrap();
    assert!(all.clap && all.au && all.vst3);
    assert!(capabilities_from_output(b"worker crashed").is_none());
    let none = capabilities_from_output(b"[]").unwrap();
    assert!(!none.clap && !none.au && !none.vst3);
}

#[test]
fn quarantine_file_keeps_only_hex_hashes() {
    let good = "a".repeat(64);
    let upper = "ABCDEF0123456789".repeat(4);
    let text = format!("  {good}  \r\nnot-a-hash\n{}\n{upper}\n{good}\n", "g".repeat(64));
    let set = quarantine_entries(&text);
    assert!(is_quarantined_hash(&set, &good));
    assert!(is_quarantined_hash(&set, &upper));
    assert!(!is_quarantined_hash(&set, "not-a-hash"));
    assert!(!is_quarantined_hash(&set, &"g".repeat(64)));
    assert_eq!(set.persisted_text(), format!("{upper}\n{good}\n"));
}

#[test]
fn favourites_file_keeps_short_nonempty_lines() {
    let long = "x".repeat(257);
    let text = format!("vital.clap.1\n\n   \n{long}\nbad\0id\n surge \n");
    let set = favorite_entries(&text);
    assert!(set.contains("vital.clap.1"));
    assert!(set.contains("surge"));
    assert!(!set.contains(""));
    assert!(!set.contains(&long));
    assert!(!set.contains("bad\0id"));
    assert_eq!(set.persisted_text(), "surge\nvital.clap.1\n");
}

#[test]
fn favourites_are_marked_and_cleared_by_catalog_id() {
    let mut set = PluginIdSet::new();
    assert_eq!(set_favorite(&mut set, "vital.clap.1", true), Ok(true));
    assert_eq!(set_favorite(&mut set, "vital.clap.1", true), Ok(false));
    assert!(set.contains("vital.clap.1"));
    assert_eq!(set_favorite(&mut set, "   ", true), Err("invalid plugin id"));
    assert_eq!(set_favorite(&mut set, &"y".repeat(257), true), Err("invalid plugin id"));
    assert_eq!(set_favorite(&mut set, "a\0b", false), Err("invalid plugin id"));
    assert_eq!(set_favorite(&mut set, "vital.clap.1", false), Ok(true));
    assert_eq!(set_favorite(&mut set, "vital.clap.1", false), Ok(false));
    assert_eq!(set.persisted_text(), "");
}

#[test]
fn quarantine_needs_a_full_binary_identity() {
    let mut set = PluginIdSet::new();
    let mut plugin = entry("/p/Vital.clap", "Vital", "clap");
    assert_eq!(quarantine_plugin(&mut set, &plugin), Err("plugin has no valid binary identity"));
    plugin.binary_hash = "c".repeat(64);
    assert_eq!(quarantine_plugin(&mut set, &plugin), Ok(()));
    assert!(is_quarantined_hash(&set, &plugin.binary_hash));
    assert!(clear_plugin_quarantine(&mut set, &plugin));
    assert!(!clear_plugin_quarantine(&mut set, &plugin));
    assert!(!is_quarantined_hash(&set, &plugin.binary_hash));
}

#[test]
fn catalog_listing_marks_favourites() {
    let mut favorites = PluginIdSet::new();
    favorites.insert("aura.internal.compressor");
    let scanned = vec![entry("/p/Vital.clap", "Vital", "clap")];
    favorites.insert(&scanned[0].id);
    let listing = catalog_listing(&scanned, &favorites);
    assert_eq!(listing.len(), 3);
    assert_eq!(listing[0].id, "aura.internal.limiter");
    assert!(!listing[0].favorite);
    assert!(listing[1].favorite);
    assert_eq!(listing[2].id, scanned[0].id);
    assert!(listing[2].favorite);
}

#[test]
fn scan_reads_the_format_from_the_extension_and_skips_other_files() {
    let binaries = vec![
        binary("/p/Comp.COMPONENT", "Comp", "COMPONENT", "h1"),
        binary("/p/readme.txt", "readme", "txt", "h2"),
    ];
    let r = scan(&binaries, caps(true, true, true));
    assert_eq!(r.len(), 1);
    assert_eq!(r[0].format, "au");
    assert_eq!(r[0].tags, vec!["au".to_string()]);
}
