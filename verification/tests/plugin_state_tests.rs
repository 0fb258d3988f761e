use aura_core_bridge::plugin_state::{decode_hex, plugin_bypasses, state_versions, PLUGIN_STATE_SCHEMA_VERSION};

#[test]
fn state_hex_decodes_two_digits_per_byte() {
    assert_eq!(decode_hex("00ff7Fa0"), Ok(vec![0x00, 0xff, 0x7f, 0xa0]));
    assert_eq!(decode_hex(""), Ok(vec![]));
    assert_eq!(decode_hex("abc"), Err("plugin state hex has odd length".to_owned()));
    assert_eq!(decode_hex("zz"), Err("plugin state contains invalid hex".to_owned()));
    assert_eq!(decode_hex("é"), Err("plugin state contains invalid hex".to_owned()));
}

#[test]
fn state_versions_default_and_migrate_unversioned_blobs() {
    assert_eq!(state_versions(&[], 3), Ok(vec![PLUGIN_STATE_SCHEMA_VERSION; 3]));
    assert_eq!(state_versions(&[0, 1], 2), Ok(vec![1, 1]));
    assert_eq!(
        state_versions(&[1], 2),
        Err("plugin state version count does not match state count".to_owned())
    );
    assert_eq!(state_versions(&[1, 7, 9], 3), Err("unsupported plugin state version 7".to_owned()));
}

#[test]
fn bypass_flags_default_to_active_plugins() {
    assert_eq!(plugin_bypasses(&[], 2), Ok(vec![false, false]));
    assert_eq!(plugin_bypasses(&[true, false], 2), Ok(vec![true, false]));
    assert_eq!(plugin_bypasses(&[true], 2), Err("plugin bypass/type counts differ".to_owned()));
}
