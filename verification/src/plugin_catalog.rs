//! The plug-in catalog: cache identities, instrument profiles, the plug-in
//! manager registry and plug-in collections.
pub mod collection_laws;
pub mod collections;
pub mod discovery;
pub mod id_lists;
pub mod identity;
pub mod registry;

pub use self::collections::{
    valid_collection_name, valid_collection_token, valid_folder, PluginCollection,
    PluginCollectionEntry, PluginCollectionManager, DEFAULT_PLUGIN_COLLECTION_ID,
};
pub use self::registry::{PluginBlockReason, PluginInspection, PluginManagerRegistry};
pub use self::identity::{content_fingerprint, instrument_profiles, normalized, plugin_cache_identity, InstalledPlugin, InstrumentProfile};
pub use self::discovery::{
    binary_hash_for_path, binary_identity, builtin_plugins, capabilities_from_output, catalog_by_id,
    catalog_entry, format_for_extension, resolve, resolve_among, scan, split_alias, BundleFile, ScannedBinary,
    WorkerCapabilities,
};
pub use self::id_lists::{
    catalog_listing, clear_plugin_quarantine, favorite_entries, is_quarantined_hash, quarantine_entries, quarantine_plugin,
    set_favorite, PluginIdSet,
};
