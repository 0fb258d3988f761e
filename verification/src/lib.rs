use vstd::prelude::*;

pub mod archive_plan;
pub mod contract_validation;
pub mod digest;
pub mod graph;
pub mod history_changes;
pub mod hydration;
pub mod idgraph;
pub mod keyed;
pub mod keys;
pub mod lines;
pub mod notation;
pub mod notification_system;
pub mod offline;
pub mod openutau;
pub mod orchestral;
pub mod parallel_bounce;
pub mod passive_curing_eq;
pub mod parallel_bounce_orchestrator;
pub mod patch_graph;
pub mod pdc;
pub mod plugin_catalog;
pub mod plugin_instances;
pub mod pdc_graph;
pub mod pdc_graph_solver;
pub mod pdc_manager;
pub mod persistence;
pub mod piano_roll_editor;
pub mod plugin_presets;
pub mod plugin_processing;
pub mod plugin_registry;
pub mod plugin_state;
pub mod preview_audio;
pub mod presets;
pub mod process_graph;
pub mod production_events;
pub mod production_session;
pub mod production_timeline;
pub mod project_archive;
pub mod project_contracts;
pub mod project_history;
pub mod project_session_registry;
pub mod project_snapshot_store;
pub mod sorting;
pub mod stack_order;
pub mod text;

verus! {
} // verus!
