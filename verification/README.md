# aura_core_bridge

The verified core of the Aura audio workstation bridge, written in Verus.
`src/` holds the logic with its contracts and proofs; `app/` holds what
Verus does not see: file and process I/O, JSON and binary encodings, and
the floating-point audio and editing code.

What `src/` covers, by area:

- Graphs: process-graph stages (`process_graph`), the modular patch grid
  (`patch_graph`), Kahn orderings with a queue (`graph`) and a stack
  (`stack_order`), plug-in delay compensation (`pdc`, `pdc_graph`,
  `pdc_graph_solver`, `pdc_manager`).
- Plug-ins: catalog discovery, identities, favourites and quarantine lists
  (`plugin_catalog`), the registries, presets and plug-in state
  (`plugin_registry`, `plugin_presets`, `presets`, `plugin_state`), and the
  instances a loaded layout implies (`plugin_instances`).
- Projects: contracts and their validation (`project_contracts`,
  `contract_validation`), layout loading (`hydration`), archive manifests
  and plans (`project_archive`, `archive_plan`), history records and
  entity-level snapshot diffs (`project_history`, `history_changes`),
  snapshots, sessions and persistence (`project_snapshot_store`,
  `project_session_registry`, `persistence`).
- Rendering and media: offline and parallel bounces (`offline`,
  `parallel_bounce`, `parallel_bounce_orchestrator`), OpenUtau import
  (`openutau`), preview WAV headers (`preview_audio`), notation and the
  orchestral templates (`notation`, `orchestral`), the piano roll
  (`piano_roll_editor`), the event stream and timeline
  (`production_events`, `production_timeline`).

The tests under `tests/` run the compiled library on concrete values.
