use aura_core_bridge::patch_graph::{GridOrchestrator, NodeInfo, Patch};
use aura_core_bridge::process_graph::{ExecutionOrchestrator, ProcessNodeRust};

fn process(id: u32, dependencies: Vec<u32>) -> ProcessNodeRust {
    ProcessNodeRust { id, dependencies }
}

fn stage_ids(o: &ExecutionOrchestrator) -> Vec<Vec<u32>> {
    o.stages.iter().map(|s| s.node_ids.clone()).collect()
}

#[test]
fn compile_groups_nodes_by_longest_dependency_chain() {
    let mut o = ExecutionOrchestrator::new();
    o.compile(&[process(1, vec![]), process(2, vec![1]), process(3, vec![1, 2]), process(4, vec![])]);
    assert_eq!(o.version, 1);
    assert_eq!(stage_ids(&o), vec![vec![1, 4], vec![2], vec![3]]);
    assert!(o.audit_process_graph());
}

#[test]
fn compile_leaves_no_stages_for_cycles_unknown_or_duplicate_ids() {
    let mut o = ExecutionOrchestrator::default();
    o.compile(&[process(1, vec![2]), process(2, vec![1])]);
    assert!(o.stages.is_empty());
    o.compile(&[process(1, vec![9])]);
    assert!(o.stages.is_empty());
    o.compile(&[process(1, vec![]), process(1, vec![])]);
    assert!(o.stages.is_empty());
    o.compile(&[process(5, vec![5])]);
    assert!(o.stages.is_empty());
    assert_eq!(o.version, 4);
}

#[test]
fn compile_counts_a_repeated_dependency_once() {
    let mut o = ExecutionOrchestrator::new();
    o.compile(&[process(1, vec![]), process(2, vec![1, 1])]);
    assert_eq!(stage_ids(&o), vec![vec![1], vec![2]]);
}

fn grid_node(id: u32, node_type: &str) -> NodeInfo {
    NodeInfo { id, node_type: node_type.to_string() }
}

fn patch(from_node: u32, to_node: u32) -> Patch {
    Patch { from_node, from_port: 0, to_node, to_port: 0 }
}

#[test]
fn topological_sort_orders_nodes_along_patches_and_drops_dangling_ones() {
    let mut grid = GridOrchestrator::new();
    grid.nodes = vec![grid_node(3, "out"), grid_node(1, "osc"), grid_node(2, "filter")];
    grid.patches = vec![patch(1, 2), patch(2, 3), patch(2, 9), patch(3, 3)];
    grid.resolve_topological_sort();
    assert_eq!(grid.patches.len(), 2);
    let ids: Vec<u32> = grid.nodes.iter().map(|n| n.id).collect();
    assert_eq!(ids, vec![1, 2, 3]);
    assert_eq!(grid.nodes[0].node_type, "osc");
    assert!(grid.audit_grid());
}

#[test]
fn topological_sort_keeps_node_order_for_a_loop() {
    let mut grid = GridOrchestrator::default();
    grid.nodes = vec![grid_node(2, "a"), grid_node(1, "b")];
    grid.patches = vec![patch(1, 2), patch(2, 1)];
    grid.resolve_topological_sort();
    let ids: Vec<u32> = grid.nodes.iter().map(|n| n.id).collect();
    assert_eq!(ids, vec![2, 1]);
    assert_eq!(grid.patches.len(), 2);
}

#[test]
fn audit_grid_rejects_zero_ids_blank_types_and_dangling_patches() {
    let mut grid = GridOrchestrator::new();
    grid.nodes = vec![grid_node(1, "osc"), grid_node(2, "  ")];
    assert!(!grid.audit_grid());
    grid.nodes = vec![grid_node(0, "osc")];
    assert!(!grid.audit_grid());
    grid.nodes = vec![grid_node(1, "osc"), grid_node(1, "osc")];
    assert!(!grid.audit_grid());
    grid.nodes = vec![grid_node(1, "osc")];
    grid.patches = vec![patch(1, 4)];
    assert!(!grid.audit_grid());
    grid.resolve_signal_transmission();
}

#[test]
fn compile_orders_each_stage_as_its_nodes_become_ready() {
    let mut o = ExecutionOrchestrator::new();
    o.compile(&[process(1, vec![]), process(2, vec![]), process(3, vec![2]), process(4, vec![1])]);
    assert_eq!(stage_ids(&o), vec![vec![1, 2], vec![4, 3]]);
}

#[test]
fn topological_sort_takes_the_latest_ready_node_first() {
    let mut grid = GridOrchestrator::new();
    grid.nodes = vec![grid_node(1, "a"), grid_node(2, "b")];
    grid.resolve_topological_sort();
    let ids: Vec<u32> = grid.nodes.iter().map(|n| n.id).collect();
    assert_eq!(ids, vec![2, 1]);

    let mut grid = GridOrchestrator::new();
    grid.nodes = vec![grid_node(1, "a"), grid_node(2, "b"), grid_node(3, "c"), grid_node(4, "d")];
    grid.patches = vec![patch(1, 3), patch(1, 4), patch(2, 4)];
    grid.resolve_topological_sort();
    let ids: Vec<u32> = grid.nodes.iter().map(|n| n.id).collect();
    assert_eq!(ids, vec![2, 1, 4, 3]);
}

#[test]
fn compiled_stages_hold_every_node_once_after_its_dependencies() {
    let nodes = [
        process(10, vec![20, 30]),
        process(20, vec![]),
        process(30, vec![20]),
        process(40, vec![10]),
        process(50, vec![]),
    ];
    let mut o = ExecutionOrchestrator::new();
    o.compile(&nodes);
    let stages = stage_ids(&o);
    assert_eq!(stages, vec![vec![20, 50], vec![30], vec![10], vec![40]]);
    for node in &nodes {
        let at: Vec<usize> = (0..stages.len()).filter(|&s| stages[s].contains(&node.id)).collect();
        assert_eq!(at.len(), 1);
        for dep in &node.dependencies {
            let dep_at = (0..stages.len()).find(|&s| stages[s].contains(dep)).unwrap();
            assert!(dep_at < at[0]);
        }
    }
}
