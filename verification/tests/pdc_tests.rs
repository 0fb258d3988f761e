use aura_core_bridge::pdc::{PdcNode, PdcOrchestrator};
use aura_core_bridge::pdc_graph::{PdcNodeRust, TopologyOrchestrator};
use aura_core_bridge::pdc_graph_solver;
use std::collections::HashMap;

fn node(id: u32, own_latency: u32, total_latency: u32, downstream: Vec<u32>) -> PdcNodeRust {
    PdcNodeRust { id, own_latency, total_latency, is_dirty: false, downstream }
}

fn solver_node(
    id: u32,
    own_latency: u32,
    total_latency: u32,
    downstream: Vec<u32>,
) -> pdc_graph_solver::PdcNodeRust {
    pdc_graph_solver::PdcNodeRust { id, own_latency, total_latency, downstream }
}

#[test]
fn audit_rejects_cycle_and_unknown_route() {
    let mut pdc = PdcOrchestrator {
        nodes: vec![PdcNode { id: 1, latency: 32, dest_id: 2 }, PdcNode { id: 2, latency: 64, dest_id: 1 }],
        has_cycle: false,
    };
    assert_eq!(pdc.recalculate_pdc(false), vec![0, 0]);
    assert!(!pdc.audit_pdc());

    let invalid = PdcOrchestrator { nodes: vec![PdcNode { id: 1, latency: 32, dest_id: 99 }], has_cycle: false };
    assert!(!invalid.audit_pdc());
}

#[test]
fn audit_accepts_a_valid_chain() {
    let mut pdc = PdcOrchestrator {
        nodes: vec![PdcNode { id: 1, latency: 32, dest_id: 2 }, PdcNode { id: 2, latency: 64, dest_id: 0 }],
        has_cycle: false,
    };
    let compensation = pdc.recalculate_pdc(false);
    assert_eq!(compensation.len(), 2);
    assert!(pdc.audit_pdc());
}

#[test]
fn chain_compensation_lines_up_with_the_slowest_path() {
    let mut pdc = PdcOrchestrator {
        nodes: vec![PdcNode { id: 1, latency: 32, dest_id: 2 }, PdcNode { id: 2, latency: 64, dest_id: 0 }],
        has_cycle: false,
    };
    assert_eq!(pdc.recalculate_pdc(false), vec![32, 0]);
    assert_eq!(pdc.recalculate_pdc(true), vec![0, 0]);
}

#[test]
fn detects_cycle_and_marks_nodes_dirty() {
    let mut graph = TopologyOrchestrator {
        nodes: HashMap::from([(1, node(1, 32, 32, vec![2])), (2, node(2, 64, 64, vec![1]))]),
        has_cycle: false,
    };
    graph.solve();
    assert!(graph.has_cycle);
    assert!(graph.nodes.values().all(|node| node.is_dirty));
    assert!(!graph.audit_pdc_graph_solver());
}

#[test]
fn propagates_latency_to_downstream_node() {
    let mut graph = TopologyOrchestrator {
        nodes: HashMap::from([(1, node(1, 128, 128, vec![2])), (2, node(2, 64, 0, Vec::new()))]),
        has_cycle: false,
    };
    graph.solve();
    assert!(!graph.has_cycle);
    assert_eq!(graph.nodes[&1].total_latency, 128);
    assert_eq!(graph.nodes[&2].total_latency, 192);
    assert!(graph.audit_pdc_graph_solver());
}

#[test]
fn audit_rejects_cycle_and_inconsistent_global_latency() {
    let mut solver = pdc_graph_solver::PdcOrchestrator::new();
    let mut nodes = HashMap::from([
        (1, solver_node(1, 128, 128, vec![2])),
        (2, solver_node(2, 64, 64, Vec::new())),
    ]);
    solver.solve(&mut nodes);
    assert!(solver.audit_pdc_graph_solver(&nodes));

    solver.global_project_latency = 1;
    assert!(!solver.audit_pdc_graph_solver(&nodes));
    solver.has_cycle = true;
    assert!(!solver.audit_pdc_graph_solver(&nodes));
}

#[test]
fn audit_rejects_missing_downstream_and_self_routes() {
    let solver = pdc_graph_solver::PdcOrchestrator { global_project_latency: 32, has_cycle: false };
    let missing = HashMap::from([(1, solver_node(1, 32, 32, vec![9]))]);
    assert!(!solver.audit_pdc_graph_solver(&missing));
    let self_route = HashMap::from([(1, solver_node(1, 32, 32, vec![1]))]);
    assert!(!solver.audit_pdc_graph_solver(&self_route));
}


#[test]
fn one_solve_reaches_the_longest_path_totals() {
    let mut solver = pdc_graph_solver::PdcOrchestrator::new();
    let mut nodes = HashMap::from([
        (1, solver_node(1, 128, 0, vec![2])),
        (2, solver_node(2, 64, 0, vec![3])),
        (3, solver_node(3, 32, 0, Vec::new())),
        (4, solver_node(4, 10, 0, vec![3])),
    ]);
    solver.solve(&mut nodes);
    assert!(!solver.has_cycle);
    assert_eq!(nodes[&3].total_latency, 32);
    assert_eq!(nodes[&2].total_latency, 96);
    assert_eq!(nodes[&1].total_latency, 224);
    assert_eq!(nodes[&4].total_latency, 42);
    assert_eq!(solver.global_project_latency, 224);
    assert!(solver.audit_pdc_graph_solver(&nodes));
}

#[test]
fn overflowing_totals_are_refused() {
    let mut solver = pdc_graph_solver::PdcOrchestrator::new();
    let mut nodes = HashMap::from([
        (1, solver_node(1, u32::MAX, 0, vec![2])),
        (2, solver_node(2, 1, 0, Vec::new())),
    ]);
    solver.solve(&mut nodes);
    assert!(solver.has_cycle);
    assert_eq!(nodes[&1].total_latency, 0);
    assert_eq!(solver.global_project_latency, 0);
}
