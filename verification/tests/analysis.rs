use stackscope::sdt::abstract_interpreter::AnalysisFinding;
use stackscope::sdt::diff_engine::DiffFinding;
use petgraph::graph::NodeIndex;
use stackscope::sdt::abstract_interpreter::WcsdEngine;
use stackscope::sdt::cycle_detector::CycleDetector;
use stackscope::sdt::diff_engine::DiffEngine;
use stackscope::types::{CallType, ExecutionGraph, WcfgEdge, WcfgNode};

fn graph(nodes: &[(u64, &str, usize)], edges: &[(usize, usize)]) -> ExecutionGraph {
    let mut eg = ExecutionGraph::new();
    for &(address, name, frame) in nodes {
        let idx = eg.graph.add_node(WcfgNode {
            physical_address: address,
            symbol_name: name.to_string(),
            physical_frame_size_bytes: frame,
            symbol_size_bytes: 4,
        });
        eg.address_map.insert(address, idx.index());
    }
    for &(a, b) in edges {
        eg.graph.add_edge(NodeIndex::new(a), NodeIndex::new(b), WcfgEdge { call_type: CallType::Direct });
    }
    eg
}

fn acyclic() -> ExecutionGraph {
    graph(
        &[(0x100, "main", 16), (0x200, "function_a", 32), (0x300, "function_b", 8), (0x400, "function_c", 100)],
        &[(0, 1), (0, 2), (1, 3)],
    )
}

fn recursive() -> ExecutionGraph {
    graph(&[(0x100, "main", 16), (0x200, "recursive_function", 128)], &[(0, 1), (1, 1)])
}

#[test]
fn acyclic_graph_has_bounded_depth() {
    let r = WcsdEngine::analyze(&acyclic(), 0, 512);
    assert!(!r.is_unbounded);
    assert!(!r.budget_exceeded);
    assert_eq!(r.max_depth_bytes, 148);
    assert_eq!(r.critical_path, vec!["main", "function_a", "function_c"]);
}

#[test]
fn recursion_makes_depth_unbounded() {
    let r = WcsdEngine::analyze(&recursive(), 0, 100);
    assert!(r.is_unbounded);
    assert!(r.budget_exceeded);
    assert_eq!(r.max_depth_bytes, 144);
    assert_eq!(r.critical_path, vec!["main", "recursive_function"]);
}

#[test]
fn recursion_exceeds_even_a_large_budget() {
    let r = WcsdEngine::analyze(&recursive(), 0, usize::MAX);
    assert!(r.budget_exceeded);
}

#[test]
fn budget_is_compared_strictly() {
    assert!(!WcsdEngine::analyze(&acyclic(), 0, 148).budget_exceeded);
    assert!(WcsdEngine::analyze(&acyclic(), 0, 147).budget_exceeded);
}

#[test]
fn analysis_starts_at_the_entry() {
    let r = WcsdEngine::analyze(&acyclic(), 1, 512);
    assert_eq!(r.max_depth_bytes, 132);
    assert_eq!(r.critical_path, vec!["function_a", "function_c"]);
}

#[test]
fn ties_keep_the_first_path_searched() {
    // Calls are searched most recently added first, and only a strictly deeper path replaces the critical path.
    let eg = graph(&[(0x100, "main", 4), (0x200, "left", 10), (0x300, "right", 10)], &[(0, 1), (0, 2)]);
    let r = WcsdEngine::analyze(&eg, 0, 100);
    assert_eq!(r.max_depth_bytes, 14);
    assert_eq!(r.critical_path, vec!["main", "right"]);
}

#[test]
fn zero_frames_leave_the_critical_path_empty() {
    let eg = graph(&[(0x100, "main", 0), (0x200, "leaf", 0)], &[(0, 1)]);
    let r = WcsdEngine::analyze(&eg, 0, 0);
    assert_eq!(r.max_depth_bytes, 0);
    assert!(r.critical_path.is_empty());
    assert!(!r.budget_exceeded);
}

#[test]
fn indirect_recursion_is_unbounded() {
    let eg = graph(&[(0x100, "main", 8), (0x200, "ping", 8), (0x300, "pong", 8)], &[(0, 1), (1, 2), (2, 1)]);
    let r = WcsdEngine::analyze(&eg, 0, 1000);
    assert!(r.is_unbounded);
    assert!(r.budget_exceeded);
    assert_eq!(r.max_depth_bytes, 24);
}

#[test]
fn recursion_outside_the_reachable_part_is_ignored() {
    let eg = graph(&[(0x100, "main", 8), (0x200, "leaf", 8), (0x300, "loop", 8)], &[(0, 1), (2, 2)]);
    let r = WcsdEngine::analyze(&eg, 0, 1000);
    assert!(!r.is_unbounded);
    assert_eq!(r.max_depth_bytes, 16);
}

#[test]
fn shared_callee_is_counted_on_each_path() {
    let eg = graph(
        &[(0x100, "main", 1), (0x200, "a", 2), (0x300, "b", 30), (0x400, "shared", 100)],
        &[(0, 1), (0, 2), (1, 3), (2, 3)],
    );
    let r = WcsdEngine::analyze(&eg, 0, 1000);
    assert!(!r.is_unbounded);
    assert_eq!(r.max_depth_bytes, 131);
    assert_eq!(r.critical_path, vec!["main", "b", "shared"]);
}

#[test]
fn diff_reports_regression_and_new_recursion() {
    let base = acyclic();
    let cand = recursive();
    let d = DiffEngine::diff(&base, &cand, 0, 0, usize::MAX);
    assert_eq!(d.baseline_depth_bytes, 148);
    assert_eq!(d.candidate_depth_bytes, 144);
    assert_eq!(d.stack_delta_bytes, -4);
    assert!(!d.baseline_unbounded);
    assert!(d.candidate_unbounded);
    assert!(d.new_recursion_introduced);
    assert_eq!(d.candidate_critical_path, vec!["main", "recursive_function"]);
    assert!(d.regression_detected());
}

#[test]
fn diff_of_identical_images_is_neutral() {
    let d = DiffEngine::diff(&acyclic(), &acyclic(), 0, 0, 10);
    assert_eq!(d.stack_delta_bytes, 0);
    assert!(!d.new_recursion_introduced);
    assert!(!d.regression_detected());
}

#[test]
fn removed_recursion_is_not_new_recursion() {
    let d = DiffEngine::diff(&recursive(), &acyclic(), 0, 0, 10);
    assert!(d.baseline_unbounded);
    assert!(!d.new_recursion_introduced);
    assert_eq!(d.stack_delta_bytes, 4);
    assert!(d.regression_detected());
}

#[test]
fn build_diff_takes_the_candidate_path() {
    let base = WcsdEngine::analyze(&acyclic(), 0, 512);
    let cand = WcsdEngine::analyze(&acyclic(), 1, 512);
    let d = DiffEngine::build_diff(base, cand);
    assert_eq!(d.stack_delta_bytes, -16);
    assert_eq!(d.candidate_critical_path, vec!["function_a", "function_c"]);
    assert!(!d.regression_detected());
}

#[test]
fn cycles_are_the_recursive_components() {
    let eg = graph(
        &[(0x10, "main", 0), (0x20, "ping", 0), (0x30, "pong", 0), (0x40, "self_rec", 0), (0x50, "leaf", 0)],
        &[(0, 1), (1, 2), (2, 1), (0, 3), (3, 3), (0, 4)],
    );
    let cycles = CycleDetector::detect_cycles(&eg);
    assert_eq!(cycles.len(), 2);
    let mut found: Vec<Vec<u64>> = cycles
        .iter()
        .map(|c| {
            let mut a = c.participating_addresses.clone();
            a.sort();
            a
        })
        .collect();
    found.sort();
    assert_eq!(found, vec![vec![0x20, 0x30], vec![0x40]]);
    for c in &cycles {
        assert_eq!(c.participating_addresses.len(), c.symbols.len());
    }
}

#[test]
fn acyclic_graph_has_no_cycles() {
    assert!(CycleDetector::detect_cycles(&acyclic()).is_empty());
    let cycles = CycleDetector::detect_cycles(&recursive());
    assert_eq!(cycles.len(), 1);
    assert_eq!(cycles[0].symbols, vec!["recursive_function"]);
    assert_eq!(cycles[0].participating_addresses, vec![0x200]);
}

#[test]
fn new_graph_is_empty() {
    let eg = ExecutionGraph::new();
    assert_eq!(eg.graph.node_count(), 0);
    assert_eq!(eg.graph.edge_count(), 0);
    assert!(eg.address_map.is_empty());
}

#[test]
fn total_frames_bound_every_path() {
    assert_eq!(WcsdEngine::total_frame_bytes(&acyclic()), Some(156));
    let huge = graph(&[(0x100, "a", usize::MAX), (0x200, "b", 1)], &[]);
    assert_eq!(WcsdEngine::total_frame_bytes(&huge), None);
}

#[test]
fn entry_is_found_by_name() {
    let eg = graph(&[(0x100, "main", 0), (0x200, "dup", 0), (0x300, "dup", 0)], &[]);
    assert_eq!(eg.find_symbol(&"main".to_string()), Some(0));
    assert_eq!(eg.find_symbol(&"dup".to_string()), Some(1));
    assert_eq!(eg.find_symbol(&"missing".to_string()), None);
}

#[test]
fn checked_analysis_refuses_depths_past_usize() {
    let r = WcsdEngine::analyze_checked(&acyclic(), 0, 100).expect("the depths fit");
    assert_eq!(r.max_depth_bytes, 148);
    assert!(r.budget_exceeded);
    assert_eq!(r.finding(), Some(AnalysisFinding::BudgetExceeded { max_depth_bytes: 148 }));
    let huge = graph(&[(0x100, "a", usize::MAX), (0x200, "b", 1)], &[(0, 1)]);
    assert!(WcsdEngine::analyze_checked(&huge, 0, 0).is_none());
    let fits = graph(&[(0x100, "a", usize::MAX), (0x200, "b", 1)], &[]);
    assert_eq!(WcsdEngine::analyze_checked(&fits, 0, 0).map(|r| r.max_depth_bytes), Some(usize::MAX));
}

#[test]
fn findings_follow_the_results() {
    assert_eq!(WcsdEngine::analyze(&acyclic(), 0, 512).finding(), None);
    assert_eq!(WcsdEngine::analyze(&recursive(), 0, 512).finding(), Some(AnalysisFinding::UnboundedStack));
    assert_eq!(DiffEngine::diff(&acyclic(), &recursive(), 0, 0, 10).finding(), Some(DiffFinding::NewRecursion));
    assert_eq!(
        DiffEngine::diff(&recursive(), &acyclic(), 0, 0, 10).finding(),
        Some(DiffFinding::StackGrowth { delta_bytes: 4 })
    );
    assert_eq!(DiffEngine::diff(&acyclic(), &acyclic(), 0, 0, 10).finding(), None);
}

#[test]
fn diff_reports_a_changed_critical_path() {
    let d = DiffEngine::diff(&acyclic(), &acyclic(), 0, 0, 10);
    assert!(!d.critical_path_changed);
    let d = DiffEngine::diff(&acyclic(), &recursive(), 0, 0, 10);
    assert!(d.critical_path_changed);
    let base = WcsdEngine::analyze(&acyclic(), 0, 512);
    let cand = WcsdEngine::analyze(&acyclic(), 1, 512);
    assert!(DiffEngine::build_diff(base, cand).critical_path_changed);
}

#[test]
fn no_reported_cycle_means_bounded_depth() {
    let eg = acyclic();
    assert!(CycleDetector::detect_cycles(&eg).is_empty());
    for entry in 0..eg.graph.node_count() {
        assert!(!WcsdEngine::analyze(&eg, entry, 0).is_unbounded);
    }
}

#[test]
fn budget_decides_only_whether_it_is_exceeded() {
    let small = WcsdEngine::analyze(&acyclic(), 0, 100);
    let large = WcsdEngine::analyze(&acyclic(), 0, 1000);
    assert_eq!(small.max_depth_bytes, large.max_depth_bytes);
    assert_eq!(small.critical_path, large.critical_path);
    assert!(small.budget_exceeded);
    assert!(!large.budget_exceeded);
}
