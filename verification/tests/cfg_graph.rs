use atlas_engine::cfg_graph::{Canceled, CfgGraph, CfgGraphError};
use atlas_engine::collections::IdSet;
use atlas_engine::facts::{CfgEdge, CfgEdgeKind, CfgNode, CfgNodeKind, TextRange};
use atlas_engine::ids::{CfgNodeId, FileId, SymbolId};

fn empty_range() -> TextRange {
    TextRange {
        start_byte: 0,
        end_byte: 0,
        start_line: 0,
        start_column: 0,
        end_line: 0,
        end_column: 0,
    }
}

fn test_symbol_id() -> SymbolId {
    SymbolId::generate(&FileId::generate(b"test.c"), "c", b"test_fn", "function", None)
}

#[test]
fn build_simple_graph() {
    let fid = test_symbol_id();
    let entry = CfgNode::entry(&fid);
    let exit = CfgNode::exit(&fid);
    let nodes = vec![entry.clone(), exit.clone()];
    let edge = CfgEdge::new(&entry.id, &exit.id, CfgEdgeKind::Normal);
    let graph = CfgGraph::build(&nodes, std::slice::from_ref(&edge)).unwrap();
    assert_eq!(graph.nodes.len(), 2);
    assert_eq!(graph.entry, entry.id);
    assert_eq!(graph.exit, exit.id);
    assert_eq!(graph.successors.get(&entry.id).unwrap().len(), 1);
    assert_eq!(graph.predecessors.get(&exit.id).unwrap().len(), 1);
}

#[test]
fn required_branches_handle_shared_targets_budget_and_cancellation() {
    let fid = test_symbol_id();
    let entry = CfgNode::entry(&fid);
    let branch = CfgNode::new(&fid, CfgNodeKind::Branch, empty_range());
    let target = CfgNode::new(&fid, CfgNodeKind::Statement, empty_range());
    let exit = CfgNode::exit(&fid);
    let nodes = [entry.clone(), branch.clone(), target.clone(), exit.clone()];
    let edges = [
        CfgEdge::new(&entry.id, &branch.id, CfgEdgeKind::Normal),
        CfgEdge::new(&branch.id, &target.id, CfgEdgeKind::TrueBranch),
        CfgEdge::new(&branch.id, &target.id, CfgEdgeKind::FalseBranch),
        CfgEdge::new(&target.id, &exit.id, CfgEdgeKind::Normal),
    ];
    let graph = CfgGraph::build(&nodes, &edges).unwrap();
    let targets = IdSet::of(&[target.id]);
    let result = graph
        .required_branches(&targets, &IdSet::new(), 100, &|| false)
        .unwrap();
    assert!(result.target_reachable && result.edges.is_empty() && !result.truncated);
    assert!(
        graph
            .required_branches(&targets, &IdSet::new(), 1, &|| false)
            .unwrap()
            .truncated
    );
    assert!(
        graph
            .required_branches(&targets, &IdSet::new(), 100, &|| true)
            .is_err()
    );
}

#[test]
fn unknown_control_preserves_common_guards_and_rejects_dependent_ones() {
    let fid = test_symbol_id();
    let node = |kind, start_byte| {
        CfgNode::new(
            &fid,
            kind,
            TextRange {
                start_byte,
                ..empty_range()
            },
        )
    };
    let entry = CfgNode::entry(&fid);
    let outer = node(CfgNodeKind::Branch, 1);
    let unknown = node(CfgNodeKind::Statement, 2);
    let inner = node(CfgNodeKind::Branch, 3);
    let target = node(CfgNodeKind::Statement, 4);
    let disconnected = node(CfgNodeKind::Statement, 5);
    let exit = CfgNode::exit(&fid);
    let outer_guard = CfgEdge::new(&outer.id, &unknown.id, CfgEdgeKind::TrueBranch);
    let inner_guard = CfgEdge::new(&inner.id, &target.id, CfgEdgeKind::TrueBranch);
    let edges = [
        CfgEdge::new(&entry.id, &outer.id, CfgEdgeKind::Normal),
        outer_guard.clone(),
        CfgEdge::new(&outer.id, &exit.id, CfgEdgeKind::FalseBranch),
        CfgEdge::new(&unknown.id, &inner.id, CfgEdgeKind::Normal),
        inner_guard.clone(),
        CfgEdge::new(&inner.id, &exit.id, CfgEdgeKind::FalseBranch),
        CfgEdge::new(&target.id, &exit.id, CfgEdgeKind::Normal),
    ];
    let graph = CfgGraph::build(
        &[
            entry,
            outer,
            unknown.clone(),
            inner,
            target.clone(),
            disconnected.clone(),
            exit,
        ],
        &edges,
    )
    .unwrap();
    let targets = IdSet::of(&[target.id]);
    let recorded = graph
        .required_branches(&targets, &IdSet::of(&[disconnected.id]), 1000, &|| false)
        .unwrap();
    assert_eq!(recorded.edges, vec![outer_guard.clone(), inner_guard]);
    let partial = graph
        .required_branches(
            &targets,
            &IdSet::of(&[unknown.id, disconnected.id]),
            1000,
            &|| false,
        )
        .unwrap();
    assert_eq!(partial.edges, vec![outer_guard]);
    assert!(partial.target_reachable && !partial.truncated);
}

#[test]
fn build_missing_entry_errors() {
    let fid = test_symbol_id();
    let stmt = CfgNode::new(&fid, CfgNodeKind::Statement, empty_range());
    assert!(CfgGraph::build(&[stmt], &[]).is_err());
}

#[test]
fn build_dangling_edge_errors() {
    let fid = test_symbol_id();
    let entry = CfgNode::entry(&fid);
    let exit = CfgNode::exit(&fid);
    let nodes = vec![entry.clone(), exit.clone()];
    let dangling = CfgNodeId::generate(&fid, "ghost", 0);
    let edge = CfgEdge::new(&entry.id, &dangling, CfgEdgeKind::Normal);
    assert!(CfgGraph::build(&nodes, &[edge]).is_err());
}

#[test]
fn successors_by_kind_filters() {
    let fid = test_symbol_id();
    let entry = CfgNode::entry(&fid);
    let branch = CfgNode::new(&fid, CfgNodeKind::Branch, empty_range());
    let stmt = CfgNode::new(&fid, CfgNodeKind::Statement, empty_range());
    let exit = CfgNode::exit(&fid);
    let nodes = vec![entry.clone(), branch.clone(), stmt.clone(), exit.clone()];
    let edges = vec![
        CfgEdge::new(&entry.id, &branch.id, CfgEdgeKind::Normal),
        CfgEdge::new(&branch.id, &stmt.id, CfgEdgeKind::TrueBranch),
        CfgEdge::new(&branch.id, &exit.id, CfgEdgeKind::FalseBranch),
        CfgEdge::new(&stmt.id, &exit.id, CfgEdgeKind::Normal),
    ];
    let graph = CfgGraph::build(&nodes, &edges).unwrap();
    let true_edges = graph.successors_by_kind(&branch.id, CfgEdgeKind::TrueBranch);
    assert_eq!(true_edges.len(), 1);
    assert_eq!(true_edges[0].target, stmt.id);
}

#[test]
fn reachable_from_entry_excludes_disconnected_syntax() {
    let fid = test_symbol_id();
    let entry = CfgNode::entry(&fid);
    let live = CfgNode::new(&fid, CfgNodeKind::Statement, empty_range());
    let mut dead = CfgNode::new(&fid, CfgNodeKind::Branch, empty_range());
    dead.id = CfgNodeId::generate(&fid, "dead", 1);
    let exit = CfgNode::exit(&fid);
    let nodes = vec![entry.clone(), live.clone(), dead.clone(), exit.clone()];
    let edges = vec![
        CfgEdge::new(&entry.id, &live.id, CfgEdgeKind::Normal),
        CfgEdge::new(&live.id, &exit.id, CfgEdgeKind::Normal),
        CfgEdge::new(&dead.id, &exit.id, CfgEdgeKind::Normal),
    ];
    let graph = CfgGraph::build(&nodes, &edges).unwrap();
    let reachable = graph.reachable_from_entry();

    assert!(reachable.contains(&entry.id));
    assert!(reachable.contains(&live.id));
    assert!(reachable.contains(&exit.id));
    assert!(!reachable.contains(&dead.id));
}

#[test]
fn each_defect_of_a_graph_has_its_error() {
    let fid = test_symbol_id();
    let entry = CfgNode::entry(&fid);
    let exit = CfgNode::exit(&fid);
    let ghost = CfgNodeId::generate(&fid, "ghost", 0);
    let both = [entry, exit];
    let from_ghost = CfgEdge::new(&ghost, &exit.id, CfgEdgeKind::Normal);
    let to_ghost = CfgEdge::new(&entry.id, &ghost, CfgEdgeKind::Normal);
    assert_eq!(
        CfgGraph::build(&both, &[from_ghost]).unwrap_err(),
        CfgGraphError::SourceMissing(ghost)
    );
    assert_eq!(
        CfgGraph::build(&both, &[to_ghost]).unwrap_err(),
        CfgGraphError::TargetMissing(ghost)
    );
    assert_eq!(CfgGraph::build(&[exit], &[]).unwrap_err(), CfgGraphError::NoEntry);
    assert_eq!(CfgGraph::build(&[entry], &[]).unwrap_err(), CfgGraphError::NoExit);
    let mut second = entry;
    second.id = CfgNodeId::generate(&fid, "entry", 7);
    assert_eq!(
        CfgGraph::build(&[entry, second, exit], &[]).unwrap_err(),
        CfgGraphError::ManyEntries
    );
    let mut second = exit;
    second.id = CfgNodeId::generate(&fid, "exit", 7);
    assert_eq!(
        CfgGraph::build(&[second, entry, exit], &[]).unwrap_err(),
        CfgGraphError::ManyExits
    );
    let graph = CfgGraph::build(&[exit, entry], &[]).unwrap();
    assert_eq!((graph.entry, graph.exit), (entry.id, exit.id));
}

#[test]
fn a_guard_of_one_arm_is_required_and_a_cancelled_search_says_so() {
    let fid = test_symbol_id();
    let entry = CfgNode::entry(&fid);
    let branch = CfgNode::new(&fid, CfgNodeKind::Branch, empty_range());
    let target = CfgNode::new(&fid, CfgNodeKind::Statement, empty_range());
    let exit = CfgNode::exit(&fid);
    let taken = CfgEdge::new(&branch.id, &target.id, CfgEdgeKind::TrueBranch);
    let edges = [
        CfgEdge::new(&entry.id, &branch.id, CfgEdgeKind::Normal),
        taken,
        CfgEdge::new(&branch.id, &exit.id, CfgEdgeKind::FalseBranch),
        CfgEdge::new(&target.id, &exit.id, CfgEdgeKind::Normal),
    ];
    let graph = CfgGraph::build(&[entry, branch, target, exit], &edges).unwrap();
    let required = graph
        .required_branches(&IdSet::of(&[target.id]), &IdSet::new(), 100, &|| false)
        .unwrap();
    assert_eq!(required.edges, vec![taken]);
    let none = graph
        .required_branches(&IdSet::new(), &IdSet::new(), 100, &|| false)
        .unwrap();
    assert!(!none.target_reachable && none.edges.is_empty());
    assert_eq!(
        graph
            .required_branches(&IdSet::of(&[target.id]), &IdSet::new(), 100, &|| true)
            .unwrap_err(),
        Canceled
    );
}
