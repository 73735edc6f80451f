use atlas_engine::facts::{
    Callsite, DataFlowEdge, DataFlowKind, DataNode, DataNodeKind, DiagnosticLevel,
    ExtractDiagnostic, FileInfo, Language, ResolvedCallsite, TextRange,
};
use atlas_engine::ids::{CallsiteId, DataFlowEdgeId, DataNodeId, FileId, SymbolId};
use atlas_engine::store::{FileDiagnostic, Store};
use atlas_engine::text::Text;
use atlas_engine::trace::path::{EdgeDetail, Finding, TraceDiagnostic, TraceEdge, TracePath, TracePoint};
use atlas_engine::trace::slicer::Slicer;

fn node(name: &str, kind: DataNodeKind, byte: u32) -> DataNode {
    let file_id = FileId::generate(b"trace.ts");
    DataNode {
        id: DataNodeId::generate(&file_id, None, kind.as_str(), Some(name.as_bytes()), None, byte),
        file_id,
        function_id: None,
        kind,
        binding_id: None,
        callsite_id: None,
        name: Some(Text::new(name)),
        access_path: None,
        arg_index: None,
        range: TextRange {
            start_byte: byte,
            end_byte: byte + 1,
            start_line: 0,
            end_line: 0,
            start_column: byte,
            end_column: byte + 1,
        },
    }
}

fn edge(from: &DataNode, to: &DataNode, kind: DataFlowKind) -> DataFlowEdge {
    DataFlowEdge::new(
        DataFlowEdgeId::generate(&from.id, &to.id, kind.as_str()),
        from.id,
        to.id,
        kind,
        to.range,
        90,
    )
}

fn store(
    nodes: Vec<DataNode>,
    edges: Vec<DataFlowEdge>,
    diagnostics: Vec<ExtractDiagnostic>,
) -> Store {
    let file_id = FileId::generate(b"trace.ts");
    let mut store = Store::new();
    store.files.push(FileInfo {
        file_id,
        path: Text::new("trace.ts"),
        language: Language::TypeScript,
    });
    store.data_nodes = nodes;
    store.dataflow_edges = edges;
    store.file_diagnostics = diagnostics
        .into_iter()
        .map(|diagnostic| FileDiagnostic { file_id, diagnostic })
        .collect();
    store
}

fn point(node: &DataNode) -> TracePoint {
    TracePoint {
        data_node: Some(node.clone()),
        call_context: vec![],
        file_id: node.file_id,
        line: node.range.start_line + 1,
        column: node.range.start_column + 1,
        capability: None,
        partial_result: false,
        diagnostics: vec![],
    }
}

fn trace(store: &Store, sink: &DataNode, depth: usize) -> TracePath {
    Slicer::slice(store, &point(sink), depth, None, &[]).unwrap()
}

fn has_code(path: &TracePath, code: &str) -> bool {
    path.diagnostics.iter().any(|d| d.code() == Some(Text::new(code)))
}

fn frontier<'a>(path: &'a TracePath, code: &str) -> (&'a [EdgeDetail], usize, bool) {
    match path
        .diagnostics
        .iter()
        .find(|d| d.code() == Some(Text::new(code)))
        .unwrap()
    {
        TraceDiagnostic::Frontier { edges, total_edges, details_truncated, .. } => {
            (edges.as_slice(), *total_edges, *details_truncated)
        }
        other => panic!("not a frontier: {other:?}"),
    }
}

fn source_id(path: &TracePath) -> DataNodeId {
    path.source.data_node.as_ref().unwrap().id
}

fn assert_contiguous(path: &TracePath) {
    let mut current = path.source.data_node.as_ref().unwrap().id;
    for (index, step) in path.steps.iter().enumerate() {
        assert_eq!(step.index as usize, index);
        assert_eq!(step.from_node_id, current);
        current = step.to_node_id;
    }
    assert_eq!(current, path.sink.data_node.as_ref().unwrap().id);
}

#[test]
fn exact_node_selection_preserves_incident_edges_and_depth_limits() {
    let first = node("1", DataNodeKind::Literal, 0);
    let second = node("2", DataNodeKind::Literal, 10);
    let preferred = node("shared", DataNodeKind::Local, 20);
    let requested = node("shared", DataNodeKind::Expr, 20);
    let sink = node("sink", DataNodeKind::Expr, 30);
    let store = store(
        vec![
            first.clone(),
            second.clone(),
            preferred.clone(),
            requested.clone(),
            sink.clone(),
        ],
        vec![
            edge(&first, &preferred, DataFlowKind::Assign),
            edge(&second, &requested, DataFlowKind::Assign),
            edge(&requested, &sink, DataFlowKind::Assign),
        ],
        vec![],
    );
    assert_eq!(store.get_data_node(&requested.id), Some(&requested));
    for depth in [0, 20] {
        let path = trace(&store, &requested, depth);
        assert_eq!(path.sink.data_node.as_ref().unwrap().id, requested.id);
        assert_eq!(
            source_id(&path),
            if depth == 0 { requested.id } else { second.id }
        );
        assert_eq!(path.partial_result, depth == 0);
        assert_contiguous(&path);
    }
}

#[test]
fn absent_node_identity_does_not_fall_back_to_an_existing_position() {
    let existing = node("existing", DataNodeKind::Literal, 0);
    let absent = node("absent", DataNodeKind::Literal, 0);
    let store = store(vec![existing], vec![], vec![]);
    assert!(store.get_data_node(&absent.id).is_none());
    let nowhere = TracePoint { data_node: None, ..point(&absent) };
    assert!(Slicer::slice(&store, &nowhere, 10, None, &[]).is_none());
}

#[test]
fn branch_frontier_identity_disambiguates_an_overlapping_location() {
    let first = node("first", DataNodeKind::Parameter, 0);
    let second = node("second", DataNodeKind::Parameter, 10);
    let decoy = node("another value", DataNodeKind::Local, 0);
    let sink = node("sink", DataNodeKind::Expr, 20);
    let store = store(
        vec![first.clone(), second.clone(), decoy.clone(), sink.clone()],
        vec![
            edge(&first, &sink, DataFlowKind::Phi),
            edge(&second, &sink, DataFlowKind::Phi),
        ],
        vec![],
    );
    let path = trace(&store, &sink, 20);
    assert_eq!(source_id(&path), second.id);
    let expected = frontier(&path, "trace_alternatives_unexpanded").0[0].source_id;
    assert_eq!(expected, first.id);
    let continued = trace(&store, store.get_data_node(&expected).unwrap(), 20);
    assert!(!continued.partial_result);
    assert_eq!(source_id(&continued), first.id);
}

#[test]
fn branch_alternative_is_located_and_can_be_traced_separately() {
    let first = node("first", DataNodeKind::Parameter, 0);
    let second = node("second", DataNodeKind::Parameter, 10);
    let merged = node("merged", DataNodeKind::Expr, 20);
    let sink = node("sink", DataNodeKind::Local, 30);
    let store = store(
        vec![first.clone(), second.clone(), merged.clone(), sink.clone()],
        vec![
            edge(&first, &merged, DataFlowKind::Phi),
            edge(&second, &merged, DataFlowKind::Phi),
            edge(&merged, &sink, DataFlowKind::Assign),
        ],
        vec![],
    );
    let path = trace(&store, &sink, 20);
    assert!(path.partial_result);
    assert_contiguous(&path);
    let (edges, total, _) = frontier(&path, "trace_alternatives_unexpanded");
    assert_eq!(total, 1);
    let position = edges[0].position.as_ref().unwrap();
    let other = store.get_data_node(&position.data_node_id).unwrap();
    assert_eq!((position.line, position.column), (1, other.range.start_column + 1));
    let next = trace(&store, other, 20);
    assert!(!next.partial_result);
    let mut sources = vec![source_id(&path), source_id(&next)];
    sources.sort();
    let mut expected = vec![first.id, second.id];
    expected.sort();
    assert_eq!(sources, expected);
}

#[test]
fn zero_and_exact_depth_limits_propagate_to_the_response() {
    let origin = node("7", DataNodeKind::Literal, 0);
    let middle = node("middle", DataNodeKind::Local, 10);
    let sink = node("sink", DataNodeKind::Expr, 20);
    let store = store(
        vec![origin.clone(), middle.clone(), sink.clone()],
        vec![
            edge(&origin, &middle, DataFlowKind::Assign),
            edge(&middle, &sink, DataFlowKind::Assign),
        ],
        vec![],
    );
    for depth in 0..=2 {
        let path = trace(&store, &sink, depth);
        assert_eq!(path.steps.len(), depth);
        assert_eq!(path.max_depth_reached, depth);
        assert_eq!(path.nodes_visited, depth + 1);
        assert_eq!(path.partial_result, depth < 2);
        assert_contiguous(&path);
        assert_eq!(has_code(&path, "max_depth_truncated"), depth < 2);
    }
}

#[test]
fn virtual_only_predecessor_at_depth_limit_is_not_reported_as_complete() {
    let origin = node("input", DataNodeKind::Parameter, 0);
    let sink = node("result", DataNodeKind::Expr, 10);
    let store = store(vec![origin.clone(), sink.clone()], vec![], vec![]);
    let provided = [TraceEdge {
        source_id: origin.id,
        target_id: sink.id,
        kind: DataFlowKind::ReturnToCall,
        callsite_id: None,
        confidence: 90,
        provenance: Text::new("test boundary"),
    }];
    for depth in [0, 10] {
        let path = Slicer::slice(&store, &point(&sink), depth, Some(&provided), &[]).unwrap();
        assert!(path.partial_result && path.steps.is_empty());
        assert_eq!(has_code(&path, "max_depth_truncated"), depth == 0);
        let (edges, _, _) = frontier(&path, "trace_call_context_unavailable");
        let position = edges[0].position.as_ref().unwrap();
        assert_eq!(position.data_node_id, origin.id);
        assert!(position.call_context.is_none());
        assert_contiguous(&path);
    }
}

#[test]
fn a_cycle_does_not_hide_an_unvisited_input_or_break_the_displayed_chain() {
    let origin = node("input", DataNodeKind::Parameter, 0);
    let update = node("value", DataNodeKind::Local, 10);
    let sink = node("sink", DataNodeKind::Expr, 20);
    let store = store(
        vec![origin.clone(), update.clone(), sink.clone()],
        vec![
            edge(&origin, &update, DataFlowKind::Assign),
            edge(&update, &update, DataFlowKind::Assign),
            edge(&update, &sink, DataFlowKind::Assign),
        ],
        vec![],
    );
    let path = trace(&store, &sink, 20);
    assert!(path.partial_result);
    assert_eq!(source_id(&path), origin.id);
    assert!(has_code(&path, "trace_cycle_unexpanded"));
    assert_contiguous(&path);
}

#[test]
fn missing_source_node_keeps_a_real_endpoint_and_reports_the_dangling_edge() {
    let absent = node("absent", DataNodeKind::Parameter, 0);
    let sink = node("sink", DataNodeKind::Expr, 10);
    let store = store(vec![sink.clone()], vec![], vec![]);
    let provided = [TraceEdge {
        source_id: absent.id,
        target_id: sink.id,
        kind: DataFlowKind::ArgToParam,
        callsite_id: None,
        confidence: 90,
        provenance: Text::new("missing node"),
    }];
    let path = Slicer::slice(&store, &point(&sink), 10, Some(&provided), &[]).unwrap();
    assert!(path.partial_result);
    assert_eq!(path.source.data_node.as_ref().unwrap(), &sink);
    let (edges, _, _) = frontier(&path, "trace_data_node_missing");
    assert!(edges[0].position.is_none());
    assert_contiguous(&path);
}

#[test]
fn extraction_limits_only_propagate_when_global_or_touching_the_path() {
    let origin = node("7", DataNodeKind::Literal, 0);
    let sink = node("sink", DataNodeKind::Local, 10);
    for (range, expected) in [
        (Some(sink.range), true),
        (
            Some(node("adjacent_before", DataNodeKind::Expr, 9).range),
            false,
        ),
        (
            Some(node("adjacent_after", DataNodeKind::Expr, 11).range),
            false,
        ),
        (
            Some(TextRange {
                end_byte: 10,
                end_column: 10,
                ..sink.range
            }),
            true,
        ),
        (
            Some(node("unrelated", DataNodeKind::Expr, 100).range),
            false,
        ),
        (None, true),
    ] {
        let store = store(
            vec![origin.clone(), sink.clone()],
            vec![edge(&origin, &sink, DataFlowKind::Assign)],
            vec![ExtractDiagnostic {
                level: DiagnosticLevel::Warning,
                message: Text::new("use_def_limit"),
                range,
            }],
        );
        let path = trace(&store, &sink, 20);
        assert_eq!(path.partial_result, expected);
        assert_eq!(has_code(&path, "trace_extraction_limit"), expected);
    }
}

#[test]
fn empty_non_input_endpoint_is_explicitly_unknown() {
    let sink = node("opaque", DataNodeKind::CallTarget, 0);
    let path = trace(&store(vec![sink.clone()], vec![], vec![]), &sink, 20);
    assert!(path.partial_result);
    assert!(has_code(&path, "trace_origin_unestablished"));
    assert_contiguous(&path);
}

#[test]
fn alternative_details_are_bounded_without_claiming_the_remaining_edges_were_shown() {
    let sink = node("sink", DataNodeKind::Expr, 1000);
    let mut nodes: Vec<_> = (0..132)
        .map(|i| node(&format!("input_{i}"), DataNodeKind::Parameter, i * 2))
        .collect();
    let edges = nodes
        .iter()
        .map(|n| edge(n, &sink, DataFlowKind::Phi))
        .collect();
    nodes.push(sink.clone());
    let path = trace(&store(nodes, edges, vec![]), &sink, 20);
    let (edges, total, truncated) = frontier(&path, "trace_alternatives_unexpanded");
    assert_eq!(total, 131);
    assert_eq!(edges.len(), 128);
    assert!(truncated);
    assert!(path.partial_result);
}

#[test]
fn a_call_boundary_is_crossed_with_its_invocation_and_excluded_exits_are_reported() {
    let file_id = FileId::generate(b"trace.ts");
    let caller = SymbolId::generate(&file_id, "type_script", b"caller", "function", None);
    let callee = SymbolId::generate(&file_id, "type_script", b"callee", "function", None);
    let mut returned = node("returned", DataNodeKind::Return, 0);
    returned.function_id = Some(callee);
    let mut result = node("result", DataNodeKind::CallReturn, 10);
    result.function_id = Some(caller);
    let call = Callsite {
        id: CallsiteId::from_file_range(&file_id, 10, 11),
        caller,
        range: result.range,
    };
    result.callsite_id = Some(call.id);
    let literal = node("7", DataNodeKind::Literal, 5);
    let mut literal = literal;
    literal.function_id = Some(callee);
    let mut store = store(
        vec![returned.clone(), result.clone(), literal.clone()],
        vec![edge(&literal, &returned, DataFlowKind::ReturnValue)],
        vec![],
    );
    store.callsites.push(call);
    store.resolved_callsites.push(ResolvedCallsite { callsite: call, callee });
    let provided = [TraceEdge {
        source_id: returned.id,
        target_id: result.id,
        kind: DataFlowKind::ReturnToCall,
        callsite_id: Some(call.id),
        confidence: 90,
        provenance: Text::new("resolved call"),
    }];
    let path = Slicer::slice(&store, &point(&result), 10, Some(&provided), &[]).unwrap();
    assert_eq!(source_id(&path), literal.id);
    assert_eq!(path.steps.len(), 2);
    assert_eq!(path.source.call_context, vec![call.id]);
    assert_contiguous(&path);
    let excluded = [(returned.id, vec![call.id])];
    let path = Slicer::slice(&store, &point(&result), 10, Some(&provided), &excluded).unwrap();
    assert!(path.steps.is_empty() && path.partial_result);
    assert!(has_code(&path, Finding::ReturnConditionExcluded.code()));
}

#[test]
fn a_path_tells_which_edges_it_asked_for() {
    let origin = node("1", DataNodeKind::Literal, 0);
    let middle = node("middle", DataNodeKind::Local, 10);
    let aside = node("aside", DataNodeKind::Local, 15);
    let sink = node("sink", DataNodeKind::Expr, 20);
    let store = store(
        vec![origin.clone(), middle.clone(), aside.clone(), sink.clone()],
        vec![
            edge(&origin, &middle, DataFlowKind::Assign),
            edge(&middle, &sink, DataFlowKind::Read),
        ],
        vec![],
    );
    let path = trace(&store, &sink, 10);
    assert_eq!(Slicer::asked_nodes(&store, &path), [sink.id, middle.id, origin.id]);
    // An edge into another node changes nothing.
    let other = TraceEdge {
        source_id: origin.id,
        target_id: aside.id,
        kind: DataFlowKind::Assign,
        callsite_id: None,
        confidence: 90,
        provenance: Text::new("test boundary"),
    };
    let same = Slicer::slice(&store, &point(&sink), 10, Some(&[other]), &[]).unwrap();
    assert_eq!(same.steps.len(), path.steps.len());
    assert_eq!(source_id(&same), source_id(&path));
    // Where the invocation is not established nothing is asked for.
    let mut inside = point(&sink);
    inside.call_context = vec![CallsiteId::from_file_range(&sink.file_id, 0, 1)];
    let path = Slicer::slice(&store, &inside, 10, None, &[]).unwrap();
    assert!(has_code(&path, "trace_call_context_unavailable"));
    assert_eq!(Slicer::asked_nodes(&store, &path), []);
}
