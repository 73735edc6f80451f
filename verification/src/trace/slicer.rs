//! Backward dataflow slicing: how a value reaches a point.
//!
//! The slicer walks backward through dataflow edges from a sink node and shows one
//! recorded path. Alternative edges and analysis boundaries stay explicit
//! diagnostics with positions for further investigation.
//!
//! 1. Start from the sink node of the trace point.
//! 2. At each step select one unvisited predecessor, always the same for the same
//!    facts; report omitted alternatives, cycles and depth limits.
//! 3. Turn the walk round into a path from source to sink, without claiming that
//!    its first node is the only origin or that the analysis is complete.
//!
//! Recorded calls restrict call boundaries, but do not prove runtime feasibility or
//! exhaustive coverage. A single path cannot show all origins or loop iterations.

use crate::collections::{
    copy_ids, in_order, key_views, lemma_filter_step, ordered_rows, ordered_rows_is_a_permutation,
    same_ids, stable_order,
};
use crate::facts::{
    DataFlowEdge, DataFlowKind, DataNode, DataNodeKind, DiagnosticLevel, ExtractDiagnostic,
    ExtractDiagnosticView,
};
use crate::ids::{CallsiteId, DataNodeId, FileId};
use crate::store::{
    find_callsite, find_file, find_node, lemma_found_node, FileDiagnostic, Store, UnitDiagnostic,
};
use crate::trace::call_context::{
    in_context, returns_to_call, transition_spec, CallContexts, Candidate, CandidateView,
    Transition, TransitionView,
};
use crate::trace::path::{
    copy_diagnostics, detail_views, diagnostic_views, one_more, position_of, step_views, EdgeDetail,
    EdgeDetailView, Evidence, Finding, Position, TraceDiagnostic, TraceDiagnosticView, TraceEdge,
    TracePath, TracePathStep, TracePathStepView, TracePathView, TracePoint, TracePointView,
};
use vstd::prelude::*;

verus! {

/// The most edges that one diagnostic lists.
pub const MAX_DETAIL_EDGES: usize = 128;

/// Produces a backward dataflow trace from a trace point.
pub struct Slicer;

/// What a trace reads.
pub struct TraceInputs {
    pub store: Store,
    pub virtual_edges: Option<Seq<TraceEdge>>,
    pub excluded_returns: Seq<(DataNodeId, Seq<CallsiteId>)>,
    pub max_depth: nat,
}

/// How far a trace has come. The steps stand from the sink backwards.
#[verifier::ext_equal]
pub struct TraceState {
    pub current: DataNode,
    pub context: Seq<CallsiteId>,
    pub steps: Seq<TracePathStepView>,
    pub visited: Seq<(DataNodeId, Seq<CallsiteId>)>,
    pub diagnostics: Seq<TraceDiagnosticView>,
    pub reported: Seq<(FileId, ExtractDiagnosticView)>,
    pub truncated: bool,
}

/// The kinds of edges that a trace follows backward: assignment, reads and writes,
/// field access and the mappings at calls.
pub open spec fn traced(kind: DataFlowKind) -> bool {
    match kind {
        DataFlowKind::Assign => true,
        DataFlowKind::Read => true,
        DataFlowKind::Write => true,
        DataFlowKind::FieldLoad => true,
        DataFlowKind::FieldStore => true,
        DataFlowKind::ArgToCall => true,
        DataFlowKind::ArgToParam => true,
        DataFlowKind::ReturnValue => true,
        DataFlowKind::ReturnToCall => true,
        DataFlowKind::WritebackToCall => true,
        DataFlowKind::ReceiverToThis => true,
        DataFlowKind::StateFlow => true,
        DataFlowKind::Phi => true,
    }
}

/// Whether a trace follows edges of this kind backward.
pub fn should_trace_backward(kind: &DataFlowKind) -> (r: bool)
    ensures
        r == traced(*kind),
{
    matches!(
        kind,
        DataFlowKind::Assign | DataFlowKind::Read | DataFlowKind::Write | DataFlowKind::FieldLoad
        | DataFlowKind::FieldStore | DataFlowKind::ArgToCall | DataFlowKind::ArgToParam
        | DataFlowKind::ReturnValue | DataFlowKind::ReturnToCall | DataFlowKind::WritebackToCall
        | DataFlowKind::ReceiverToThis | DataFlowKind::StateFlow | DataFlowKind::Phi
    )
}

/// The words for a kind of edge.
pub open spec fn description_of(kind: DataFlowKind) -> &'static str {
    match kind {
        DataFlowKind::Assign => "assignment",
        DataFlowKind::Read => "read",
        DataFlowKind::Write => "write",
        DataFlowKind::FieldLoad => "field access",
        DataFlowKind::FieldStore => "field store",
        DataFlowKind::ArgToCall => "call argument → call target",
        DataFlowKind::ArgToParam => "argument → parameter (cross-function)",
        DataFlowKind::ReturnValue => "expression → return",
        DataFlowKind::ReturnToCall => "return → callsite (cross-function)",
        DataFlowKind::WritebackToCall => "reference exit → argument output (cross-function)",
        DataFlowKind::ReceiverToThis => "receiver → self",
        DataFlowKind::StateFlow => "framework state flow",
        DataFlowKind::Phi => "phi (control-flow merge)",
    }
}

/// The words for a kind of edge.
pub fn kind_description(kind: &DataFlowKind) -> (r: &'static str)
    ensures
        r == description_of(*kind),
{
    match kind {
        DataFlowKind::Assign => "assignment",
        DataFlowKind::Read => "read",
        DataFlowKind::Write => "write",
        DataFlowKind::FieldLoad => "field access",
        DataFlowKind::FieldStore => "field store",
        DataFlowKind::ArgToCall => "call argument → call target",
        DataFlowKind::ArgToParam => "argument → parameter (cross-function)",
        DataFlowKind::ReturnValue => "expression → return",
        DataFlowKind::ReturnToCall => "return → callsite (cross-function)",
        DataFlowKind::WritebackToCall => "reference exit → argument output (cross-function)",
        DataFlowKind::ReceiverToThis => "receiver → self",
        DataFlowKind::StateFlow => "framework state flow",
        DataFlowKind::Phi => "phi (control-flow merge)",
    }
}

/// The confidence in a path, in thousandths. Each step costs thirty-three, down to three
/// hundred; a path that was cut short loses two hundred more.
pub open spec fn confidence_of(depth: nat, truncated: bool) -> u32 {
    let base: int = if 1000 - 33 * depth > 300 {
        1000 - 33 * depth
    } else {
        300
    };
    if truncated {
        (base - 200) as u32
    } else {
        base as u32
    }
}

/// The confidence in a path, in thousandths.
pub fn compute_confidence(depth: usize, truncated: bool) -> (r: u32)
    ensures
        r == confidence_of(depth as nat, truncated),
{
    let base: u32 = if depth < 22 {
        1000 - 33 * (depth as u32)
    } else {
        300
    };
    if truncated {
        base - 200
    } else {
        base
    }
}

/// A longer path is never more certain than a shorter one, and a path that was cut
/// short is less certain than one of the same length that was not.
pub proof fn confidence_decays(shorter: nat, longer: nat, truncated: bool)
    requires
        shorter <= longer,
    ensures
        confidence_of(longer, truncated) <= confidence_of(shorter, truncated),
        confidence_of(longer, true) < confidence_of(longer, false),
        100 <= confidence_of(longer, truncated) <= 1000,
        !truncated ==> confidence_of(longer, truncated) >= 300,
{
}

/// The candidates, by value.
pub open spec fn candidate_views(candidates: Seq<Candidate>) -> Seq<CandidateView> {
    candidates.map_values(|c: Candidate| c@)
}

/// A recorded edge as a candidate.
pub open spec fn stored_candidate(edge: DataFlowEdge) -> CandidateView {
    CandidateView { edge, callsite_id: None, virtual_edge: false, context: None, excluded: false }
}

/// A virtual edge as a candidate.
pub open spec fn virtual_candidate(edge: TraceEdge) -> CandidateView {
    CandidateView {
        edge: edge.as_dataflow_edge(),
        callsite_id: edge.callsite_id,
        virtual_edge: true,
        context: None,
        excluded: false,
    }
}

/// The recorded edges into a node that a trace can follow.
pub open spec fn stored_incoming(edges: Seq<DataFlowEdge>, id: DataNodeId) -> Seq<CandidateView> {
    edges.filter(|e: DataFlowEdge| e.target == id && traced(e.kind)).map_values(
        |e: DataFlowEdge| stored_candidate(e),
    )
}

/// The virtual edges into a node that a trace can follow.
pub open spec fn virtual_incoming(edges: Seq<TraceEdge>, id: DataNodeId) -> Seq<CandidateView> {
    edges.filter(|e: TraceEdge| e.target_id == id && traced(e.kind)).map_values(
        |e: TraceEdge| virtual_candidate(e),
    )
}

/// All edges into a node that a trace can follow.
pub open spec fn incoming(inputs: TraceInputs, id: DataNodeId) -> Seq<CandidateView> {
    stored_incoming(inputs.store.dataflow_edges@, id) + match inputs.virtual_edges {
        None => Seq::empty(),
        Some(edges) => virtual_incoming(edges, id),
    }
}

/// Whether some candidate has a kind.
pub open spec fn has_kind(candidates: Seq<CandidateView>, kind: DataFlowKind) -> bool {
    exists|i: int| 0 <= i < candidates.len() && (#[trigger] candidates[i]).edge.kind == kind
}

/// A candidate once its source and the calls behind it have been looked up.
pub open spec fn resolve_candidate(
    inputs: TraceInputs,
    candidate: CandidateView,
    target: DataNode,
    context: Seq<CallsiteId>,
) -> CandidateView {
    match find_node(inputs.store.data_nodes@, candidate.edge.source) {
        None => candidate,
        Some(source) => match transition_spec(
            inputs.store.resolved_callsites@,
            candidate,
            target,
            source,
            context,
        ) {
            TransitionView::Follow(next) => CandidateView { context: Some(next), ..candidate },
            TransitionView::Excluded => CandidateView { excluded: true, ..candidate },
            TransitionView::Unavailable => candidate,
        },
    }
}

/// The candidates once their sources and the calls behind them have been looked up.
pub open spec fn resolve_all(
    inputs: TraceInputs,
    candidates: Seq<CandidateView>,
    target: DataNode,
    context: Seq<CallsiteId>,
) -> Seq<CandidateView> {
    candidates.map_values(|c: CandidateView| resolve_candidate(inputs, c, target, context))
}

/// What candidates are told apart by.
#[derive(Clone, Copy, PartialEq, Eq, Structural, Debug)]
pub enum Trait {
    /// It projects the receiver of a field.
    Receiver,
    /// It does not project the receiver of a field.
    Value,
    /// Its source is not recorded.
    Missing,
    /// Its source is recorded.
    Present,
    /// It is not itself recorded.
    Virtual,
    /// It belongs to another invocation.
    OtherCall,
    /// The call behind it is not established.
    Unestablished,
    /// It leaves a call by an exit that is excluded.
    Contradicted,
    /// It does not leave a call by an exit that is excluded.
    Consistent,
    /// It leads back to where the trace has been.
    Cycle,
    /// It can be followed.
    Available,
}

/// Whether a candidate leaves a call by an exit that is excluded for the invocation.
pub open spec fn contradicts(
    excluded: Seq<(DataNodeId, Seq<CallsiteId>)>,
    candidate: CandidateView,
) -> bool {
    returns_to_call(candidate.edge.kind) && (match candidate.context {
        None => false,
        Some(context) => excluded.contains((candidate.edge.source, context)),
    })
}

/// Whether a candidate leads to a node and context where the trace has been.
pub open spec fn revisits(
    visited: Seq<(DataNodeId, Seq<CallsiteId>)>,
    candidate: CandidateView,
) -> bool {
    match candidate.context {
        None => false,
        Some(context) => visited.contains((candidate.edge.source, context)),
    }
}

/// Whether a candidate has a trait.
pub open spec fn has_trait(
    inputs: TraceInputs,
    visited: Seq<(DataNodeId, Seq<CallsiteId>)>,
    which: Trait,
    c: CandidateView,
) -> bool {
    match which {
        Trait::Receiver => c.edge.kind == DataFlowKind::FieldLoad,
        Trait::Value => c.edge.kind != DataFlowKind::FieldLoad,
        Trait::Missing => find_node(inputs.store.data_nodes@, c.edge.source) is None,
        Trait::Present => find_node(inputs.store.data_nodes@, c.edge.source) is Some,
        Trait::Virtual => c.virtual_edge,
        Trait::OtherCall => c.context is None && c.excluded,
        Trait::Unestablished => c.context is None && !c.excluded,
        Trait::Contradicted => contradicts(inputs.excluded_returns, c),
        Trait::Consistent => !contradicts(inputs.excluded_returns, c),
        Trait::Cycle => c.context is Some && revisits(visited, c),
        Trait::Available => c.context is Some && !revisits(visited, c),
    }
}

/// The candidates that have a trait, in their order.
pub open spec fn selected(
    inputs: TraceInputs,
    visited: Seq<(DataNodeId, Seq<CallsiteId>)>,
    which: Trait,
    candidates: Seq<CandidateView>,
) -> Seq<CandidateView> {
    candidates.filter(|c: CandidateView| has_trait(inputs, visited, which, c))
}

/// Storage that a definition can reach a read from.
pub open spec fn is_storage(kind: DataNodeKind) -> bool {
    kind == DataNodeKind::Local || kind == DataNodeKind::Parameter || kind == DataNodeKind::Global
        || kind == DataNodeKind::CallOutput
}

/// Where a definition stands.
pub open spec fn is_definition(kind: DataNodeKind) -> bool {
    kind == DataNodeKind::Local || kind == DataNodeKind::Parameter || kind == DataNodeKind::Global
}

/// State-bearing inputs come behind expressions, and those behind literals.
pub open spec fn source_priority(kind: DataNodeKind) -> u128 {
    match kind {
        DataNodeKind::VariableUse
        | DataNodeKind::CallArg
        | DataNodeKind::Field
        | DataNodeKind::Receiver => 3,
        DataNodeKind::Expr | DataNodeKind::Return => 2,
        DataNodeKind::Literal => 0,
        _ => 1,
    }
}

/// What a call or shared state supplies comes behind what is only an operand.
pub open spec fn edge_priority(kind: DataFlowKind) -> u128 {
    match kind {
        DataFlowKind::ReturnToCall | DataFlowKind::WritebackToCall | DataFlowKind::StateFlow => 1,
        _ => 0,
    }
}

/// The place of a kind in the alphabetical order of the stored names.
pub open spec fn kind_rank(kind: DataFlowKind) -> u128 {
    match kind {
        DataFlowKind::ArgToCall => 0,
        DataFlowKind::ArgToParam => 1,
        DataFlowKind::Assign => 2,
        DataFlowKind::FieldLoad => 3,
        DataFlowKind::FieldStore => 4,
        DataFlowKind::Phi => 5,
        DataFlowKind::Read => 6,
        DataFlowKind::ReceiverToThis => 7,
        DataFlowKind::ReturnToCall => 8,
        DataFlowKind::ReturnValue => 9,
        DataFlowKind::StateFlow => 10,
        DataFlowKind::Write => 11,
        DataFlowKind::WritebackToCall => 12,
    }
}

/// What candidates are ordered by; the last available one is followed.
///
/// A read prefers the latest definition that reaches it. A write prefers its
/// explicit value source, which an earlier definition would hide. Among
/// definitions the closest one in the text wins. Among other sources a resolved
/// call result wins over operands, and state-bearing inputs over literals, so that
/// a chain of updates follows the previous value and not a constant.
pub open spec fn candidate_key(
    inputs: TraceInputs,
    current: DataNode,
    c: CandidateView,
) -> Seq<u128> {
    let source = find_node(inputs.store.data_nodes@, c.edge.source)->0;
    let storage = is_storage(source.kind);
    seq![
        if storage == is_definition(current.kind) {
            0u128
        } else {
            1u128
        },
        if storage {
            0u128
        } else {
            edge_priority(c.edge.kind)
        },
        if storage {
            0u128
        } else {
            source_priority(source.kind)
        },
        source.range.start_byte as u128,
        c.edge.source.0.hi,
        c.edge.source.0.lo,
        kind_rank(c.edge.kind),
        if c.callsite_id is None {
            0u128
        } else {
            1u128
        },
        match c.callsite_id {
            None => 0u128,
            Some(id) => id.0.hi,
        },
        match c.callsite_id {
            None => 0u128,
            Some(id) => id.0.lo,
        },
    ]
}

/// The candidates in the order of preference.
pub open spec fn ordered(
    inputs: TraceInputs,
    current: DataNode,
    candidates: Seq<CandidateView>,
) -> Seq<CandidateView> {
    in_order(
        candidates,
        candidates.map_values(|c: CandidateView| candidate_key(inputs, current, c)),
    )
}

/// Whether two candidates describe the same edge.
pub open spec fn same_edge(a: CandidateView, b: CandidateView) -> bool {
    a.edge.source == b.edge.source && a.edge.target == b.edge.target && a.edge.kind == b.edge.kind
        && a.callsite_id == b.callsite_id
}

/// Of neighbors that describe the same edge only the first stays.
pub open spec fn without_repeats(candidates: Seq<CandidateView>) -> Seq<CandidateView>
    decreases candidates.len(),
{
    if candidates.len() == 0 {
        Seq::empty()
    } else {
        let before = without_repeats(candidates.drop_last());
        if before.len() > 0 && same_edge(before.last(), candidates.last()) {
            before
        } else {
            before.push(candidates.last())
        }
    }
}

/// The detail of a candidate in a diagnostic.
pub open spec fn detail_of(inputs: TraceInputs, c: CandidateView) -> EdgeDetailView {
    EdgeDetailView {
        source_id: c.edge.source,
        target_id: c.edge.target,
        edge_kind: c.edge.kind,
        callsite_id: c.callsite_id,
        position: match find_node(inputs.store.data_nodes@, c.edge.source) {
            None => None,
            Some(node) => Some(position_of(node, c.context)),
        },
    }
}

/// A diagnostic about a node and edges into it. The listed edges are bounded; their
/// number is not.
pub open spec fn frontier(
    inputs: TraceInputs,
    finding: Finding,
    at: DataNode,
    context: Seq<CallsiteId>,
    edges: Seq<CandidateView>,
) -> TraceDiagnosticView {
    let shown = if edges.len() > MAX_DETAIL_EDGES {
        edges.take(MAX_DETAIL_EDGES as int)
    } else {
        edges
    };
    TraceDiagnosticView::Frontier {
        finding,
        at: position_of(at, Some(context)),
        edges: shown.map_values(|c: CandidateView| detail_of(inputs, c)),
        total_edges: edges.len(),
        details_truncated: edges.len() > MAX_DETAIL_EDGES,
    }
}

impl TraceState {
    /// Add a diagnostic.
    pub open spec fn note(self, diagnostic: TraceDiagnosticView) -> TraceState {
        TraceState { diagnostics: self.diagnostics.push(diagnostic), ..self }
    }

    /// Add a diagnostic about the current node.
    pub open spec fn note_here(
        self,
        inputs: TraceInputs,
        finding: Finding,
        edges: Seq<CandidateView>,
    ) -> TraceState {
        self.note(frontier(inputs, finding, self.current, self.context, edges))
    }

    /// Add a diagnostic about the current node where there are edges to speak of.
    pub open spec fn note_some(
        self,
        inputs: TraceInputs,
        finding: Finding,
        edges: Seq<CandidateView>,
    ) -> TraceState {
        if edges.len() > 0 {
            self.note_here(inputs, finding, edges)
        } else {
            self
        }
    }
}

/// Whether an extraction limit touches a node. A limit without a range touches
/// every node. A missing token can sit at the boundary of an expression.
pub open spec fn affects(diagnostic: ExtractDiagnostic, node: DataNode) -> bool {
    match diagnostic.range {
        None => true,
        Some(range) => if range.start_byte == range.end_byte {
            node.range.start_byte <= range.start_byte && range.start_byte <= node.range.end_byte
        } else {
            range.start_byte < node.range.end_byte && node.range.start_byte < range.end_byte
        },
    }
}

/// Whether a limit is worth reporting at a node.
pub open spec fn matters(diagnostic: ExtractDiagnostic, node: DataNode) -> bool {
    diagnostic.level != DiagnosticLevel::Info && affects(diagnostic, node)
}

/// The limits of a node's file that touch it.
pub open spec fn file_limits(
    table: Seq<FileDiagnostic>,
    node: DataNode,
) -> Seq<ExtractDiagnosticView> {
    table.filter(
        |d: FileDiagnostic| d.file_id == node.file_id && matters(d.diagnostic, node),
    ).map_values(|d: FileDiagnostic| d.diagnostic@)
}

/// The limits of a node's function that touch it.
pub open spec fn unit_limits(
    table: Seq<UnitDiagnostic>,
    node: DataNode,
) -> Seq<ExtractDiagnosticView> {
    table.filter(
        |d: UnitDiagnostic|
            d.file_id == node.file_id && d.function_id == node.function_id && matters(
                d.diagnostic,
                node,
            ),
    ).map_values(|d: UnitDiagnostic| d.diagnostic@)
}

/// The limits that touch a node: those of its file, then those of its function.
pub open spec fn limits_at(store: Store, node: DataNode) -> Seq<ExtractDiagnosticView> {
    file_limits(store.file_diagnostics@, node) + unit_limits(store.unit_diagnostics@, node)
}

/// The limits that have not been reported for the file yet, each once.
pub open spec fn unreported(
    reported: Seq<(FileId, ExtractDiagnosticView)>,
    file: FileId,
    limits: Seq<ExtractDiagnosticView>,
) -> Seq<ExtractDiagnosticView>
    decreases limits.len(),
{
    if limits.len() == 0 {
        Seq::empty()
    } else {
        let before = unreported(reported, file, limits.drop_last());
        if reported.contains((file, limits.last())) || before.contains(limits.last()) {
            before
        } else {
            before.push(limits.last())
        }
    }
}

/// The diagnostic for an extraction limit.
pub open spec fn limit_diagnostic(file: FileId, d: ExtractDiagnosticView) -> TraceDiagnosticView {
    TraceDiagnosticView::ExtractionLimit { limit: d.message, file_id: file, location: d.range }
}

/// Report the extraction limits that touch the current node.
pub open spec fn report_limits(inputs: TraceInputs, state: TraceState) -> TraceState {
    let file = state.current.file_id;
    let fresh = unreported(state.reported, file, limits_at(inputs.store, state.current));
    TraceState {
        diagnostics: state.diagnostics + fresh.map_values(
            |d: ExtractDiagnosticView| limit_diagnostic(file, d),
        ),
        reported: state.reported + fresh.map_values(|d: ExtractDiagnosticView| (file, d)),
        ..state
    }
}

/// The diagnostic for a binding that was exposed to a call.
pub open spec fn call_output(inputs: TraceInputs, node: DataNode) -> TraceDiagnosticView {
    TraceDiagnosticView::CallOutputUnavailable {
        file_id: node.file_id,
        argument: node.range,
        call: match node.callsite_id {
            None => None,
            Some(id) => match find_callsite(inputs.store.callsites@, id) {
                None => None,
                Some(call) => Some(call.range),
            },
        },
    }
}

/// Follow a candidate to its source.
pub open spec fn follow(
    inputs: TraceInputs,
    state: TraceState,
    candidate: CandidateView,
) -> TraceState {
    let source = find_node(inputs.store.data_nodes@, candidate.edge.source)->0;
    let context = candidate.context->0;
    TraceState {
        current: source,
        context,
        steps: state.steps.push(
            TracePathStepView {
                index: 0,
                from_node_id: source.id,
                to_node_id: state.current.id,
                kind: candidate.edge.kind,
                description: description_of(candidate.edge.kind),
                file_id: source.file_id,
                location: Some(source.range),
                call_context: context,
                evidence: None,
            },
        ),
        visited: state.visited.push((source.id, context)),
        ..state
    }
}

/// A store describes its assigned value by its own edges; what projects the
/// destination's receiver is context and not another value. Gives the state with
/// that context noted, and what is left to follow.
pub open spec fn set_receivers_aside(
    inputs: TraceInputs,
    state: TraceState,
    candidates: Seq<CandidateView>,
) -> (TraceState, Seq<CandidateView>) {
    if state.current.kind == DataNodeKind::Field && has_kind(candidates, DataFlowKind::FieldStore) {
        let receivers = selected(inputs, state.visited, Trait::Receiver, candidates);
        if receivers.len() > 0 {
            (
                state.note_here(inputs, Finding::FieldReceiverContext, receivers),
                selected(inputs, state.visited, Trait::Value, candidates),
            )
        } else {
            (state, candidates)
        }
    } else {
        (state, candidates)
    }
}

/// Whether a node of this kind can be the origin of a value.
pub open spec fn is_origin(kind: DataNodeKind) -> bool {
    kind == DataNodeKind::Literal || kind == DataNodeKind::Parameter || kind == DataNodeKind::Global
}

/// Select the predecessor to follow among the ordered candidates, and whether the
/// trace goes on.
#[verifier::opaque]
pub open spec fn select_next(
    inputs: TraceInputs,
    state: TraceState,
    candidates: Seq<CandidateView>,
) -> (TraceState, bool) {
    let v = state.visited;
    let noted = state.note_some(
        inputs,
        Finding::VirtualBoundary,
        selected(inputs, v, Trait::Virtual, candidates),
    ).note_some(
        inputs,
        Finding::CallContextExcluded,
        selected(inputs, v, Trait::OtherCall, candidates),
    ).note_some(
        inputs,
        Finding::CallBoundaryUnavailable,
        selected(inputs, v, Trait::Unestablished, candidates),
    ).note_some(
        inputs,
        Finding::ReturnConditionExcluded,
        selected(inputs, v, Trait::Contradicted, candidates),
    );
    let left = selected(inputs, v, Trait::Consistent, candidates);
    if left.len() == 0 {
        if is_origin(state.current.kind) {
            (noted, false)
        } else {
            (noted.note_here(inputs, Finding::OriginUnestablished, Seq::empty()), false)
        }
    } else if state.steps.len() >= inputs.max_depth {
        (
            (TraceState { truncated: true, ..noted }).note_here(
                inputs,
                Finding::MaxDepthTruncated,
                left,
            ),
            false,
        )
    } else {
        let cycles = selected(inputs, v, Trait::Cycle, left);
        let available = selected(inputs, v, Trait::Available, left);
        let looped = noted.note_some(inputs, Finding::CycleUnexpanded, cycles);
        if available.len() == 0 {
            (looped, false)
        } else {
            let rest = looped.note_some(
                inputs,
                Finding::AlternativesUnexpanded,
                available.drop_last(),
            );
            (follow(inputs, rest, available.last()), true)
        }
    }
}

/// One step of the trace, and whether it goes on.
#[verifier::opaque]
pub open spec fn advance_spec(inputs: TraceInputs, state: TraceState) -> (TraceState, bool) {
    if !in_context(inputs.store.resolved_callsites@, state.current, state.context) {
        (state.note_here(inputs, Finding::InvocationUnestablished, Seq::empty()), false)
    } else {
        let found = incoming(inputs, state.current.id);
        let told = report_limits(inputs, state);
        if state.current.kind == DataNodeKind::CallOutput && !has_kind(
            found,
            DataFlowKind::WritebackToCall,
        ) {
            (told.note(call_output(inputs, state.current)), false)
        } else {
            let begun = if state.current.kind == DataNodeKind::CallReturn && !has_kind(
                found,
                DataFlowKind::ReturnToCall,
            ) {
                told.note_here(inputs, Finding::CallResultUnavailable, Seq::empty())
            } else {
                told
            };
            let (aside, candidates) = set_receivers_aside(
                inputs,
                begun,
                resolve_all(inputs, found, state.current, state.context),
            );
            let complete = aside.note_some(
                inputs,
                Finding::DataNodeMissing,
                selected(inputs, state.visited, Trait::Missing, candidates),
            );
            select_next(
                inputs,
                complete,
                without_repeats(
                    ordered(
                        inputs,
                        state.current,
                        selected(inputs, state.visited, Trait::Present, candidates),
                    ),
                ),
            )
        }
    }
}

/// The state in which a trace ends.
pub open spec fn run(inputs: TraceInputs, state: TraceState) -> TraceState
    decreases inputs.max_depth - state.steps.len(),
{
    let (next, goes_on) = advance_spec(inputs, state);
    if goes_on && state.steps.len() < next.steps.len() <= inputs.max_depth {
        run(inputs, next)
    } else {
        next
    }
}

/// The state in which a trace starts.
pub open spec fn start(sink: TracePointView, node: DataNode) -> TraceState {
    TraceState {
        current: node,
        context: sink.call_context,
        steps: Seq::empty(),
        visited: seq![(node.id, sink.call_context)],
        diagnostics: sink.diagnostics,
        reported: Seq::empty(),
        truncated: false,
    }
}

/// Which file and name a step was read from.
pub open spec fn evidence_for(store: Store, file: FileId, node: DataNodeId) -> Option<Evidence> {
    match find_file(store.files@, file) {
        None => None,
        Some(info) => Some(
            Evidence {
                file_path: info.path,
                snippet: None,
                symbol_name: match find_node(store.data_nodes@, node) {
                    None => None,
                    Some(found) => found.name,
                },
            },
        ),
    }
}

/// The steps from source to sink, numbered, each with its evidence.
pub open spec fn shown_steps(
    store: Store,
    steps: Seq<TracePathStepView>,
) -> Seq<TracePathStepView> {
    Seq::new(
        steps.len(),
        |i: int|
            {
                let step = steps[steps.len() - 1 - i];
                TracePathStepView {
                    index: i as u32,
                    evidence: evidence_for(store, step.file_id, step.from_node_id),
                    ..step
                }
            },
    )
}

/// The path that a trace shows once it has ended.
pub open spec fn shown_path(
    inputs: TraceInputs,
    sink: TracePointView,
    end: TraceState,
) -> TracePathView {
    TracePathView {
        source: TracePointView {
            data_node: Some(end.current),
            call_context: end.context,
            file_id: end.current.file_id,
            line: one_more(end.current.range.start_line),
            column: one_more(end.current.range.start_column),
            capability: sink.capability,
            partial_result: false,
            diagnostics: Seq::empty(),
        },
        steps: shown_steps(inputs.store, end.steps),
        sink,
        confidence: confidence_of(end.steps.len(), end.truncated),
        nodes_visited: end.visited.len(),
        max_depth_reached: end.steps.len(),
        capability: sink.capability,
        partial_result: sink.partial_result || end.diagnostics.len() > 0,
        diagnostics: end.diagnostics,
    }
}

/// The path that a trace from a node shows.
pub open spec fn trace_path(
    inputs: TraceInputs,
    sink: TracePointView,
    node: DataNode,
) -> TracePathView {
    shown_path(inputs, sink, run(inputs, start(sink, node)))
}

/// The pairs of node and context, by value.
pub open spec fn pair_views(
    pairs: Seq<(DataNodeId, Vec<CallsiteId>)>,
) -> Seq<(DataNodeId, Seq<CallsiteId>)> {
    pairs.map_values(|p: (DataNodeId, Vec<CallsiteId>)| (p.0, p.1@))
}

/// The reported limits, by value.
pub open spec fn report_views(
    reported: Seq<(FileId, ExtractDiagnostic)>,
) -> Seq<(FileId, ExtractDiagnosticView)> {
    reported.map_values(|p: (FileId, ExtractDiagnostic)| (p.0, p.1@))
}

/// The limits, by value.
pub open spec fn limit_views(limits: Seq<ExtractDiagnostic>) -> Seq<ExtractDiagnosticView> {
    limits.map_values(|d: ExtractDiagnostic| d@)
}

/// What a trace reads.
struct Reading<'a> {
    store: &'a Store,
    virtual_edges: Option<&'a [TraceEdge]>,
    excluded_returns: &'a [(DataNodeId, Vec<CallsiteId>)],
    max_depth: usize,
}

/// How far a trace has come.
struct Walk {
    current: DataNode,
    context: Vec<CallsiteId>,
    steps: Vec<TracePathStep>,
    visited: Vec<(DataNodeId, Vec<CallsiteId>)>,
    diagnostics: Vec<TraceDiagnostic>,
    reported: Vec<(FileId, ExtractDiagnostic)>,
    truncated: bool,
}

impl View for Walk {
    type V = TraceState;

    closed spec fn view(&self) -> TraceState {
        TraceState {
            current: self.current,
            context: self.context@,
            steps: step_views(self.steps@),
            visited: pair_views(self.visited@),
            diagnostics: diagnostic_views(self.diagnostics@),
            reported: report_views(self.reported@),
            truncated: self.truncated,
        }
    }
}

fn holds_pair(
    pairs: &[(DataNodeId, Vec<CallsiteId>)],
    id: &DataNodeId,
    context: &[CallsiteId],
) -> (r: bool)
    ensures
        r == pair_views(pairs@).contains((*id, context@)),
{
    let ghost views = pair_views(pairs@);
    let mut i: usize = 0;
    while i < pairs.len()
        invariant
            i <= pairs@.len(),
            views == pair_views(pairs@),
            forall|k: int| 0 <= k < i ==> views[k] != (*id, context@),
        decreases pairs@.len() - i,
    {
        if pairs[i].0 == *id && same_ids(pairs[i].1.as_slice(), context) {
            assert(views[i as int] == (*id, context@));
            return true;
        }
        i += 1;
    }
    false
}

fn any_kind(candidates: &[Candidate], kind: DataFlowKind) -> (r: bool)
    ensures
        r == has_kind(candidate_views(candidates@), kind),
{
    let ghost views = candidate_views(candidates@);
    let mut i: usize = 0;
    while i < candidates.len()
        invariant
            i <= candidates@.len(),
            views == candidate_views(candidates@),
            forall|k: int| 0 <= k < i ==> (#[trigger] views[k]).edge.kind != kind,
        decreases candidates@.len() - i,
    {
        assert(views[i as int] == candidates@[i as int]@);
        if candidates[i].edge.kind == kind {
            return true;
        }
        i += 1;
    }
    false
}

proof fn lemma_push_candidate(candidates: Seq<Candidate>, c: Candidate)
    ensures
        candidate_views(candidates.push(c)) == candidate_views(candidates).push(c@),
{
    assert(candidate_views(candidates.push(c)) =~= candidate_views(candidates).push(c@));
}

impl<'a> Reading<'a> {
    spec fn inputs(&self) -> TraceInputs {
        TraceInputs {
            store: *self.store,
            virtual_edges: match self.virtual_edges {
                None => None,
                Some(edges) => Some(edges@),
            },
            excluded_returns: pair_views(self.excluded_returns@),
            max_depth: self.max_depth as nat,
        }
    }

    fn incoming_candidates(&self, id: &DataNodeId) -> (r: Vec<Candidate>)
        ensures
            candidate_views(r@) == incoming(self.inputs(), *id),
    {
        let mut found: Vec<Candidate> = Vec::new();
        let edges = &self.store.dataflow_edges;
        let ghost keep = |e: DataFlowEdge| e.target == *id && traced(e.kind);
        let ghost turn = |e: DataFlowEdge| stored_candidate(e);
        let mut i: usize = 0;
        assert(candidate_views(found@) =~= edges@.take(0).filter(keep).map_values(turn)) by {
            reveal(Seq::filter);
        }
        while i < edges.len()
            invariant
                i <= edges@.len(),
                keep == (|e: DataFlowEdge| e.target == *id && traced(e.kind)),
                turn == (|e: DataFlowEdge| stored_candidate(e)),
                candidate_views(found@) == edges@.take(i as int).filter(keep).map_values(turn),
            decreases edges@.len() - i,
        {
            let ghost before = found@;
            proof {
                lemma_filter_step(edges@, keep, i as int);
            }
            if edges[i].target == *id && should_trace_backward(&edges[i].kind) {
                let c = Candidate {
                    edge: edges[i],
                    callsite_id: None,
                    virtual_edge: false,
                    context: None,
                    excluded: false,
                };
                found.push(c);
                proof {
                    lemma_push_candidate(before, c);
                    assert(edges@.take(i + 1).filter(keep).map_values(turn) =~= edges@.take(
                        i as int,
                    ).filter(keep).map_values(turn).push(c@));
                }
            }
            i += 1;
        }
        assert(edges@.take(i as int) =~= edges@);
        let ghost stored = candidate_views(found@);
        match self.virtual_edges {
            None => {
                assert(stored =~= incoming(self.inputs(), *id));
            },
            Some(edges) => {
                let ghost keep = |e: TraceEdge| e.target_id == *id && traced(e.kind);
                let ghost turn = |e: TraceEdge| virtual_candidate(e);
                let mut i: usize = 0;
                assert(stored =~= stored + edges@.take(0).filter(keep).map_values(turn)) by {
                    reveal(Seq::filter);
                }
                while i < edges.len()
                    invariant
                        i <= edges@.len(),
                        keep == (|e: TraceEdge| e.target_id == *id && traced(e.kind)),
                        turn == (|e: TraceEdge| virtual_candidate(e)),
                        candidate_views(found@) == stored + edges@.take(i as int).filter(
                            keep,
                        ).map_values(turn),
                    decreases edges@.len() - i,
                {
                    let ghost before = found@;
                    proof {
                        lemma_filter_step(edges@, keep, i as int);
                    }
                    if edges[i].target_id == *id && should_trace_backward(&edges[i].kind) {
                        let c = Candidate {
                            edge: edges[i].to_dataflow_edge(),
                            callsite_id: edges[i].callsite_id,
                            virtual_edge: true,
                            context: None,
                            excluded: false,
                        };
                        found.push(c);
                        proof {
                            lemma_push_candidate(before, c);
                            assert(stored + edges@.take(i + 1).filter(keep).map_values(turn) =~= (
                            stored + edges@.take(i as int).filter(keep).map_values(turn)).push(c@));
                        }
                    }
                    i += 1;
                }
                assert(edges@.take(i as int) =~= edges@);
            },
        }
        found
    }

    fn resolve(
        &self,
        contexts: &mut CallContexts<'a>,
        candidates: Vec<Candidate>,
        target: &DataNode,
        context: &[CallsiteId],
    ) -> (r: Vec<Candidate>)
        requires
            old(contexts).wf(),
            old(contexts).recorded() == self.store.resolved_callsites@,
        ensures
            final(contexts).wf(),
            final(contexts).recorded() == old(contexts).recorded(),
            candidate_views(r@) == resolve_all(
                self.inputs(),
                candidate_views(candidates@),
                *target,
                context@,
            ),
    {
        let ghost views = candidate_views(candidates@);
        let ghost turn = |c: CandidateView|
            resolve_candidate(self.inputs(), c, *target, context@);
        let mut resolved: Vec<Candidate> = Vec::new();
        let mut i: usize = 0;
        while i < candidates.len()
            invariant
                i <= candidates@.len(),
                views == candidate_views(candidates@),
                turn == (|c: CandidateView|
                    resolve_candidate(self.inputs(), c, *target, context@)),
                contexts.wf(),
                contexts.recorded() == self.store.resolved_callsites@,
                contexts.recorded() == old(contexts).recorded(),
                candidate_views(resolved@) == views.take(i as int).map_values(turn),
            decreases candidates@.len() - i,
        {
            let ghost before = resolved@;
            let mut c = candidates[i].copy();
            match self.store.get_data_node(&c.edge.source) {
                None => {},
                Some(node) => {
                    match contexts.transition(&candidates[i], target, node, context) {
                        Transition::Follow(next) => {
                            c.context = Some(next);
                        },
                        Transition::Excluded => {
                            c.excluded = true;
                        },
                        Transition::Unavailable => {},
                    }
                },
            }
            assert(views[i as int] == candidates@[i as int]@);
            assert(c@ == resolve_candidate(self.inputs(), views[i as int], *target, context@));
            resolved.push(c);
            proof {
                lemma_push_candidate(before, c);
                assert(views.take(i + 1).map_values(turn) =~= views.take(i as int).map_values(
                    turn,
                ).push(c@));
            }
            i += 1;
        }
        assert(views.take(i as int) =~= views);
        resolved
    }

    fn test(
        &self,
        visited: &[(DataNodeId, Vec<CallsiteId>)],
        which: Trait,
        c: &Candidate,
    ) -> (r: bool)
        ensures
            r == has_trait(self.inputs(), pair_views(visited@), which, c@),
    {
        match which {
            Trait::Receiver => matches!(c.edge.kind, DataFlowKind::FieldLoad),
            Trait::Value => !matches!(c.edge.kind, DataFlowKind::FieldLoad),
            Trait::Missing => self.store.get_data_node(&c.edge.source).is_none(),
            Trait::Present => self.store.get_data_node(&c.edge.source).is_some(),
            Trait::Virtual => c.virtual_edge,
            Trait::OtherCall => c.context.is_none() && c.excluded,
            Trait::Unestablished => c.context.is_none() && !c.excluded,
            Trait::Contradicted => self.is_contradicted(c),
            Trait::Consistent => !self.is_contradicted(c),
            Trait::Cycle => match &c.context {
                None => false,
                Some(context) => holds_pair(visited, &c.edge.source, context.as_slice()),
            },
            Trait::Available => match &c.context {
                None => false,
                Some(context) => !holds_pair(visited, &c.edge.source, context.as_slice()),
            },
        }
    }

    fn is_contradicted(&self, c: &Candidate) -> (r: bool)
        ensures
            r == contradicts(pair_views(self.excluded_returns@), c@),
    {
        if !matches!(c.edge.kind, DataFlowKind::ReturnToCall | DataFlowKind::WritebackToCall) {
            return false;
        }
        match &c.context {
            None => false,
            Some(context) => holds_pair(
                self.excluded_returns,
                &c.edge.source,
                context.as_slice(),
            ),
        }
    }

    fn select(
        &self,
        visited: &[(DataNodeId, Vec<CallsiteId>)],
        which: Trait,
        candidates: &[Candidate],
    ) -> (r: Vec<Candidate>)
        ensures
            candidate_views(r@) == selected(
                self.inputs(),
                pair_views(visited@),
                which,
                candidate_views(candidates@),
            ),
    {
        let ghost views = candidate_views(candidates@);
        let ghost pairs = pair_views(visited@);
        let ghost keep = |c: CandidateView| has_trait(self.inputs(), pairs, which, c);
        let mut found: Vec<Candidate> = Vec::new();
        let mut i: usize = 0;
        assert(candidate_views(found@) =~= views.take(0).filter(keep)) by {
            reveal(Seq::filter);
        }
        while i < candidates.len()
            invariant
                i <= candidates@.len(),
                views == candidate_views(candidates@),
                pairs == pair_views(visited@),
                keep == (|c: CandidateView| has_trait(self.inputs(), pairs, which, c)),
                candidate_views(found@) == views.take(i as int).filter(keep),
            decreases candidates@.len() - i,
        {
            let ghost before = found@;
            assert(views[i as int] == candidates@[i as int]@);
            proof {
                lemma_filter_step(views, keep, i as int);
            }
            if self.test(visited, which, &candidates[i]) {
                let c = candidates[i].copy();
                found.push(c);
                proof {
                    lemma_push_candidate(before, c);
                }
            }
            i += 1;
        }
        assert(views.take(i as int) =~= views);
        found
    }

    fn key(&self, current: &DataNode, c: &Candidate) -> (r: Vec<u128>)
        requires
            find_node(self.store.data_nodes@, c.edge.source) is Some,
        ensures
            r@ == candidate_key(self.inputs(), *current, c@),
    {
        let source = self.store.get_data_node(&c.edge.source).unwrap();
        let storage = matches!(
            source.kind,
            DataNodeKind::Local | DataNodeKind::Parameter | DataNodeKind::Global
            | DataNodeKind::CallOutput
        );
        let definition = matches!(
            current.kind,
            DataNodeKind::Local | DataNodeKind::Parameter | DataNodeKind::Global
        );
        let edge_rank: u128 = match c.edge.kind {
            DataFlowKind::ReturnToCall | DataFlowKind::WritebackToCall | DataFlowKind::StateFlow =>
            1,
            _ => 0,
        };
        let source_rank: u128 = match source.kind {
            DataNodeKind::VariableUse
            | DataNodeKind::CallArg
            | DataNodeKind::Field
            | DataNodeKind::Receiver => 3,
            DataNodeKind::Expr | DataNodeKind::Return => 2,
            DataNodeKind::Literal => 0,
            _ => 1,
        };
        let name_rank: u128 = match c.edge.kind {
            DataFlowKind::ArgToCall => 0,
            DataFlowKind::ArgToParam => 1,
            DataFlowKind::Assign => 2,
            DataFlowKind::FieldLoad => 3,
            DataFlowKind::FieldStore => 4,
            DataFlowKind::Phi => 5,
            DataFlowKind::Read => 6,
            DataFlowKind::ReceiverToThis => 7,
            DataFlowKind::ReturnToCall => 8,
            DataFlowKind::ReturnValue => 9,
            DataFlowKind::StateFlow => 10,
            DataFlowKind::Write => 11,
            DataFlowKind::WritebackToCall => 12,
        };
        let mut key: Vec<u128> = Vec::new();
        key.push(if storage == definition { 0 } else { 1 });
        key.push(if storage { 0 } else { edge_rank });
        key.push(if storage { 0 } else { source_rank });
        key.push(source.range.start_byte as u128);
        key.push(c.edge.source.0.hi);
        key.push(c.edge.source.0.lo);
        key.push(name_rank);
        match c.callsite_id {
            None => {
                key.push(0);
                key.push(0);
                key.push(0);
            },
            Some(id) => {
                key.push(1);
                key.push(id.0.hi);
                key.push(id.0.lo);
            },
        }
        assert(key@ =~= candidate_key(self.inputs(), *current, c@));
        key
    }

    fn order(&self, current: &DataNode, candidates: &[Candidate]) -> (r: Vec<Candidate>)
        requires
            forall|i: int|
                0 <= i < candidates@.len() ==> find_node(
                    self.store.data_nodes@,
                    (#[trigger] candidates@[i]).edge.source,
                ) is Some,
        ensures
            candidate_views(r@) == ordered(
                self.inputs(),
                *current,
                candidate_views(candidates@),
            ),
    {
        let ghost views = candidate_views(candidates@);
        let ghost turn = |c: CandidateView| candidate_key(self.inputs(), *current, c);
        let mut keys: Vec<Vec<u128>> = Vec::new();
        let mut i: usize = 0;
        while i < candidates.len()
            invariant
                i <= candidates@.len(),
                views == candidate_views(candidates@),
                turn == (|c: CandidateView| candidate_key(self.inputs(), *current, c)),
                forall|i: int|
                    0 <= i < candidates@.len() ==> find_node(
                        self.store.data_nodes@,
                        (#[trigger] candidates@[i]).edge.source,
                    ) is Some,
                key_views(keys@) == views.take(i as int).map_values(turn),
            decreases candidates@.len() - i,
        {
            let ghost before = keys@;
            assert(views[i as int] == candidates@[i as int]@);
            let key = self.key(current, &candidates[i]);
            keys.push(key);
            assert(key_views(keys@) =~= key_views(before).push(key@));
            assert(views.take(i + 1).map_values(turn) =~= views.take(i as int).map_values(
                turn,
            ).push(key@));
            i += 1;
        }
        assert(views.take(i as int) =~= views);
        assert(key_views(keys@).len() == keys@.len());
        let rows = stable_order(keys.as_slice());
        let ghost numbers = rows@.map_values(|k: usize| k as int);
        let mut sorted: Vec<Candidate> = Vec::new();
        let mut k: usize = 0;
        while k < rows.len()
            invariant
                k <= rows@.len(),
                views == candidate_views(candidates@),
                numbers == rows@.map_values(|k: usize| k as int),
                forall|m: int| 0 <= m < rows@.len() ==> (#[trigger] rows@[m]) < candidates@.len(),
                candidate_views(sorted@) == numbers.take(k as int).map_values(|m: int| views[m]),
            decreases rows@.len() - k,
        {
            let ghost before = sorted@;
            let c = candidates[rows[k]].copy();
            sorted.push(c);
            proof {
                lemma_push_candidate(before, c);
                assert(numbers.take(k + 1) =~= numbers.take(k as int).push(rows@[k as int] as int));
                assert(numbers.take(k + 1).map_values(|m: int| views[m]) =~= numbers.take(
                    k as int,
                ).map_values(|m: int| views[m]).push(c@));
            }
            k += 1;
        }
        assert(numbers.take(k as int) =~= numbers);
        sorted
    }

    fn position(&self, node: &DataNode, context: Option<Vec<CallsiteId>>) -> (r: Position)
        ensures
            r@ == position_of(*node, crate::trace::call_context::context_view(context)),
    {
        Position {
            data_node_id: node.id,
            file_id: node.file_id,
            location: node.range,
            line: node.range.start_line.saturating_add(1),
            column: node.range.start_column.saturating_add(1),
            call_context: context,
        }
    }

    /// A diagnostic about a node and edges into it.
    fn frontier_diagnostic(
        &self,
        finding: Finding,
        at: &DataNode,
        context: &[CallsiteId],
        edges: &[Candidate],
    ) -> (r: TraceDiagnostic)
        ensures
            r@ == frontier(self.inputs(), finding, *at, context@, candidate_views(edges@)),
    {
        let ghost views = candidate_views(edges@);
        let ghost turn = |c: CandidateView| detail_of(self.inputs(), c);
        let mut details: Vec<EdgeDetail> = Vec::new();
        let mut i: usize = 0;
        while i < edges.len() && i < MAX_DETAIL_EDGES
            invariant
                i <= edges@.len(),
                i <= MAX_DETAIL_EDGES,
                views == candidate_views(edges@),
                turn == (|c: CandidateView| detail_of(self.inputs(), c)),
                detail_views(details@) == views.take(i as int).map_values(turn),
            decreases edges@.len() - i,
        {
            let ghost before = details@;
            let edge = &edges[i];
            let position = match self.store.get_data_node(&edge.edge.source) {
                None => None,
                Some(node) => Some(
                    self.position(node, crate::trace::path::copy_context(&edge.context)),
                ),
            };
            let detail = EdgeDetail {
                source_id: edge.edge.source,
                target_id: edge.edge.target,
                edge_kind: edge.edge.kind,
                callsite_id: edge.callsite_id,
                position,
            };
            assert(views[i as int] == edges@[i as int]@);
            assert(detail@ == detail_of(self.inputs(), views[i as int]));
            details.push(detail);
            assert(detail_views(details@) =~= detail_views(before).push(detail@));
            assert(views.take(i + 1).map_values(turn) =~= views.take(i as int).map_values(
                turn,
            ).push(detail@));
            i += 1;
        }
        proof {
            if views.len() <= MAX_DETAIL_EDGES {
                assert(views.take(i as int) =~= views);
            }
        }
        TraceDiagnostic::Frontier {
            finding,
            at: self.position(at, Some(copy_ids(context))),
            edges: details,
            total_edges: edges.len(),
            details_truncated: edges.len() > MAX_DETAIL_EDGES,
        }
    }
}

proof fn lemma_push_diagnostic(diagnostics: Seq<TraceDiagnostic>, d: TraceDiagnostic)
    ensures
        diagnostic_views(diagnostics.push(d)) == diagnostic_views(diagnostics).push(d@),
{
    assert(diagnostic_views(diagnostics.push(d)) =~= diagnostic_views(diagnostics).push(d@));
}

fn touches(diagnostic: &ExtractDiagnostic, node: &DataNode) -> (r: bool)
    ensures
        r == matters(*diagnostic, *node),
{
    if matches!(diagnostic.level, DiagnosticLevel::Info) {
        return false;
    }
    match diagnostic.range {
        None => true,
        Some(range) => if range.start_byte == range.end_byte {
            node.range.start_byte <= range.start_byte && range.start_byte <= node.range.end_byte
        } else {
            range.start_byte < node.range.end_byte && node.range.start_byte < range.end_byte
        },
    }
}

fn same_limit(a: &ExtractDiagnostic, b: &ExtractDiagnostic) -> (r: bool)
    ensures
        r == (a@ == b@),
{
    a.level == b.level && a.message == b.message && a.range == b.range
}

/// The limits that touch a node.
fn collect_limits(store: &Store, node: &DataNode) -> (r: Vec<ExtractDiagnostic>)
    ensures
        limit_views(r@) == limits_at(*store, *node),
{
    let mut found: Vec<ExtractDiagnostic> = Vec::new();
    let table = &store.file_diagnostics;
    let ghost keep = |d: FileDiagnostic| d.file_id == node.file_id && matters(d.diagnostic, *node);
    let ghost turn = |d: FileDiagnostic| d.diagnostic@;
    let mut i: usize = 0;
    assert(limit_views(found@) =~= table@.take(0).filter(keep).map_values(turn)) by {
        reveal(Seq::filter);
    }
    while i < table.len()
        invariant
            i <= table@.len(),
            keep == (|d: FileDiagnostic|
                d.file_id == node.file_id && matters(d.diagnostic, *node)),
            turn == (|d: FileDiagnostic| d.diagnostic@),
            limit_views(found@) == table@.take(i as int).filter(keep).map_values(turn),
        decreases table@.len() - i,
    {
        let ghost before = found@;
        proof {
            lemma_filter_step(table@, keep, i as int);
        }
        if table[i].file_id == node.file_id && touches(&table[i].diagnostic, node) {
            let one = table[i].diagnostic.clone();
            found.push(one);
            assert(limit_views(found@) =~= limit_views(before).push(one@));
            assert(table@.take(i + 1).filter(keep).map_values(turn) =~= table@.take(
                i as int,
            ).filter(keep).map_values(turn).push(one@));
        }
        i += 1;
    }
    assert(table@.take(i as int) =~= table@);
    let ghost first = limit_views(found@);
    let table = &store.unit_diagnostics;
    let ghost keep = |d: UnitDiagnostic|
        d.file_id == node.file_id && d.function_id == node.function_id && matters(
            d.diagnostic,
            *node,
        );
    let ghost turn = |d: UnitDiagnostic| d.diagnostic@;
    let mut i: usize = 0;
    assert(first =~= first + table@.take(0).filter(keep).map_values(turn)) by {
        reveal(Seq::filter);
    }
    while i < table.len()
        invariant
            i <= table@.len(),
            keep == (|d: UnitDiagnostic|
                d.file_id == node.file_id && d.function_id == node.function_id && matters(
                    d.diagnostic,
                    *node,
                )),
            turn == (|d: UnitDiagnostic| d.diagnostic@),
            limit_views(found@) == first + table@.take(i as int).filter(keep).map_values(turn),
        decreases table@.len() - i,
    {
        let ghost before = found@;
        proof {
            lemma_filter_step(table@, keep, i as int);
        }
        if table[i].file_id == node.file_id && table[i].function_id == node.function_id && touches(
            &table[i].diagnostic,
            node,
        ) {
            let one = table[i].diagnostic.clone();
            found.push(one);
            assert(limit_views(found@) =~= limit_views(before).push(one@));
            assert(first + table@.take(i + 1).filter(keep).map_values(turn) =~= (first
                + table@.take(i as int).filter(keep).map_values(turn)).push(one@));
        }
        i += 1;
    }
    assert(table@.take(i as int) =~= table@);
    found
}

fn was_reported(
    reported: &[(FileId, ExtractDiagnostic)],
    file: &FileId,
    limit: &ExtractDiagnostic,
) -> (r: bool)
    ensures
        r == report_views(reported@).contains((*file, limit@)),
{
    let ghost views = report_views(reported@);
    let mut i: usize = 0;
    while i < reported.len()
        invariant
            i <= reported@.len(),
            views == report_views(reported@),
            forall|k: int| 0 <= k < i ==> views[k] != (*file, limit@),
        decreases reported@.len() - i,
    {
        assert(views[i as int] == (reported@[i as int].0, reported@[i as int].1@));
        if reported[i].0 == *file && same_limit(&reported[i].1, limit) {
            return true;
        }
        i += 1;
    }
    false
}

proof fn lemma_reported_again(
    reported: Seq<(FileId, ExtractDiagnosticView)>,
    file: FileId,
    fresh: Seq<ExtractDiagnosticView>,
    limit: ExtractDiagnosticView,
)
    ensures
        (reported + fresh.map_values(|d: ExtractDiagnosticView| (file, d))).contains((file, limit))
            <==> reported.contains((file, limit)) || fresh.contains(limit),
{
    let added = fresh.map_values(|d: ExtractDiagnosticView| (file, d));
    let all = reported + added;
    if all.contains((file, limit)) {
        let i = choose|i: int| 0 <= i < all.len() && all[i] == (file, limit);
        if i < reported.len() {
            assert(reported[i] == (file, limit));
        } else {
            assert(fresh[i - reported.len()] == limit);
        }
    }
    if reported.contains((file, limit)) {
        let i = choose|i: int| 0 <= i < reported.len() && reported[i] == (file, limit);
        assert(all[i] == (file, limit));
    }
    if fresh.contains(limit) {
        let i = choose|i: int| 0 <= i < fresh.len() && fresh[i] == limit;
        assert(all[reported.len() + i] == (file, limit));
    }
}

fn drop_repeats(candidates: &[Candidate]) -> (r: Vec<Candidate>)
    ensures
        candidate_views(r@) == without_repeats(candidate_views(candidates@)),
{
    let ghost views = candidate_views(candidates@);
    let mut kept: Vec<Candidate> = Vec::new();
    let mut i: usize = 0;
    assert(candidate_views(kept@) =~= without_repeats(views.take(0)));
    while i < candidates.len()
        invariant
            i <= candidates@.len(),
            views == candidate_views(candidates@),
            candidate_views(kept@) == without_repeats(views.take(i as int)),
        decreases candidates@.len() - i,
    {
        let ghost before = kept@;
        assert(views.take(i + 1).drop_last() =~= views.take(i as int));
        assert(views[i as int] == candidates@[i as int]@);
        let c = &candidates[i];
        let repeated = kept.len() > 0 && {
            let last = &kept[kept.len() - 1];
            last.edge.source == c.edge.source && last.edge.target == c.edge.target && last.edge.kind
                == c.edge.kind && last.callsite_id == c.callsite_id
        };
        if !repeated {
            let c = c.copy();
            kept.push(c);
            proof {
                lemma_push_candidate(before, c);
            }
        }
        i += 1;
    }
    assert(views.take(i as int) =~= views);
    kept
}

impl Walk {
    fn note(&mut self, diagnostic: TraceDiagnostic)
        ensures
            final(self)@ == old(self)@.note(diagnostic@),
    {
        proof {
            lemma_push_diagnostic(self.diagnostics@, diagnostic);
        }
        self.diagnostics.push(diagnostic);
    }

    fn note_here(&mut self, reading: &Reading<'_>, finding: Finding, edges: &[Candidate])
        ensures
            final(self)@ == old(self)@.note_here(
                reading.inputs(),
                finding,
                candidate_views(edges@),
            ),
    {
        let diagnostic = reading.frontier_diagnostic(
            finding,
            &self.current,
            self.context.as_slice(),
            edges,
        );
        self.note(diagnostic);
    }

    fn note_some(&mut self, reading: &Reading<'_>, finding: Finding, edges: &[Candidate])
        ensures
            final(self)@ == old(self)@.note_some(
                reading.inputs(),
                finding,
                candidate_views(edges@),
            ),
    {
        if edges.len() > 0 {
            self.note_here(reading, finding, edges);
        }
    }

    fn note_selected(
        &mut self,
        reading: &Reading<'_>,
        finding: Finding,
        which: Trait,
        candidates: &[Candidate],
    )
        ensures
            final(self)@ == old(self)@.note_some(
                reading.inputs(),
                finding,
                selected(
                    reading.inputs(),
                    old(self)@.visited,
                    which,
                    candidate_views(candidates@),
                ),
            ),
    {
        let edges = reading.select(self.visited.as_slice(), which, candidates);
        self.note_some(reading, finding, edges.as_slice());
    }

    fn report_limits(&mut self, reading: &Reading<'_>)
        ensures
            final(self)@ == report_limits(reading.inputs(), old(self)@),
    {
        let limits = collect_limits(reading.store, &self.current);
        let file = self.current.file_id;
        let ghost all = limit_views(limits@);
        let ghost before = self@;
        let ghost tell = |d: ExtractDiagnosticView| limit_diagnostic(file, d);
        let ghost mark = |d: ExtractDiagnosticView| (file, d);
        let mut i: usize = 0;
        proof {
            let none = unreported(before.reported, file, all.take(0));
            assert(before.diagnostics =~= before.diagnostics + none.map_values(tell));
            assert(before.reported =~= before.reported + none.map_values(mark));
        }
        while i < limits.len()
            invariant
                i <= limits@.len(),
                all == limit_views(limits@),
                file == before.current.file_id,
                tell == (|d: ExtractDiagnosticView| limit_diagnostic(file, d)),
                mark == (|d: ExtractDiagnosticView| (file, d)),
                self@ == (TraceState {
                    diagnostics: before.diagnostics + unreported(
                        before.reported,
                        file,
                        all.take(i as int),
                    ).map_values(tell),
                    reported: before.reported + unreported(
                        before.reported,
                        file,
                        all.take(i as int),
                    ).map_values(mark),
                    ..before
                }),
            decreases limits@.len() - i,
        {
            let ghost fresh = unreported(before.reported, file, all.take(i as int));
            proof {
                assert(all.take(i + 1).drop_last() =~= all.take(i as int));
                assert(all[i as int] == limits@[i as int]@);
                lemma_reported_again(before.reported, file, fresh, all[i as int]);
            }
            if !was_reported(self.reported.as_slice(), &file, &limits[i]) {
                let ghost mid = self@;
                self.note(
                    TraceDiagnostic::ExtractionLimit {
                        limit: limits[i].message.clone(),
                        file_id: file,
                        location: limits[i].range,
                    },
                );
                let ghost held = self.reported@;
                self.reported.push((file, limits[i].clone()));
                proof {
                    let d = all[i as int];
                    assert(report_views(self.reported@) =~= report_views(held).push((file, d)));
                    assert(fresh.push(d).map_values(tell) =~= fresh.map_values(tell).push(tell(d)));
                    assert(fresh.push(d).map_values(mark) =~= fresh.map_values(mark).push(mark(d)));
                    assert(before.diagnostics + fresh.push(d).map_values(tell) =~= (
                    before.diagnostics + fresh.map_values(tell)).push(tell(d)));
                    assert(before.reported + fresh.push(d).map_values(mark) =~= (before.reported
                        + fresh.map_values(mark)).push(mark(d)));
                }
            }
            i += 1;
        }
        assert(all.take(i as int) =~= all);
    }

    fn follow(&mut self, reading: &Reading<'_>, candidate: &Candidate)
        requires
            find_node(reading.store.data_nodes@, candidate.edge.source) is Some,
            candidate.context is Some,
        ensures
            final(self)@ == follow(reading.inputs(), old(self)@, candidate@),
    {
        let source = reading.store.get_data_node(&candidate.edge.source).unwrap();
        let context = match &candidate.context {
            None => Vec::new(),
            Some(calls) => copy_ids(calls.as_slice()),
        };
        let step = TracePathStep {
            index: 0,
            from_node_id: source.id,
            to_node_id: self.current.id,
            kind: candidate.edge.kind,
            description: kind_description(&candidate.edge.kind),
            file_id: source.file_id,
            location: Some(source.range),
            call_context: copy_ids(context.as_slice()),
            evidence: None,
        };
        let ghost steps = self.steps@;
        let ghost visited = self.visited@;
        self.steps.push(step);
        let pair = (source.id, copy_ids(context.as_slice()));
        self.visited.push(pair);
        self.context = context;
        self.current = source.clone();
        assert(step_views(self.steps@) =~= step_views(steps).push(step@));
        assert(pair_views(self.visited@) =~= pair_views(visited).push((pair.0, pair.1@)));
    }

    /// Select the predecessor to follow; says whether the trace goes on.
    fn select_next(&mut self, reading: &Reading<'_>, candidates: &[Candidate]) -> (r: bool)
        requires
            forall|i: int|
                0 <= i < candidates@.len() ==> find_node(
                    reading.store.data_nodes@,
                    (#[trigger] candidates@[i]).edge.source,
                ) is Some,
        ensures
            (final(self)@, r) == select_next(
                reading.inputs(),
                old(self)@,
                candidate_views(candidates@),
            ),
    {
        proof {
            reveal(select_next);
        }
        let ghost inputs = reading.inputs();
        let ghost v = self@.visited;
        let ghost views = candidate_views(candidates@);
        self.note_selected(reading, Finding::VirtualBoundary, Trait::Virtual, candidates);
        self.note_selected(reading, Finding::CallContextExcluded, Trait::OtherCall, candidates);
        self.note_selected(
            reading,
            Finding::CallBoundaryUnavailable,
            Trait::Unestablished,
            candidates,
        );
        self.note_selected(
            reading,
            Finding::ReturnConditionExcluded,
            Trait::Contradicted,
            candidates,
        );
        let left = reading.select(self.visited.as_slice(), Trait::Consistent, candidates);
        let empty: Vec<Candidate> = Vec::new();
        assert(candidate_views(empty@) =~= Seq::empty());
        assert(candidate_views(left@).len() == left@.len());
        if left.len() == 0 {
            if !matches!(
                self.current.kind,
                DataNodeKind::Literal | DataNodeKind::Parameter | DataNodeKind::Global
            ) {
                self.note_here(reading, Finding::OriginUnestablished, empty.as_slice());
            }
            return false;
        }
        assert(step_views(self.steps@).len() == self.steps@.len());
        if self.steps.len() >= reading.max_depth {
            self.truncated = true;
            self.note_here(reading, Finding::MaxDepthTruncated, left.as_slice());
            return false;
        }
        self.note_selected(reading, Finding::CycleUnexpanded, Trait::Cycle, left.as_slice());
        let mut available = reading.select(
            self.visited.as_slice(),
            Trait::Available,
            left.as_slice(),
        );
        assert(candidate_views(available@).len() == available@.len());
        let ghost usable = candidate_views(available@);
        proof {
            if usable.len() > 0 {
                let best = usable.last();
                lemma_selected(inputs, v, Trait::Available, candidate_views(left@), best);
                lemma_selected(inputs, v, Trait::Consistent, views, best);
                let k = choose|k: int| 0 <= k < views.len() && views[k] == best;
                assert(candidates@[k]@ == best);
            }
        }
        match available.pop() {
            None => false,
            Some(best) => {
                assert(candidate_views(available@) =~= usable.drop_last());
                assert(usable.last() == best@);
                self.note_some(
                    reading,
                    Finding::AlternativesUnexpanded,
                    available.as_slice(),
                );
                self.follow(reading, &best);
                true
            },
        }
    }

    /// Take one step; says whether the trace goes on.
    fn advance<'a>(
        &mut self,
        reading: &Reading<'a>,
        contexts: &mut CallContexts<'a>,
    ) -> (r: bool)
        requires
            old(contexts).wf(),
            old(contexts).recorded() == reading.store.resolved_callsites@,
        ensures
            final(contexts).wf(),
            final(contexts).recorded() == old(contexts).recorded(),
            (final(self)@, r) == advance_spec(reading.inputs(), old(self)@),
    {
        proof {
            reveal(advance_spec);
        }
        let ghost inputs = reading.inputs();
        let ghost begin = self@;
        let empty: Vec<Candidate> = Vec::new();
        assert(candidate_views(empty@) =~= Seq::empty());
        if !contexts.valid_for(&self.current, self.context.as_slice()) {
            self.note_here(reading, Finding::InvocationUnestablished, empty.as_slice());
            return false;
        }
        self.report_limits(reading);
        let found = reading.incoming_candidates(&self.current.id);
        if matches!(self.current.kind, DataNodeKind::CallOutput) && !any_kind(
            found.as_slice(),
            DataFlowKind::WritebackToCall,
        ) {
            let call = match self.current.callsite_id {
                None => None,
                Some(id) => match reading.store.find_callsite_by_id(&id) {
                    None => None,
                    Some(call) => Some(call.range),
                },
            };
            let diagnostic = TraceDiagnostic::CallOutputUnavailable {
                file_id: self.current.file_id,
                argument: self.current.range,
                call,
            };
            self.note(diagnostic);
            return false;
        }
        if matches!(self.current.kind, DataNodeKind::CallReturn) && !any_kind(
            found.as_slice(),
            DataFlowKind::ReturnToCall,
        ) {
            self.note_here(reading, Finding::CallResultUnavailable, empty.as_slice());
        }
        let resolved = reading.resolve(contexts, found, &self.current, self.context.as_slice());
        let mut candidates = resolved;
        if matches!(self.current.kind, DataNodeKind::Field) && any_kind(
            candidates.as_slice(),
            DataFlowKind::FieldStore,
        ) {
            let receivers = reading.select(
                self.visited.as_slice(),
                Trait::Receiver,
                candidates.as_slice(),
            );
            assert(candidate_views(receivers@).len() == receivers@.len());
            if receivers.len() > 0 {
                self.note_here(reading, Finding::FieldReceiverContext, receivers.as_slice());
                candidates = reading.select(
                    self.visited.as_slice(),
                    Trait::Value,
                    candidates.as_slice(),
                );
            }
        }
        self.note_selected(
            reading,
            Finding::DataNodeMissing,
            Trait::Missing,
            candidates.as_slice(),
        );
        let present = reading.select(
            self.visited.as_slice(),
            Trait::Present,
            candidates.as_slice(),
        );
        proof {
            assert forall|i: int| 0 <= i < present@.len() implies find_node(
                reading.store.data_nodes@,
                (#[trigger] present@[i]).edge.source,
            ) is Some by {
                let views = candidate_views(present@);
                assert(views[i] == present@[i]@);
                assert(views.contains(views[i]));
                lemma_selected(
                    inputs,
                    begin.visited,
                    Trait::Present,
                    candidate_views(candidates@),
                    views[i],
                );
            }
        }
        let sorted = reading.order(&self.current, present.as_slice());
        let kept = drop_repeats(sorted.as_slice());
        proof {
            assert forall|i: int| 0 <= i < kept@.len() implies find_node(
                reading.store.data_nodes@,
                (#[trigger] kept@[i]).edge.source,
            ) is Some by {
                let views = candidate_views(kept@);
                assert(views[i] == kept@[i]@);
                assert(views.contains(views[i]));
                lemma_kept(candidate_views(sorted@), views[i]);
                lemma_ordered(inputs, begin.current, candidate_views(present@), views[i]);
                let k = choose|k: int|
                    0 <= k < present@.len() && candidate_views(present@)[k] == views[i];
                assert(present@[k]@ == views[i]);
            }
        }
        self.select_next(reading, kept.as_slice())
    }
}

pub(crate) proof fn lemma_selected(
    inputs: TraceInputs,
    visited: Seq<(DataNodeId, Seq<CallsiteId>)>,
    which: Trait,
    candidates: Seq<CandidateView>,
    c: CandidateView,
)
    requires
        selected(inputs, visited, which, candidates).contains(c),
    ensures
        candidates.contains(c),
        has_trait(inputs, visited, which, c),
{
    let keep = |c: CandidateView| has_trait(inputs, visited, which, c);
    candidates.lemma_filter_contains_rev(keep, c);
    let kept = candidates.filter(keep);
    let i = choose|i: int| 0 <= i < kept.len() && kept[i] == c;
    candidates.lemma_filter_pred(keep, i);
}

pub(crate) proof fn lemma_kept(candidates: Seq<CandidateView>, c: CandidateView)
    requires
        without_repeats(candidates).contains(c),
    ensures
        candidates.contains(c),
    decreases candidates.len(),
{
    if candidates.len() > 0 {
        let shorter = candidates.drop_last();
        let before = without_repeats(shorter);
        let kept = without_repeats(candidates);
        let i = choose|i: int| 0 <= i < kept.len() && kept[i] == c;
        if i < before.len() {
            assert(before[i] == c);
            lemma_kept(shorter, c);
            let k = choose|k: int| 0 <= k < shorter.len() && shorter[k] == c;
            assert(candidates[k] == c);
        } else {
            assert(candidates[candidates.len() - 1] == c);
        }
    }
}

pub(crate) proof fn lemma_ordered(
    inputs: TraceInputs,
    current: DataNode,
    candidates: Seq<CandidateView>,
    c: CandidateView,
)
    requires
        ordered(inputs, current, candidates).contains(c),
    ensures
        candidates.contains(c),
{
    let keys = candidates.map_values(|c: CandidateView| candidate_key(inputs, current, c));
    ordered_rows_is_a_permutation(keys, candidates.len());
    let rows = ordered_rows(keys, candidates.len());
    let sorted = ordered(inputs, current, candidates);
    let i = choose|i: int| 0 <= i < sorted.len() && sorted[i] == c;
    assert(candidates[rows[i]] == c);
}

/// Which file and name a step was read from.
fn build_step_evidence(store: &Store, file_id: &FileId, node_id: &DataNodeId) -> (r: Option<
    Evidence,
>)
    ensures
        r == evidence_for(*store, *file_id, *node_id),
{
    match store.get_file(file_id) {
        None => None,
        Some(info) => Some(
            Evidence {
                file_path: info.path.clone(),
                snippet: None,
                symbol_name: match store.get_data_node(node_id) {
                    None => None,
                    Some(node) => node.name.clone(),
                },
            },
        ),
    }
}

/// The steps from source to sink, numbered, each with its evidence.
fn show_steps(store: &Store, steps: Vec<TracePathStep>) -> (r: Vec<TracePathStep>)
    ensures
        step_views(r@) == shown_steps(*store, step_views(steps@)),
{
    let ghost views = step_views(steps@);
    let ghost shown = shown_steps(*store, views);
    let mut result: Vec<TracePathStep> = Vec::new();
    let count: usize = steps.len();
    let mut i: usize = 0;
    while i < count
        invariant
            i <= count,
            count == steps@.len(),
            views == step_views(steps@),
            shown == shown_steps(*store, views),
            step_views(result@) == shown.take(i as int),
        decreases count - i,
    {
        let ghost before = result@;
        let step = &steps[count - 1 - i];
        let next = TracePathStep {
            index: i as u32,
            from_node_id: step.from_node_id,
            to_node_id: step.to_node_id,
            kind: step.kind,
            description: step.description,
            file_id: step.file_id,
            location: step.location,
            call_context: copy_ids(step.call_context.as_slice()),
            evidence: build_step_evidence(store, &step.file_id, &step.from_node_id),
        };
        assert(views[count - 1 - i] == steps@[count - 1 - i]@);
        assert(next@ == shown[i as int]);
        result.push(next);
        assert(step_views(result@) =~= step_views(before).push(next@));
        assert(shown.take(i + 1) =~= shown.take(i as int).push(shown[i as int]));
        i += 1;
    }
    assert(shown.take(i as int) =~= shown);
    result
}

/// What a trace reads, by value.
pub open spec fn inputs_of(
    store: Store,
    max_depth: usize,
    virtual_edges: Option<&[TraceEdge]>,
    excluded_returns: Seq<(DataNodeId, Vec<CallsiteId>)>,
) -> TraceInputs {
    TraceInputs {
        store,
        virtual_edges: match virtual_edges {
            None => None,
            Some(edges) => Some(edges@),
        },
        excluded_returns: pair_views(excluded_returns),
        max_depth: max_depth as nat,
    }
}

impl Slicer {
    /// Slice backward from the data node of `sink_point`: a path that shows how the
    /// value reached this position, or nothing where the point has no data node.
    ///
    /// * `store` holds the recorded dataflow.
    /// * `sink_point` is the position to trace from.
    /// * `max_depth` is the most backward steps to take.
    /// * `virtual_edges` follow from call or state facts without being recorded.
    /// * `excluded_returns` are exits that conflict with what is known of an
    ///   invocation. They apply to that invocation only, never to a shared node.
    pub fn slice(
        store: &Store,
        sink_point: &TracePoint,
        max_depth: usize,
        virtual_edges: Option<&[TraceEdge]>,
        excluded_returns: &[(DataNodeId, Vec<CallsiteId>)],
    ) -> (r: Option<TracePath>)
        ensures
            match (sink_point.data_node, r) {
                (None, None) => true,
                (Some(node), Some(path)) => path@ == trace_path(
                    inputs_of(*store, max_depth, virtual_edges, excluded_returns@),
                    sink_point@,
                    node,
                ),
                _ => false,
            },
    {
        let sink_node = match &sink_point.data_node {
            None => {
                return None;
            },
            Some(node) => node,
        };
        let reading = Reading { store, virtual_edges, excluded_returns, max_depth };
        let ghost inputs = reading.inputs();
        let mut contexts = CallContexts::new(store);
        let mut visited: Vec<(DataNodeId, Vec<CallsiteId>)> = Vec::new();
        visited.push((sink_node.id, copy_ids(sink_point.call_context.as_slice())));
        let mut walk = Walk {
            current: sink_node.clone(),
            context: copy_ids(sink_point.call_context.as_slice()),
            steps: Vec::new(),
            visited,
            diagnostics: copy_diagnostics(sink_point.diagnostics.as_slice()),
            reported: Vec::new(),
            truncated: false,
        };
        let ghost begin = start(sink_point@, *sink_node);
        assert(walk@ =~= begin) by {
            assert(step_views(walk.steps@) =~= Seq::empty());
            assert(pair_views(walk.visited@) =~= begin.visited);
            assert(report_views(walk.reported@) =~= Seq::empty());
        }
        let mut goes_on = true;
        while goes_on
            invariant
                contexts.wf(),
                contexts.recorded() == store.resolved_callsites@,
                reading.store == store,
                reading.max_depth == max_depth,
                inputs == reading.inputs(),
                goes_on ==> run(inputs, begin) == run(inputs, walk@),
                !goes_on ==> run(inputs, begin) == walk@,
                walk@.steps.len() <= inputs.max_depth,
            decreases inputs.max_depth - walk@.steps.len(), if goes_on { 1int } else { 0int },
        {
            let ghost before = walk@;
            goes_on = walk.advance(&reading, &mut contexts);
            proof {
                lemma_advance(inputs, before);
            }
        }
        let Walk { current, context, steps, visited, diagnostics, reported: _, truncated } = walk;
        assert(step_views(steps@).len() == steps@.len());
        let depth: usize = steps.len();
        let shown = show_steps(store, steps);
        let source = TracePoint {
            file_id: current.file_id,
            line: current.range.start_line.saturating_add(1),
            column: current.range.start_column.saturating_add(1),
            data_node: Some(current),
            call_context: context,
            capability: sink_point.capability.clone(),
            partial_result: false,
            diagnostics: Vec::new(),
        };
        assert(source@.diagnostics =~= Seq::empty());
        let partial = sink_point.partial_result || diagnostics.len() > 0;
        let path = TracePath {
            source,
            steps: shown,
            sink: sink_point.copy(),
            confidence: compute_confidence(depth, truncated),
            nodes_visited: visited.len(),
            max_depth_reached: depth,
            capability: sink_point.capability.clone(),
            partial_result: partial,
            diagnostics,
        };
        Some(path)
    }
}

proof fn lemma_advance(inputs: TraceInputs, state: TraceState)
    ensures
        ({
            let (next, goes_on) = advance_spec(inputs, state);
            if goes_on {
                state.steps.len() < inputs.max_depth && next.steps.len() == state.steps.len() + 1
            } else {
                next.steps == state.steps
            }
        }),
{
    reveal(advance_spec);
    reveal(select_next);
}

/// Whether a diagnostic says that the depth limit cut the trace short.
pub open spec fn is_depth_limit(d: TraceDiagnosticView) -> bool {
    match d {
        TraceDiagnosticView::Frontier { finding, .. } => finding == Finding::MaxDepthTruncated,
        _ => false,
    }
}

/// Whether an edge from one node to another is recorded or supplied.
pub open spec fn is_known_edge(
    inputs: TraceInputs,
    from: DataNodeId,
    to: DataNodeId,
    kind: DataFlowKind,
) -> bool {
    (exists|i: int|
        0 <= i < inputs.store.dataflow_edges@.len() && (#[trigger] inputs.store.dataflow_edges@[i]).source
            == from && inputs.store.dataflow_edges@[i].target == to
            && inputs.store.dataflow_edges@[i].kind == kind) || (inputs.virtual_edges is Some && exists|
        i: int,
    |
        0 <= i < inputs.virtual_edges->0.len() && (#[trigger] inputs.virtual_edges->0[i]).source_id
            == from && inputs.virtual_edges->0[i].target_id == to && inputs.virtual_edges->0[i].kind
            == kind)
}

/// What holds of a trace at every step.
pub open spec fn is_sound(
    inputs: TraceInputs,
    sink: TracePointView,
    node: DataNode,
    s: TraceState,
) -> bool {
    &&& s.steps.len() <= inputs.max_depth
    &&& s.visited.len() == s.steps.len() + 1
    &&& s.visited[0] == (node.id, sink.call_context)
    &&& s.visited.last() == (s.current.id, s.context)
    &&& s.visited.no_duplicates()
    &&& s.steps.len() == 0 ==> s.current == node
    &&& forall|i: int|
        0 <= i < s.steps.len() ==> {
            let step = #[trigger] s.steps[i];
            &&& s.visited[i].0 == step.to_node_id
            &&& s.visited[i + 1] == (step.from_node_id, step.call_context)
            &&& step.description == description_of(step.kind)
            &&& is_known_edge(inputs, step.from_node_id, step.to_node_id, step.kind)
        }
    &&& sink.diagnostics.is_prefix_of(s.diagnostics)
    &&& s.truncated ==> exists|i: int|
        0 <= i < s.diagnostics.len() && is_depth_limit(#[trigger] s.diagnostics[i])
}

/// Whether a state differs from another at most by more diagnostics.
pub open spec fn only_notes(before: TraceState, after: TraceState) -> bool {
    &&& after.current == before.current
    &&& after.context == before.context
    &&& after.steps == before.steps
    &&& after.visited == before.visited
    &&& after.truncated == before.truncated
    &&& before.diagnostics.is_prefix_of(after.diagnostics)
}

proof fn lemma_only_notes(
    inputs: TraceInputs,
    sink: TracePointView,
    node: DataNode,
    before: TraceState,
    after: TraceState,
)
    requires
        is_sound(inputs, sink, node, before),
        only_notes(before, after),
    ensures
        is_sound(inputs, sink, node, after),
{
    if before.truncated {
        let i = choose|i: int|
            0 <= i < before.diagnostics.len() && is_depth_limit(#[trigger] before.diagnostics[i]);
        assert(after.diagnostics[i] == before.diagnostics[i]);
    }
}

proof fn lemma_incoming(inputs: TraceInputs, target: DataNode, context: Seq<CallsiteId>, c: CandidateView)
    requires
        resolve_all(inputs, incoming(inputs, target.id), target, context).contains(c),
    ensures
        is_known_edge(inputs, c.edge.source, target.id, c.edge.kind),
{
    let found = incoming(inputs, target.id);
    let all = resolve_all(inputs, found, target, context);
    let i = choose|i: int| 0 <= i < all.len() && all[i] == c;
    let raw = found[i];
    assert(c == resolve_candidate(inputs, raw, target, context));
    let edges = inputs.store.dataflow_edges@;
    let keep = |e: DataFlowEdge| e.target == target.id && traced(e.kind);
    let kept = edges.filter(keep);
    if i < kept.len() {
        let e = kept[i];
        assert(raw == stored_candidate(e));
        assert(kept.contains(e));
        edges.lemma_filter_contains_rev(keep, e);
        edges.lemma_filter_pred(keep, i);
        let k = choose|k: int| 0 <= k < edges.len() && edges[k] == e;
        assert(edges[k].source == c.edge.source);
    } else {
        let edges = inputs.virtual_edges->0;
        let keep = |e: TraceEdge| e.target_id == target.id && traced(e.kind);
        let more = edges.filter(keep);
        let j = i - kept.len();
        let e = more[j];
        assert(raw == virtual_candidate(e));
        assert(more.contains(e));
        edges.lemma_filter_contains_rev(keep, e);
        edges.lemma_filter_pred(keep, j);
        let k = choose|k: int| 0 <= k < edges.len() && edges[k] == e;
        assert(edges[k].source_id == c.edge.source);
    }
}

proof fn lemma_follow_is_sound(
    inputs: TraceInputs,
    sink: TracePointView,
    node: DataNode,
    s: TraceState,
    c: CandidateView,
)
    requires
        is_sound(inputs, sink, node, s),
        s.steps.len() < inputs.max_depth,
        c.context is Some,
        !revisits(s.visited, c),
        find_node(inputs.store.data_nodes@, c.edge.source) is Some,
        is_known_edge(inputs, c.edge.source, s.current.id, c.edge.kind),
    ensures
        is_sound(inputs, sink, node, follow(inputs, s, c)),
{
    let n = follow(inputs, s, c);
    lemma_found_node(inputs.store.data_nodes@, c.edge.source);
    let pair = (c.edge.source, c.context->0);
    assert(n.visited == s.visited.push(pair));
    assert forall|i: int, j: int|
        0 <= i < n.visited.len() && 0 <= j < n.visited.len() && i != j implies n.visited[i]
        != n.visited[j] by {
        if i == s.visited.len() {
            assert(s.visited.contains(s.visited[j]));
        } else if j == s.visited.len() {
            assert(s.visited.contains(s.visited[i]));
        }
    }
    assert forall|i: int| 0 <= i < n.steps.len() implies {
        let step = #[trigger] n.steps[i];
        &&& n.visited[i].0 == step.to_node_id
        &&& n.visited[i + 1] == (step.from_node_id, step.call_context)
        &&& step.description == description_of(step.kind)
        &&& is_known_edge(inputs, step.from_node_id, step.to_node_id, step.kind)
    } by {
        if i < s.steps.len() {
            assert(n.steps[i] == s.steps[i]);
        }
    }
    assert(n.visited[0] == s.visited[0]);
    if s.truncated {
        let i = choose|i: int|
            0 <= i < s.diagnostics.len() && is_depth_limit(#[trigger] s.diagnostics[i]);
        assert(is_depth_limit(n.diagnostics[i]));
    }
}

proof fn lemma_select_is_sound(
    inputs: TraceInputs,
    sink: TracePointView,
    node: DataNode,
    s: TraceState,
    candidates: Seq<CandidateView>,
)
    requires
        is_sound(inputs, sink, node, s),
        forall|c: CandidateView| #[trigger]
            candidates.contains(c) ==> is_known_edge(
                inputs,
                c.edge.source,
                s.current.id,
                c.edge.kind,
            ) && find_node(inputs.store.data_nodes@, c.edge.source) is Some,
    ensures
        is_sound(inputs, sink, node, select_next(inputs, s, candidates).0),
{
    let v = s.visited;
    let noted = s.note_some(
        inputs,
        Finding::VirtualBoundary,
        selected(inputs, v, Trait::Virtual, candidates),
    ).note_some(
        inputs,
        Finding::CallContextExcluded,
        selected(inputs, v, Trait::OtherCall, candidates),
    ).note_some(
        inputs,
        Finding::CallBoundaryUnavailable,
        selected(inputs, v, Trait::Unestablished, candidates),
    ).note_some(
        inputs,
        Finding::ReturnConditionExcluded,
        selected(inputs, v, Trait::Contradicted, candidates),
    );
    lemma_only_notes(inputs, sink, node, s, noted);
    let left = selected(inputs, v, Trait::Consistent, candidates);
    reveal(select_next);
    let (next, goes_on) = select_next(inputs, s, candidates);
    if left.len() == 0 {
        lemma_only_notes(inputs, sink, node, noted, next);
    } else if s.steps.len() >= inputs.max_depth {
        assert(is_depth_limit(next.diagnostics[next.diagnostics.len() - 1]));
    } else {
        let cycles = selected(inputs, v, Trait::Cycle, left);
        let available = selected(inputs, v, Trait::Available, left);
        let looped = noted.note_some(inputs, Finding::CycleUnexpanded, cycles);
        lemma_only_notes(inputs, sink, node, noted, looped);
        if available.len() > 0 {
            let rest = looped.note_some(
                inputs,
                Finding::AlternativesUnexpanded,
                available.drop_last(),
            );
            lemma_only_notes(inputs, sink, node, looped, rest);
            let best = available.last();
            assert(available.contains(best));
            lemma_selected(inputs, v, Trait::Available, left, best);
            lemma_selected(inputs, v, Trait::Consistent, candidates, best);
            lemma_follow_is_sound(inputs, sink, node, rest, best);
        }
    }
}

proof fn lemma_advance_is_sound(
    inputs: TraceInputs,
    sink: TracePointView,
    node: DataNode,
    s: TraceState,
)
    requires
        is_sound(inputs, sink, node, s),
    ensures
        is_sound(inputs, sink, node, advance_spec(inputs, s).0),
{
    reveal(advance_spec);
    let (next, goes_on) = advance_spec(inputs, s);
    if !in_context(inputs.store.resolved_callsites@, s.current, s.context) {
        lemma_only_notes(inputs, sink, node, s, next);
    } else {
        let found = incoming(inputs, s.current.id);
        let told = report_limits(inputs, s);
        lemma_only_notes(inputs, sink, node, s, told);
        if s.current.kind == DataNodeKind::CallOutput && !has_kind(
            found,
            DataFlowKind::WritebackToCall,
        ) {
            lemma_only_notes(inputs, sink, node, told, next);
        } else {
            let begun = if s.current.kind == DataNodeKind::CallReturn && !has_kind(
                found,
                DataFlowKind::ReturnToCall,
            ) {
                told.note_here(inputs, Finding::CallResultUnavailable, Seq::empty())
            } else {
                told
            };
            lemma_only_notes(inputs, sink, node, told, begun);
            let all = resolve_all(inputs, found, s.current, s.context);
            let (aside, candidates) = set_receivers_aside(inputs, begun, all);
            lemma_only_notes(inputs, sink, node, begun, aside);
            let complete = aside.note_some(
                inputs,
                Finding::DataNodeMissing,
                selected(inputs, s.visited, Trait::Missing, candidates),
            );
            lemma_only_notes(inputs, sink, node, aside, complete);
            let present = selected(inputs, s.visited, Trait::Present, candidates);
            let sorted = ordered(inputs, s.current, present);
            let kept = without_repeats(sorted);
            assert forall|c: CandidateView| #[trigger] kept.contains(c) implies is_known_edge(
                inputs,
                c.edge.source,
                s.current.id,
                c.edge.kind,
            ) && find_node(inputs.store.data_nodes@, c.edge.source) is Some by {
                lemma_kept(sorted, c);
                lemma_ordered(inputs, s.current, present, c);
                lemma_selected(inputs, s.visited, Trait::Present, candidates, c);
                if candidates != all {
                    lemma_selected(inputs, begun.visited, Trait::Value, all, c);
                }
                lemma_incoming(inputs, s.current, s.context, c);
            }
            lemma_select_is_sound(inputs, sink, node, complete, kept);
        }
    }
}

proof fn lemma_run_is_sound(inputs: TraceInputs, sink: TracePointView, node: DataNode, s: TraceState)
    requires
        is_sound(inputs, sink, node, s),
    ensures
        is_sound(inputs, sink, node, run(inputs, s)),
    decreases inputs.max_depth - s.steps.len(),
{
    let (next, goes_on) = advance_spec(inputs, s);
    lemma_advance_is_sound(inputs, sink, node, s);
    if goes_on && s.steps.len() < next.steps.len() <= inputs.max_depth {
        lemma_run_is_sound(inputs, sink, node, next);
    }
}

proof fn lemma_end_is_sound(inputs: TraceInputs, sink: TracePointView, node: DataNode)
    ensures
        is_sound(inputs, sink, node, run(inputs, start(sink, node))),
{
    lemma_run_is_sound(inputs, sink, node, start(sink, node));
}

/// The steps of a path follow one another from its source to its sink, and are
/// numbered from zero.
pub proof fn path_is_contiguous(inputs: TraceInputs, sink: TracePointView, node: DataNode)
    ensures
        ({
            let path = trace_path(inputs, sink, node);
            let steps = path.steps;
            &&& path.source.data_node is Some
            &&& steps.len() == 0 ==> path.source.data_node == Some(node)
            &&& steps.len() > 0 ==> steps[0].from_node_id == path.source.data_node->0.id
                && steps[0].call_context == path.source.call_context && steps.last().to_node_id
                == node.id
            &&& forall|i: int, j: int|
                0 <= i < j < steps.len() && j == i + 1 ==> (#[trigger] steps[i]).to_node_id == (
                #[trigger] steps[j]).from_node_id
            &&& forall|i: int| 0 <= i < steps.len() ==> (#[trigger] steps[i]).index == i as u32
        }),
{
    lemma_end_is_sound(inputs, sink, node);
    let end = run(inputs, start(sink, node));
    let steps = trace_path(inputs, sink, node).steps;
    let n = steps.len() as int;
    if n > 0 {
        assert(end.steps[n - 1].from_node_id == end.current.id);
        assert(end.steps[0].to_node_id == node.id);
        assert(steps[n - 1].to_node_id == end.steps[0].to_node_id);
    }
    assert forall|i: int, j: int| 0 <= i < j < steps.len() && j == i + 1 implies (
    #[trigger] steps[i]).to_node_id == (#[trigger] steps[j]).from_node_id by {
        let later = end.steps[n - 1 - i];
        let earlier = end.steps[n - 2 - i];
        assert(later.to_node_id == end.visited[n - 1 - i].0);
        assert(end.visited[n - 1 - i] == (earlier.from_node_id, earlier.call_context));
    }
}

/// A path takes at most the requested number of steps, reports how many it took,
/// and has seen one node more than that.
pub proof fn path_respects_depth(inputs: TraceInputs, sink: TracePointView, node: DataNode)
    ensures
        ({
            let path = trace_path(inputs, sink, node);
            &&& path.steps.len() <= inputs.max_depth
            &&& path.max_depth_reached == path.steps.len()
            &&& path.nodes_visited == path.steps.len() + 1
        }),
{
    lemma_end_is_sound(inputs, sink, node);
}

/// A path never comes to the same node in the same invocation twice.
pub proof fn path_does_not_repeat(inputs: TraceInputs, sink: TracePointView, node: DataNode)
    ensures
        ({
            let steps = trace_path(inputs, sink, node).steps;
            &&& forall|i: int, j: int|
                0 <= i < j < steps.len() ==> (#[trigger] steps[i]).from_node_id != (
                #[trigger] steps[j]).from_node_id || steps[i].call_context != steps[j].call_context
            &&& forall|i: int|
                0 <= i < steps.len() ==> (#[trigger] steps[i]).from_node_id != node.id
                    || steps[i].call_context != sink.call_context
        }),
{
    lemma_end_is_sound(inputs, sink, node);
    let end = run(inputs, start(sink, node));
    let steps = trace_path(inputs, sink, node).steps;
    let n = steps.len() as int;
    assert forall|i: int, j: int| 0 <= i < j < steps.len() implies (
    #[trigger] steps[i]).from_node_id != (#[trigger] steps[j]).from_node_id
        || steps[i].call_context != steps[j].call_context by {
        let a = end.steps[n - 1 - i];
        let b = end.steps[n - 1 - j];
        assert(end.visited[n - i] == (a.from_node_id, a.call_context));
        assert(end.visited[n - j] == (b.from_node_id, b.call_context));
    }
    assert forall|i: int| 0 <= i < steps.len() implies (#[trigger] steps[i]).from_node_id != node.id
        || steps[i].call_context != sink.call_context by {
        let a = end.steps[n - 1 - i];
        assert(end.visited[n - i] == (a.from_node_id, a.call_context));
        assert(end.visited[0] != end.visited[n - i]);
    }
}

/// Every step of a path is a recorded or supplied edge, shown under its own kind.
pub proof fn path_follows_known_edges(inputs: TraceInputs, sink: TracePointView, node: DataNode)
    ensures
        ({
            let steps = trace_path(inputs, sink, node).steps;
            forall|i: int|
                0 <= i < steps.len() ==> {
                    let step = #[trigger] steps[i];
                    &&& is_known_edge(inputs, step.from_node_id, step.to_node_id, step.kind)
                    &&& step.description == description_of(step.kind)
                    &&& step.evidence == evidence_for(
                        inputs.store,
                        step.file_id,
                        step.from_node_id,
                    )
                }
        }),
{
    lemma_end_is_sound(inputs, sink, node);
    let end = run(inputs, start(sink, node));
    let steps = trace_path(inputs, sink, node).steps;
    let n = steps.len() as int;
    assert forall|i: int| 0 <= i < steps.len() implies {
        let step = #[trigger] steps[i];
        &&& is_known_edge(inputs, step.from_node_id, step.to_node_id, step.kind)
        &&& step.description == description_of(step.kind)
        &&& step.evidence == evidence_for(inputs.store, step.file_id, step.from_node_id)
    } by {
        let a = end.steps[n - 1 - i];
    }
}

/// A path is partial exactly when its starting point was or something is reported;
/// what came with the starting point stays reported; and a trace that the depth
/// limit cut short says so.
pub proof fn limits_are_reported(inputs: TraceInputs, sink: TracePointView, node: DataNode)
    ensures
        ({
            let path = trace_path(inputs, sink, node);
            &&& path.partial_result == (sink.partial_result || path.diagnostics.len() > 0)
            &&& sink.diagnostics.is_prefix_of(path.diagnostics)
            &&& run(inputs, start(sink, node)).truncated ==> path.partial_result && exists|i: int|
                0 <= i < path.diagnostics.len() && is_depth_limit(#[trigger] path.diagnostics[i])
        }),
{
    lemma_end_is_sound(inputs, sink, node);
}

} // verus!
