//! What a trace starts from and what it shows.

use crate::collections::copy_ids;
use crate::facts::{DataFlowEdge, DataFlowKind, DataNode, DiagnosticLevel, TextRange};
use crate::ids::{CallsiteId, DataNodeId, FileId};
use crate::text::Text;
use crate::trace::call_context::context_view;
use vstd::prelude::*;

verus! {

/// An edge that is not recorded but follows from recorded call or state facts.
#[derive(PartialEq, Eq, Debug)]
pub struct TraceEdge {
    pub source_id: DataNodeId,
    pub target_id: DataNodeId,
    pub kind: DataFlowKind,
    pub callsite_id: Option<CallsiteId>,
    /// In hundredths.
    pub confidence: u8,
    pub provenance: Text,
}

impl TraceEdge {
    /// The edge as a dataflow edge without a source location.
    pub open spec fn as_dataflow_edge(self) -> DataFlowEdge {
        DataFlowEdge::made(
            self.source_id,
            self.target_id,
            self.kind,
            crate::facts::empty_range(),
            self.confidence,
        )
    }

    /// The edge as a dataflow edge without a source location.
    pub fn to_dataflow_edge(&self) -> (r: DataFlowEdge)
        ensures
            r == self.as_dataflow_edge(),
    {
        DataFlowEdge::between(
            self.source_id,
            self.target_id,
            self.kind,
            TextRange::default(),
            self.confidence,
        )
    }
}

/// Why a trace stops, or what it leaves unexpanded.
#[derive(Clone, Copy, PartialEq, Eq, Structural, Debug, Hash)]
pub enum Finding {
    InvocationUnestablished,
    CallResultUnavailable,
    FieldReceiverContext,
    DataNodeMissing,
    VirtualBoundary,
    CallContextExcluded,
    CallBoundaryUnavailable,
    ReturnConditionExcluded,
    OriginUnestablished,
    MaxDepthTruncated,
    CycleUnexpanded,
    AlternativesUnexpanded,
}

impl Finding {
    /// The code under which the finding is reported.
    pub open spec fn code_name(self) -> &'static str {
        match self {
            Finding::InvocationUnestablished => "trace_call_context_unavailable",
            Finding::CallResultUnavailable => "trace_call_result_unavailable",
            Finding::FieldReceiverContext => "trace_field_receiver_context",
            Finding::DataNodeMissing => "trace_data_node_missing",
            Finding::VirtualBoundary => "trace_virtual_boundary",
            Finding::CallContextExcluded => "trace_call_context_excluded",
            Finding::CallBoundaryUnavailable => "trace_call_context_unavailable",
            Finding::ReturnConditionExcluded => "trace_return_condition_excluded",
            Finding::OriginUnestablished => "trace_origin_unestablished",
            Finding::MaxDepthTruncated => "max_depth_truncated",
            Finding::CycleUnexpanded => "trace_cycle_unexpanded",
            Finding::AlternativesUnexpanded => "trace_alternatives_unexpanded",
        }
    }

    /// The code under which the finding is reported.
    pub fn code(&self) -> (r: &'static str)
        ensures
            r == self.code_name(),
    {
        match self {
            Finding::InvocationUnestablished => "trace_call_context_unavailable",
            Finding::CallResultUnavailable => "trace_call_result_unavailable",
            Finding::FieldReceiverContext => "trace_field_receiver_context",
            Finding::DataNodeMissing => "trace_data_node_missing",
            Finding::VirtualBoundary => "trace_virtual_boundary",
            Finding::CallContextExcluded => "trace_call_context_excluded",
            Finding::CallBoundaryUnavailable => "trace_call_context_unavailable",
            Finding::ReturnConditionExcluded => "trace_return_condition_excluded",
            Finding::OriginUnestablished => "trace_origin_unestablished",
            Finding::MaxDepthTruncated => "max_depth_truncated",
            Finding::CycleUnexpanded => "trace_cycle_unexpanded",
            Finding::AlternativesUnexpanded => "trace_alternatives_unexpanded",
        }
    }

    /// What the finding says.
    pub open spec fn message_text(self) -> &'static str {
        match self {
            Finding::InvocationUnestablished => "The requested invocation context is not established for this node",
            Finding::CallResultUnavailable => "No supported result source is available for this invocation or construction; evaluating its operands does not establish the result value",
            Finding::FieldReceiverContext => "These recorded receiver projections describe the store's object context, not its assigned value; object identity and later field reads require separate investigation",
            Finding::DataNodeMissing => "An incoming edge references a missing data node",
            Finding::VirtualBoundary => "Recorded call/state joins do not establish runtime execution or exhaustive value coverage",
            Finding::CallContextExcluded => "These incoming calls belong to other invocations of the callee",
            Finding::CallBoundaryUnavailable => "The call boundary or source invocation is not established; inspect its source before continuing",
            Finding::ReturnConditionExcluded => "These exits conflict with the return condition established for this invocation; the underlying facts remain available outside this condition scope",
            Finding::OriginUnestablished => "No recorded predecessor establishes this endpoint as a value origin",
            Finding::MaxDepthTruncated => "Incoming edges remain beyond the requested trace depth",
            Finding::CycleUnexpanded => "The displayed path does not unfold this cycle",
            Finding::AlternativesUnexpanded => "Additional recorded edges are not expanded in this single path; they need not represent distinct runtime values",
        }
    }

    /// What the finding says.
    pub fn message(&self) -> (r: &'static str)
        ensures
            r == self.message_text(),
    {
        match self {
            Finding::InvocationUnestablished => "The requested invocation context is not established for this node",
            Finding::CallResultUnavailable => "No supported result source is available for this invocation or construction; evaluating its operands does not establish the result value",
            Finding::FieldReceiverContext => "These recorded receiver projections describe the store's object context, not its assigned value; object identity and later field reads require separate investigation",
            Finding::DataNodeMissing => "An incoming edge references a missing data node",
            Finding::VirtualBoundary => "Recorded call/state joins do not establish runtime execution or exhaustive value coverage",
            Finding::CallContextExcluded => "These incoming calls belong to other invocations of the callee",
            Finding::CallBoundaryUnavailable => "The call boundary or source invocation is not established; inspect its source before continuing",
            Finding::ReturnConditionExcluded => "These exits conflict with the return condition established for this invocation; the underlying facts remain available outside this condition scope",
            Finding::OriginUnestablished => "No recorded predecessor establishes this endpoint as a value origin",
            Finding::MaxDepthTruncated => "Incoming edges remain beyond the requested trace depth",
            Finding::CycleUnexpanded => "The displayed path does not unfold this cycle",
            Finding::AlternativesUnexpanded => "Additional recorded edges are not expanded in this single path; they need not represent distinct runtime values",
        }
    }
}

/// Where an investigation can go on. Lines and columns count from one.
#[derive(Debug, PartialEq, Eq)]
pub struct Position {
    pub data_node_id: DataNodeId,
    pub file_id: FileId,
    pub location: TextRange,
    pub line: u32,
    pub column: u32,
    pub call_context: Option<Vec<CallsiteId>>,
}

/// A position, by value.
#[verifier::ext_equal]
pub struct PositionView {
    pub data_node_id: DataNodeId,
    pub file_id: FileId,
    pub location: TextRange,
    pub line: u32,
    pub column: u32,
    pub call_context: Option<Seq<CallsiteId>>,
}

impl View for Position {
    type V = PositionView;

    open spec fn view(&self) -> PositionView {
        PositionView {
            data_node_id: self.data_node_id,
            file_id: self.file_id,
            location: self.location,
            line: self.line,
            column: self.column,
            call_context: context_view(self.call_context),
        }
    }
}

/// A copy of a context that may be absent.
pub fn copy_context(context: &Option<Vec<CallsiteId>>) -> (r: Option<Vec<CallsiteId>>)
    ensures
        context_view(r) == context_view(*context),
{
    match context {
        None => None,
        Some(calls) => Some(copy_ids(calls.as_slice())),
    }
}

impl Position {
    /// A position with the same parts.
    pub fn copy(&self) -> (r: Self)
        ensures
            r@ == self@,
    {
        Position {
            data_node_id: self.data_node_id,
            file_id: self.file_id,
            location: self.location,
            line: self.line,
            column: self.column,
            call_context: copy_context(&self.call_context),
        }
    }
}

/// One more than a number, where that can be written.
pub open spec fn one_more(n: u32) -> u32 {
    if n == u32::MAX {
        u32::MAX
    } else {
        (n + 1) as u32
    }
}

/// The position of a node in a context.
pub open spec fn position_of(node: DataNode, context: Option<Seq<CallsiteId>>) -> PositionView {
    PositionView {
        data_node_id: node.id,
        file_id: node.file_id,
        location: node.range,
        line: one_more(node.range.start_line),
        column: one_more(node.range.start_column),
        call_context: context,
    }
}

/// An edge that a finding speaks of.
#[derive(Debug, PartialEq, Eq)]
pub struct EdgeDetail {
    pub source_id: DataNodeId,
    pub target_id: DataNodeId,
    pub edge_kind: DataFlowKind,
    pub callsite_id: Option<CallsiteId>,
    pub position: Option<Position>,
}

/// An edge that a finding speaks of, by value.
#[verifier::ext_equal]
pub struct EdgeDetailView {
    pub source_id: DataNodeId,
    pub target_id: DataNodeId,
    pub edge_kind: DataFlowKind,
    pub callsite_id: Option<CallsiteId>,
    pub position: Option<PositionView>,
}

impl View for EdgeDetail {
    type V = EdgeDetailView;

    open spec fn view(&self) -> EdgeDetailView {
        EdgeDetailView {
            source_id: self.source_id,
            target_id: self.target_id,
            edge_kind: self.edge_kind,
            callsite_id: self.callsite_id,
            position: match self.position {
                None => None,
                Some(position) => Some(position@),
            },
        }
    }
}

impl EdgeDetail {
    /// A detail with the same parts.
    pub fn copy(&self) -> (r: Self)
        ensures
            r@ == self@,
    {
        EdgeDetail {
            source_id: self.source_id,
            target_id: self.target_id,
            edge_kind: self.edge_kind,
            callsite_id: self.callsite_id,
            position: match &self.position {
                None => None,
                Some(position) => Some(position.copy()),
            },
        }
    }
}

/// A diagnostic of a trace.
#[derive(Debug, PartialEq, Eq)]
pub enum TraceDiagnostic {
    /// One that came with the starting point.
    Carried {
        level: DiagnosticLevel,
        code: Option<Text>,
        message: Text,
        detail: Option<Text>,
    },
    /// Extraction met a limit at a node of the trace.
    ExtractionLimit { limit: Text, file_id: FileId, location: Option<TextRange> },
    /// What a call leaves in a binding that it was given is not established.
    CallOutputUnavailable { file_id: FileId, argument: TextRange, call: Option<TextRange> },
    /// The trace stops at a node, or leaves edges into it unexpanded.
    Frontier {
        finding: Finding,
        at: Position,
        edges: Vec<EdgeDetail>,
        total_edges: usize,
        details_truncated: bool,
    },
}

/// A diagnostic of a trace, by value.
#[verifier::ext_equal]
pub enum TraceDiagnosticView {
    Carried {
        level: DiagnosticLevel,
        code: Option<Text>,
        message: Text,
        detail: Option<Text>,
    },
    ExtractionLimit { limit: Seq<u8>, file_id: FileId, location: Option<TextRange> },
    CallOutputUnavailable { file_id: FileId, argument: TextRange, call: Option<TextRange> },
    Frontier {
        finding: Finding,
        at: PositionView,
        edges: Seq<EdgeDetailView>,
        total_edges: nat,
        details_truncated: bool,
    },
}

/// The details of edges, by value.
pub open spec fn detail_views(edges: Seq<EdgeDetail>) -> Seq<EdgeDetailView> {
    edges.map_values(|edge: EdgeDetail| edge@)
}

impl View for TraceDiagnostic {
    type V = TraceDiagnosticView;

    open spec fn view(&self) -> TraceDiagnosticView {
        match *self {
            TraceDiagnostic::Carried { level, code, message, detail } => {
                TraceDiagnosticView::Carried { level, code, message, detail }
            },
            TraceDiagnostic::ExtractionLimit { limit, file_id, location } => {
                TraceDiagnosticView::ExtractionLimit { limit: limit@, file_id, location }
            },
            TraceDiagnostic::CallOutputUnavailable { file_id, argument, call } => {
                TraceDiagnosticView::CallOutputUnavailable { file_id, argument, call }
            },
            TraceDiagnostic::Frontier { finding, at, edges, total_edges, details_truncated } => {
                TraceDiagnosticView::Frontier {
                    finding,
                    at: at@,
                    edges: detail_views(edges@),
                    total_edges: total_edges as nat,
                    details_truncated,
                }
            },
        }
    }
}

impl TraceDiagnostic {
    /// A diagnostic with the same parts.
    pub fn copy(&self) -> (r: Self)
        ensures
            r@ == self@,
    {
        match self {
            TraceDiagnostic::Carried { level, code, message, detail } => {
                TraceDiagnostic::Carried {
                    level: *level,
                    code: code.clone(),
                    message: message.clone(),
                    detail: detail.clone(),
                }
            },
            TraceDiagnostic::ExtractionLimit { limit, file_id, location } => {
                TraceDiagnostic::ExtractionLimit {
                    limit: limit.clone(),
                    file_id: *file_id,
                    location: *location,
                }
            },
            TraceDiagnostic::CallOutputUnavailable { file_id, argument, call } => {
                TraceDiagnostic::CallOutputUnavailable {
                    file_id: *file_id,
                    argument: *argument,
                    call: *call,
                }
            },
            TraceDiagnostic::Frontier { finding, at, edges, total_edges, details_truncated } => {
                let mut copied: Vec<EdgeDetail> = Vec::new();
                let mut i: usize = 0;
                while i < edges.len()
                    invariant
                        i <= edges@.len(),
                        detail_views(copied@) == detail_views(edges@.take(i as int)),
                    decreases edges@.len() - i,
                {
                    let ghost before = copied@;
                    let edge = edges[i].copy();
                    copied.push(edge);
                    assert(edges@.take(i + 1) =~= edges@.take(i as int).push(edges@[i as int]));
                    assert(detail_views(copied@) =~= detail_views(before).push(edge@));
                    assert(detail_views(edges@.take(i + 1)) =~= detail_views(
                        edges@.take(i as int),
                    ).push(edges@[i as int]@));
                    i += 1;
                }
                assert(edges@.take(i as int) =~= edges@);
                TraceDiagnostic::Frontier {
                    finding: *finding,
                    at: at.copy(),
                    edges: copied,
                    total_edges: *total_edges,
                    details_truncated: *details_truncated,
                }
            },
        }
    }

    /// The code under which the diagnostic is reported.
    pub open spec fn code_bytes(self) -> Option<Seq<u8>> {
        match self {
            TraceDiagnostic::Carried { code, .. } => crate::text::optional_bytes(code),
            TraceDiagnostic::ExtractionLimit { .. } => Some(
                vstd::utf8::encode_utf8("trace_extraction_limit"@),
            ),
            TraceDiagnostic::CallOutputUnavailable { .. } => Some(
                vstd::utf8::encode_utf8("trace_call_output_unavailable"@),
            ),
            TraceDiagnostic::Frontier { finding, .. } => Some(
                vstd::utf8::encode_utf8(finding.code_name()@),
            ),
        }
    }

    /// The code under which the diagnostic is reported.
    pub fn code(&self) -> (r: Option<Text>)
        ensures
            crate::text::optional_bytes(r) == self.code_bytes(),
    {
        match self {
            TraceDiagnostic::Carried { code, .. } => code.clone(),
            TraceDiagnostic::ExtractionLimit { .. } => Some(Text::new("trace_extraction_limit")),
            TraceDiagnostic::CallOutputUnavailable { .. } => Some(
                Text::new("trace_call_output_unavailable"),
            ),
            TraceDiagnostic::Frontier { finding, .. } => Some(Text::new(finding.code())),
        }
    }

    /// What the diagnostic tells a reader.
    pub open spec fn message_bytes(self) -> Seq<u8> {
        match self {
            TraceDiagnostic::Carried { message, .. } => message@,
            TraceDiagnostic::ExtractionLimit { limit, .. } => limit@,
            TraceDiagnostic::CallOutputUnavailable { .. } => vstd::utf8::encode_utf8(
                "This binding was exposed as a call argument. The call's writeback or preservation of its prior value is not established; inspect this argument and the selected callee before continuing"@,
            ),
            TraceDiagnostic::Frontier { finding, .. } => vstd::utf8::encode_utf8(
                finding.message_text()@,
            ),
        }
    }

    /// What the diagnostic tells a reader.
    pub fn message(&self) -> (r: Text)
        ensures
            r@ == self.message_bytes(),
    {
        match self {
            TraceDiagnostic::Carried { message, .. } => message.clone(),
            TraceDiagnostic::ExtractionLimit { limit, .. } => limit.clone(),
            TraceDiagnostic::CallOutputUnavailable { .. } => Text::new(
                "This binding was exposed as a call argument. The call's writeback or preservation of its prior value is not established; inspect this argument and the selected callee before continuing",
            ),
            TraceDiagnostic::Frontier { finding, .. } => Text::new(finding.message()),
        }
    }
}

/// The diagnostics of a trace, by value.
pub open spec fn diagnostic_views(diagnostics: Seq<TraceDiagnostic>) -> Seq<TraceDiagnosticView> {
    diagnostics.map_values(|d: TraceDiagnostic| d@)
}

/// A copy of a list of diagnostics.
pub fn copy_diagnostics(diagnostics: &[TraceDiagnostic]) -> (r: Vec<TraceDiagnostic>)
    ensures
        diagnostic_views(r@) == diagnostic_views(diagnostics@),
{
    let mut copied: Vec<TraceDiagnostic> = Vec::new();
    let mut i: usize = 0;
    while i < diagnostics.len()
        invariant
            i <= diagnostics@.len(),
            diagnostic_views(copied@) == diagnostic_views(diagnostics@.take(i as int)),
        decreases diagnostics@.len() - i,
    {
        let ghost before = copied@;
        let one = diagnostics[i].copy();
        copied.push(one);
        assert(diagnostics@.take(i + 1) =~= diagnostics@.take(i as int).push(
            diagnostics@[i as int],
        ));
        assert(diagnostic_views(copied@) =~= diagnostic_views(before).push(one@));
        assert(diagnostic_views(diagnostics@.take(i + 1)) =~= diagnostic_views(
            diagnostics@.take(i as int),
        ).push(diagnostics@[i as int]@));
        i += 1;
    }
    assert(diagnostics@.take(i as int) =~= diagnostics@);
    copied
}

/// A position that a trace starts from or ends at. Lines and columns count from
/// one.
#[derive(Debug, PartialEq, Eq)]
pub struct TracePoint {
    pub data_node: Option<DataNode>,
    pub call_context: Vec<CallsiteId>,
    pub file_id: FileId,
    pub line: u32,
    pub column: u32,
    pub capability: Option<Text>,
    pub partial_result: bool,
    pub diagnostics: Vec<TraceDiagnostic>,
}

/// A trace point, by value.
#[verifier::ext_equal]
pub struct TracePointView {
    pub data_node: Option<DataNode>,
    pub call_context: Seq<CallsiteId>,
    pub file_id: FileId,
    pub line: u32,
    pub column: u32,
    pub capability: Option<Text>,
    pub partial_result: bool,
    pub diagnostics: Seq<TraceDiagnosticView>,
}

impl View for TracePoint {
    type V = TracePointView;

    open spec fn view(&self) -> TracePointView {
        TracePointView {
            data_node: self.data_node,
            call_context: self.call_context@,
            file_id: self.file_id,
            line: self.line,
            column: self.column,
            capability: self.capability,
            partial_result: self.partial_result,
            diagnostics: diagnostic_views(self.diagnostics@),
        }
    }
}

impl TracePoint {
    /// A point with the same parts.
    pub fn copy(&self) -> (r: Self)
        ensures
            r@ == self@,
    {
        TracePoint {
            data_node: self.data_node.clone(),
            call_context: copy_ids(self.call_context.as_slice()),
            file_id: self.file_id,
            line: self.line,
            column: self.column,
            capability: self.capability.clone(),
            partial_result: self.partial_result,
            diagnostics: copy_diagnostics(self.diagnostics.as_slice()),
        }
    }
}

/// Which file and name a step was read from.
#[derive(Debug, PartialEq, Eq)]
pub struct Evidence {
    pub file_path: Text,
    pub snippet: Option<Text>,
    pub symbol_name: Option<Text>,
}

/// One step of a trace, from the node that supplies a value to the one that takes
/// it.
#[derive(Debug, PartialEq, Eq)]
pub struct TracePathStep {
    pub index: u32,
    pub from_node_id: DataNodeId,
    pub to_node_id: DataNodeId,
    pub kind: DataFlowKind,
    pub description: &'static str,
    pub file_id: FileId,
    pub location: Option<TextRange>,
    pub call_context: Vec<CallsiteId>,
    pub evidence: Option<Evidence>,
}

/// A step, by value.
#[verifier::ext_equal]
pub struct TracePathStepView {
    pub index: u32,
    pub from_node_id: DataNodeId,
    pub to_node_id: DataNodeId,
    pub kind: DataFlowKind,
    pub description: &'static str,
    pub file_id: FileId,
    pub location: Option<TextRange>,
    pub call_context: Seq<CallsiteId>,
    pub evidence: Option<Evidence>,
}

impl View for TracePathStep {
    type V = TracePathStepView;

    open spec fn view(&self) -> TracePathStepView {
        TracePathStepView {
            index: self.index,
            from_node_id: self.from_node_id,
            to_node_id: self.to_node_id,
            kind: self.kind,
            description: self.description,
            file_id: self.file_id,
            location: self.location,
            call_context: self.call_context@,
            evidence: self.evidence,
        }
    }
}

/// The steps of a trace, by value.
pub open spec fn step_views(steps: Seq<TracePathStep>) -> Seq<TracePathStepView> {
    steps.map_values(|step: TracePathStep| step@)
}

/// One recorded path to a point. It does not claim that its first node is the only
/// origin or that the analysis is complete.
#[derive(Debug, PartialEq, Eq)]
pub struct TracePath {
    pub source: TracePoint,
    pub steps: Vec<TracePathStep>,
    pub sink: TracePoint,
    /// In thousandths.
    pub confidence: u32,
    pub nodes_visited: usize,
    pub max_depth_reached: usize,
    pub capability: Option<Text>,
    pub partial_result: bool,
    pub diagnostics: Vec<TraceDiagnostic>,
}

/// A path, by value.
#[verifier::ext_equal]
pub struct TracePathView {
    pub source: TracePointView,
    pub steps: Seq<TracePathStepView>,
    pub sink: TracePointView,
    pub confidence: u32,
    pub nodes_visited: nat,
    pub max_depth_reached: nat,
    pub capability: Option<Text>,
    pub partial_result: bool,
    pub diagnostics: Seq<TraceDiagnosticView>,
}

impl View for TracePath {
    type V = TracePathView;

    open spec fn view(&self) -> TracePathView {
        TracePathView {
            source: self.source@,
            steps: step_views(self.steps@),
            sink: self.sink@,
            confidence: self.confidence,
            nodes_visited: self.nodes_visited as nat,
            max_depth_reached: self.max_depth_reached as nat,
            capability: self.capability,
            partial_result: self.partial_result,
            diagnostics: diagnostic_views(self.diagnostics@),
        }
    }
}

} // verus!
