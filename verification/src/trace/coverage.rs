//! What a trace does with the edges into the nodes that it comes to: it follows one and
//! reports the others.

use crate::collections::{ordered_rows, ordered_rows_is_a_permutation};
use crate::facts::{DataFlowEdge, DataFlowKind, DataNode, DataNodeKind};
use crate::ids::{CallsiteId, DataNodeId};
use crate::store::{find_node, lemma_found_node};
use crate::trace::call_context::{in_context, CandidateView};
use crate::trace::path::{
    position_of, Finding, TraceDiagnosticView, TraceEdge, TracePathStepView, TracePathView,
    TracePointView,
};
use crate::trace::slicer::{
    advance_spec, candidate_key, detail_of, follow, frontier, has_kind, has_trait, incoming,
    is_known_edge, lemma_kept, lemma_ordered, lemma_selected, ordered, report_limits, resolve_all, resolve_candidate, run, same_edge,
    select_next, selected, set_receivers_aside, shown_steps, start, stored_candidate,
    stored_incoming, trace_path, traced, virtual_candidate, virtual_incoming, without_repeats,
    Trait, TraceInputs, TraceState,
};
use vstd::prelude::*;

verus! {

/// Whether a diagnostic at a node in an invocation speaks of an edge into the node. One
/// that tells that the invocation, or what a call leaves behind, is not established
/// speaks of every edge; one whose list was cut short may.
pub open spec fn speaks_of(
    d: TraceDiagnosticView,
    at: DataNode,
    context: Seq<CallsiteId>,
    from: DataNodeId,
    kind: DataFlowKind,
) -> bool {
    match d {
        TraceDiagnosticView::Frontier { finding, at: place, edges, details_truncated, .. } => {
            &&& place == position_of(at, Some(context))
            &&& finding == Finding::InvocationUnestablished || details_truncated || exists|k: int|
                0 <= k < edges.len() && (#[trigger] edges[k]).source_id == from
                    && edges[k].target_id == at.id && edges[k].edge_kind == kind
        },
        TraceDiagnosticView::CallOutputUnavailable { file_id, argument, .. } => {
            file_id == at.file_id && argument == at.range
        },
        _ => false,
    }
}

/// Whether some diagnostic speaks of an edge into a node.
pub open spec fn is_reported(
    diagnostics: Seq<TraceDiagnosticView>,
    at: DataNode,
    context: Seq<CallsiteId>,
    from: DataNodeId,
    kind: DataFlowKind,
) -> bool {
    exists|i: int|
        0 <= i < diagnostics.len() && speaks_of(#[trigger] diagnostics[i], at, context, from, kind)
}

/// Whether some step follows an edge.
pub open spec fn is_followed(
    steps: Seq<TracePathStepView>,
    from: DataNodeId,
    to: DataNodeId,
    kind: DataFlowKind,
) -> bool {
    exists|i: int|
        0 <= i < steps.len() && (#[trigger] steps[i]).from_node_id == from && steps[i].to_node_id
            == to && steps[i].kind == kind
}

/// Whether a step comes to a node in an invocation.
pub open spec fn comes_to(
    inputs: TraceInputs,
    step: TracePathStepView,
    at: DataNode,
    context: Seq<CallsiteId>,
) -> bool {
    step.from_node_id == at.id && step.call_context == context && find_node(
        inputs.store.data_nodes@,
        at.id,
    ) == Some(at)
}

/// Whether a path comes to a node in an invocation: its end, or the source of a step.
pub open spec fn is_on_path(
    inputs: TraceInputs,
    sink: TracePointView,
    node: DataNode,
    path: TracePathView,
    at: DataNode,
    context: Seq<CallsiteId>,
) -> bool {
    (at == node && context == sink.call_context) || exists|i: int|
        0 <= i < path.steps.len() && comes_to(inputs, #[trigger] path.steps[i], at, context)
}

proof fn lemma_reports_stay(
    before: Seq<TraceDiagnosticView>,
    after: Seq<TraceDiagnosticView>,
    at: DataNode,
    context: Seq<CallsiteId>,
    from: DataNodeId,
    kind: DataFlowKind,
)
    requires
        before.is_prefix_of(after),
        is_reported(before, at, context, from, kind),
    ensures
        is_reported(after, at, context, from, kind),
{
    let i = choose|i: int|
        0 <= i < before.len() && speaks_of(#[trigger] before[i], at, context, from, kind);
    assert(after[i] == before[i]);
}

proof fn lemma_steps_stay(
    before: Seq<TracePathStepView>,
    after: Seq<TracePathStepView>,
    from: DataNodeId,
    to: DataNodeId,
    kind: DataFlowKind,
)
    requires
        before.is_prefix_of(after),
        is_followed(before, from, to, kind),
    ensures
        is_followed(after, from, to, kind),
{
    let i = choose|i: int|
        0 <= i < before.len() && (#[trigger] before[i]).from_node_id == from
            && before[i].to_node_id == to && before[i].kind == kind;
    assert(after[i] == before[i]);
}

proof fn lemma_noted(
    inputs: TraceInputs,
    s: TraceState,
    finding: Finding,
    edges: Seq<CandidateView>,
    c: CandidateView,
)
    requires
        edges.contains(c),
        c.edge.target == s.current.id,
    ensures
        is_reported(
            s.note_some(inputs, finding, edges).diagnostics,
            s.current,
            s.context,
            c.edge.source,
            c.edge.kind,
        ),
{
    let k = choose|k: int| 0 <= k < edges.len() && edges[k] == c;
    let d = frontier(inputs, finding, s.current, s.context, edges);
    match d {
        TraceDiagnosticView::Frontier { edges: shown, details_truncated, .. } => {
            if !details_truncated {
                assert(shown[k] == detail_of(inputs, c));
            }
        },
        _ => {},
    }
    assert(speaks_of(d, s.current, s.context, c.edge.source, c.edge.kind));
    let noted = s.note_some(inputs, finding, edges).diagnostics;
    assert(noted[noted.len() - 1] == d);
}

pub(crate) proof fn lemma_is_selected(
    inputs: TraceInputs,
    visited: Seq<(DataNodeId, Seq<CallsiteId>)>,
    which: Trait,
    candidates: Seq<CandidateView>,
    c: CandidateView,
)
    requires
        candidates.contains(c),
        has_trait(inputs, visited, which, c),
    ensures
        selected(inputs, visited, which, candidates).contains(c),
{
    let keep = |c: CandidateView| has_trait(inputs, visited, which, c);
    let k = choose|k: int| 0 <= k < candidates.len() && candidates[k] == c;
    candidates.lemma_filter_contains(keep, k);
}

pub(crate) proof fn lemma_is_ordered(
    inputs: TraceInputs,
    current: DataNode,
    candidates: Seq<CandidateView>,
    c: CandidateView,
)
    requires
        candidates.contains(c),
    ensures
        ordered(inputs, current, candidates).contains(c),
{
    let keys = candidates.map_values(|c: CandidateView| candidate_key(inputs, current, c));
    ordered_rows_is_a_permutation(keys, candidates.len());
    let rows = ordered_rows(keys, candidates.len());
    let k = choose|k: int| 0 <= k < candidates.len() && candidates[k] == c;
    assert(rows.contains(k));
    let i = choose|i: int| 0 <= i < rows.len() && rows[i] == k;
    assert(ordered(inputs, current, candidates)[i] == c);
}

/// Whether one of some edges is the same as another.
pub(crate) open spec fn stands_for(candidates: Seq<CandidateView>, c: CandidateView) -> bool {
    exists|k: int| 0 <= k < candidates.len() && same_edge(#[trigger] candidates[k], c)
}

pub(crate) proof fn lemma_one_is_kept(candidates: Seq<CandidateView>, c: CandidateView)
    requires
        candidates.contains(c),
    ensures
        stands_for(without_repeats(candidates), c),
    decreases candidates.len(),
{
    let k = choose|k: int| 0 <= k < candidates.len() && candidates[k] == c;
    let shorter = candidates.drop_last();
    let before = without_repeats(shorter);
    let kept = without_repeats(candidates);
    if k < shorter.len() {
        assert(shorter[k] == c);
        lemma_one_is_kept(shorter, c);
        let i = choose|i: int| 0 <= i < before.len() && same_edge(#[trigger] before[i], c);
        assert(kept[i] == before[i]);
    } else if before.len() > 0 && same_edge(before.last(), c) {
        assert(same_edge(kept[before.len() - 1], c));
    } else {
        assert(same_edge(kept[kept.len() - 1], c));
    }
}

/// Whether an edge into the node of a state is followed or reported in the next one.
spec fn is_settled(s: TraceState, next: TraceState, from: DataNodeId, kind: DataFlowKind) -> bool {
    is_followed(next.steps, from, s.current.id, kind) || is_reported(
        next.diagnostics,
        s.current,
        s.context,
        from,
        kind,
    )
}

proof fn lemma_select_settles(
    inputs: TraceInputs,
    s: TraceState,
    candidates: Seq<CandidateView>,
    c: CandidateView,
)
    requires
        candidates.contains(c),
        c.edge.target == s.current.id,
        find_node(inputs.store.data_nodes@, c.edge.source) is Some,
    ensures
        is_settled(s, select_next(inputs, s, candidates).0, c.edge.source, c.edge.kind),
{
    reveal(select_next);
    let v = s.visited;
    let (from, kind) = (c.edge.source, c.edge.kind);
    let next = select_next(inputs, s, candidates).0;
    let virtuals = selected(inputs, v, Trait::Virtual, candidates);
    let others = selected(inputs, v, Trait::OtherCall, candidates);
    let open = selected(inputs, v, Trait::Unestablished, candidates);
    let conflicts = selected(inputs, v, Trait::Contradicted, candidates);
    let left = selected(inputs, v, Trait::Consistent, candidates);
    let a = s.note_some(inputs, Finding::VirtualBoundary, virtuals);
    let b = a.note_some(inputs, Finding::CallContextExcluded, others);
    let d = b.note_some(inputs, Finding::CallBoundaryUnavailable, open);
    let noted = d.note_some(inputs, Finding::ReturnConditionExcluded, conflicts);
    assert(b.diagnostics.is_prefix_of(noted.diagnostics));
    assert(d.diagnostics.is_prefix_of(noted.diagnostics));
    assert(noted.diagnostics.is_prefix_of(next.diagnostics));
    if c.context is None && c.excluded {
        lemma_is_selected(inputs, v, Trait::OtherCall, candidates, c);
        lemma_noted(inputs, a, Finding::CallContextExcluded, others, c);
        lemma_reports_stay(b.diagnostics, noted.diagnostics, s.current, s.context, from, kind);
        lemma_reports_stay(noted.diagnostics, next.diagnostics, s.current, s.context, from, kind);
    } else if c.context is None {
        lemma_is_selected(inputs, v, Trait::Unestablished, candidates, c);
        lemma_noted(inputs, b, Finding::CallBoundaryUnavailable, open, c);
        lemma_reports_stay(d.diagnostics, noted.diagnostics, s.current, s.context, from, kind);
        lemma_reports_stay(noted.diagnostics, next.diagnostics, s.current, s.context, from, kind);
    } else if has_trait(inputs, v, Trait::Contradicted, c) {
        lemma_is_selected(inputs, v, Trait::Contradicted, candidates, c);
        lemma_noted(inputs, d, Finding::ReturnConditionExcluded, conflicts, c);
        lemma_reports_stay(noted.diagnostics, next.diagnostics, s.current, s.context, from, kind);
    } else {
        lemma_is_selected(inputs, v, Trait::Consistent, candidates, c);
        assert(left.len() > 0);
        if s.steps.len() >= inputs.max_depth {
            let cut = TraceState { truncated: true, ..noted };
            assert(next == cut.note_some(inputs, Finding::MaxDepthTruncated, left));
            lemma_noted(inputs, cut, Finding::MaxDepthTruncated, left, c);
        } else {
            lemma_available_settles(inputs, s, noted, left, c);
        }
    }
}

proof fn lemma_available_settles(
    inputs: TraceInputs,
    s: TraceState,
    noted: TraceState,
    left: Seq<CandidateView>,
    c: CandidateView,
)
    requires
        left.contains(c),
        c.context is Some,
        c.edge.target == s.current.id,
        find_node(inputs.store.data_nodes@, c.edge.source) is Some,
        noted.current == s.current,
        noted.context == s.context,
        noted.visited == s.visited,
    ensures
        ({
            let cycles = selected(inputs, s.visited, Trait::Cycle, left);
            let available = selected(inputs, s.visited, Trait::Available, left);
            let looped = noted.note_some(inputs, Finding::CycleUnexpanded, cycles);
            let rest = looped.note_some(
                inputs,
                Finding::AlternativesUnexpanded,
                available.drop_last(),
            );
            let next = if available.len() == 0 {
                looped
            } else {
                follow(inputs, rest, available.last())
            };
            is_settled(s, next, c.edge.source, c.edge.kind)
        }),
{
    let v = s.visited;
    let (from, kind) = (c.edge.source, c.edge.kind);
    let cycles = selected(inputs, v, Trait::Cycle, left);
    let available = selected(inputs, v, Trait::Available, left);
    let looped = noted.note_some(inputs, Finding::CycleUnexpanded, cycles);
    let rest = looped.note_some(inputs, Finding::AlternativesUnexpanded, available.drop_last());
    assert(looped.diagnostics.is_prefix_of(rest.diagnostics));
    if has_trait(inputs, v, Trait::Cycle, c) {
        lemma_is_selected(inputs, v, Trait::Cycle, left, c);
        lemma_noted(inputs, noted, Finding::CycleUnexpanded, cycles, c);
        lemma_reports_stay(looped.diagnostics, rest.diagnostics, s.current, s.context, from, kind);
    } else {
        lemma_is_selected(inputs, v, Trait::Available, left, c);
        let k = choose|k: int| 0 <= k < available.len() && available[k] == c;
        if k < available.len() - 1 {
            assert(available.drop_last()[k] == c);
            lemma_noted(
                inputs,
                looped,
                Finding::AlternativesUnexpanded,
                available.drop_last(),
                c,
            );
        } else {
            lemma_found_node(inputs.store.data_nodes@, from);
            let steps = follow(inputs, rest, c).steps;
            assert(steps[steps.len() - 1].from_node_id == from);
        }
    }
}

/// A known edge is among the edges into its node.
pub(crate) proof fn lemma_is_incoming(
    inputs: TraceInputs,
    from: DataNodeId,
    to: DataNodeId,
    kind: DataFlowKind,
) -> (k: int)
    requires
        is_known_edge(inputs, from, to, kind),
    ensures
        0 <= k < incoming(inputs, to).len(),
        incoming(inputs, to)[k].edge.source == from,
        incoming(inputs, to)[k].edge.target == to,
        incoming(inputs, to)[k].edge.kind == kind,
{
    let edges = inputs.store.dataflow_edges@;
    let keep = |e: DataFlowEdge| e.target == to && traced(e.kind);
    let turn = |e: DataFlowEdge| stored_candidate(e);
    let kept = edges.filter(keep);
    assert(stored_incoming(edges, to) == kept.map_values(turn));
    if exists|i: int|
        0 <= i < edges.len() && (#[trigger] edges[i]).source == from && edges[i].target == to
            && edges[i].kind == kind {
        let i = choose|i: int|
            0 <= i < edges.len() && (#[trigger] edges[i]).source == from && edges[i].target == to
                && edges[i].kind == kind;
        edges.lemma_filter_contains(keep, i);
        let k = choose|k: int| 0 <= k < kept.len() && kept[k] == edges[i];
        assert(incoming(inputs, to)[k] == stored_candidate(edges[i]));
        k
    } else {
        let more = inputs.virtual_edges->0;
        let keep_more = |e: TraceEdge| e.target_id == to && traced(e.kind);
        let turn_more = |e: TraceEdge| virtual_candidate(e);
        let kept_more = more.filter(keep_more);
        assert(virtual_incoming(more, to) == kept_more.map_values(turn_more));
        let i = choose|i: int|
            0 <= i < more.len() && (#[trigger] more[i]).source_id == from && more[i].target_id == to
                && more[i].kind == kind;
        more.lemma_filter_contains(keep_more, i);
        let k = choose|k: int| 0 <= k < kept_more.len() && kept_more[k] == more[i];
        assert(incoming(inputs, to)[kept.len() + k] == virtual_candidate(more[i]));
        kept.len() + k
    }
}

proof fn lemma_advance_settles(
    inputs: TraceInputs,
    s: TraceState,
    from: DataNodeId,
    kind: DataFlowKind,
)
    requires
        is_known_edge(inputs, from, s.current.id, kind),
    ensures
        is_settled(s, advance_spec(inputs, s).0, from, kind),
{
    reveal(advance_spec);
    let next = advance_spec(inputs, s).0;
    let last = next.diagnostics.len() - 1;
    if !in_context(inputs.store.resolved_callsites@, s.current, s.context) {
        assert(speaks_of(next.diagnostics[last], s.current, s.context, from, kind));
    } else {
        let found = incoming(inputs, s.current.id);
        let told = report_limits(inputs, s);
        if s.current.kind == DataNodeKind::CallOutput && !has_kind(
            found,
            DataFlowKind::WritebackToCall,
        ) {
            assert(speaks_of(next.diagnostics[last], s.current, s.context, from, kind));
        } else {
            let begun = if s.current.kind == DataNodeKind::CallReturn && !has_kind(
                found,
                DataFlowKind::ReturnToCall,
            ) {
                told.note_here(inputs, Finding::CallResultUnavailable, Seq::empty())
            } else {
                told
            };
            let k = lemma_is_incoming(inputs, from, s.current.id, kind);
            let all = resolve_all(inputs, found, s.current, s.context);
            let c = all[k];
            assert(c == resolve_candidate(inputs, found[k], s.current, s.context));
            assert(all.contains(c));
            lemma_rest_settles(inputs, s, begun, all, c);
        }
    }
}

proof fn lemma_rest_settles(
    inputs: TraceInputs,
    s: TraceState,
    begun: TraceState,
    all: Seq<CandidateView>,
    c: CandidateView,
)
    requires
        all.contains(c),
        c.edge.target == s.current.id,
        begun.current == s.current,
        begun.context == s.context,
        begun.visited == s.visited,
    ensures
        ({
            let (aside, candidates) = set_receivers_aside(inputs, begun, all);
            let complete = aside.note_some(
                inputs,
                Finding::DataNodeMissing,
                selected(inputs, s.visited, Trait::Missing, candidates),
            );
            let kept = without_repeats(
                ordered(
                    inputs,
                    s.current,
                    selected(inputs, s.visited, Trait::Present, candidates),
                ),
            );
            is_settled(s, select_next(inputs, complete, kept).0, c.edge.source, c.edge.kind)
        }),
{
    let (from, kind) = (c.edge.source, c.edge.kind);
    let (aside, candidates) = set_receivers_aside(inputs, begun, all);
    let missing = selected(inputs, s.visited, Trait::Missing, candidates);
    let complete = aside.note_some(inputs, Finding::DataNodeMissing, missing);
    let present = selected(inputs, s.visited, Trait::Present, candidates);
    let sorted = ordered(inputs, s.current, present);
    let kept = without_repeats(sorted);
    let next = select_next(inputs, complete, kept).0;
    lemma_select_grows(inputs, complete, kept);
    assert(aside.diagnostics.is_prefix_of(complete.diagnostics));
    if !candidates.contains(c) {
        assert(has_trait(inputs, begun.visited, Trait::Receiver, c)) by {
            if !has_trait(inputs, begun.visited, Trait::Receiver, c) {
                lemma_is_selected(inputs, begun.visited, Trait::Value, all, c);
            }
        }
        let receivers = selected(inputs, begun.visited, Trait::Receiver, all);
        lemma_is_selected(inputs, begun.visited, Trait::Receiver, all, c);
        lemma_noted(inputs, begun, Finding::FieldReceiverContext, receivers, c);
        assert(aside == begun.note_some(inputs, Finding::FieldReceiverContext, receivers));
        lemma_reports_stay(
            aside.diagnostics,
            complete.diagnostics,
            s.current,
            s.context,
            from,
            kind,
        );
        lemma_reports_stay(complete.diagnostics, next.diagnostics, s.current, s.context, from, kind);
    } else if find_node(inputs.store.data_nodes@, from) is None {
        lemma_is_selected(inputs, s.visited, Trait::Missing, candidates, c);
        lemma_noted(inputs, aside, Finding::DataNodeMissing, missing, c);
        lemma_reports_stay(complete.diagnostics, next.diagnostics, s.current, s.context, from, kind);
    } else {
        lemma_is_selected(inputs, s.visited, Trait::Present, candidates, c);
        lemma_is_ordered(inputs, s.current, present, c);
        lemma_one_is_kept(sorted, c);
        let i = choose|i: int| 0 <= i < kept.len() && same_edge(#[trigger] kept[i], c);
        assert(kept.contains(kept[i]));
        lemma_select_settles(inputs, complete, kept, kept[i]);
    }
}

proof fn lemma_select_grows(inputs: TraceInputs, s: TraceState, candidates: Seq<CandidateView>)
    ensures
        s.diagnostics.is_prefix_of(select_next(inputs, s, candidates).0.diagnostics),
        s.steps.is_prefix_of(select_next(inputs, s, candidates).0.steps),
{
    reveal(select_next);
}

/// Whether a state is the next one: it stands where its last step comes from.
pub(crate) open spec fn is_step_to(inputs: TraceInputs, s: TraceState, next: TraceState) -> bool {
    &&& next.steps.len() == s.steps.len() + 1
    &&& comes_to(inputs, next.steps.last(), next.current, next.context)
}

proof fn lemma_select_steps(inputs: TraceInputs, s: TraceState, candidates: Seq<CandidateView>)
    requires
        forall|c: CandidateView| #[trigger]
            candidates.contains(c) ==> find_node(inputs.store.data_nodes@, c.edge.source) is Some,
    ensures
        ({
            let (next, goes_on) = select_next(inputs, s, candidates);
            if goes_on {
                is_step_to(inputs, s, next)
            } else {
                next.steps == s.steps
            }
        }),
{
    reveal(select_next);
    let v = s.visited;
    let left = selected(inputs, v, Trait::Consistent, candidates);
    let available = selected(inputs, v, Trait::Available, left);
    if select_next(inputs, s, candidates).1 {
        let best = available.last();
        assert(available.contains(best));
        lemma_selected(inputs, v, Trait::Available, left, best);
        lemma_selected(inputs, v, Trait::Consistent, candidates, best);
        lemma_found_node(inputs.store.data_nodes@, best.edge.source);
    }
}

pub(crate) proof fn lemma_advance_grows(inputs: TraceInputs, s: TraceState)
    ensures
        s.diagnostics.is_prefix_of(advance_spec(inputs, s).0.diagnostics),
        s.steps.is_prefix_of(advance_spec(inputs, s).0.steps),
        ({
            let (next, goes_on) = advance_spec(inputs, s);
            if goes_on {
                is_step_to(inputs, s, next)
            } else {
                next.steps == s.steps
            }
        }),
{
    reveal(advance_spec);
    let found = incoming(inputs, s.current.id);
    let told = report_limits(inputs, s);
    let begun = if s.current.kind == DataNodeKind::CallReturn && !has_kind(
        found,
        DataFlowKind::ReturnToCall,
    ) {
        told.note_here(inputs, Finding::CallResultUnavailable, Seq::empty())
    } else {
        told
    };
    let all = resolve_all(inputs, found, s.current, s.context);
    let (aside, candidates) = set_receivers_aside(inputs, begun, all);
    let complete = aside.note_some(
        inputs,
        Finding::DataNodeMissing,
        selected(inputs, s.visited, Trait::Missing, candidates),
    );
    let present = selected(inputs, s.visited, Trait::Present, candidates);
    let sorted = ordered(inputs, s.current, present);
    let kept = without_repeats(sorted);
    assert(s.diagnostics.is_prefix_of(told.diagnostics));
    assert(told.diagnostics.is_prefix_of(begun.diagnostics));
    assert(begun.diagnostics.is_prefix_of(complete.diagnostics));
    assert forall|c: CandidateView| #[trigger] kept.contains(c) implies find_node(
        inputs.store.data_nodes@,
        c.edge.source,
    ) is Some by {
        lemma_kept(sorted, c);
        lemma_ordered(inputs, s.current, present, c);
        lemma_selected(inputs, s.visited, Trait::Present, candidates, c);
    }
    lemma_select_steps(inputs, complete, kept);
    lemma_select_grows(inputs, complete, kept);
}

pub(crate) proof fn lemma_run_grows(inputs: TraceInputs, s: TraceState)
    ensures
        s.diagnostics.is_prefix_of(run(inputs, s).diagnostics),
        s.steps.is_prefix_of(run(inputs, s).steps),
    decreases inputs.max_depth - s.steps.len(),
{
    let (next, goes_on) = advance_spec(inputs, s);
    lemma_advance_grows(inputs, s);
    if goes_on && s.steps.len() < next.steps.len() <= inputs.max_depth {
        lemma_run_grows(inputs, next);
    }
}

/// Whether a run comes to a node from a state on.
spec fn is_ahead(
    inputs: TraceInputs,
    s: TraceState,
    steps: Seq<TracePathStepView>,
    at: DataNode,
    context: Seq<CallsiteId>,
) -> bool {
    (at == s.current && context == s.context) || exists|i: int|
        s.steps.len() <= i < steps.len() && comes_to(inputs, #[trigger] steps[i], at, context)
}

proof fn lemma_run_settles(
    inputs: TraceInputs,
    s: TraceState,
    at: DataNode,
    context: Seq<CallsiteId>,
    from: DataNodeId,
    kind: DataFlowKind,
)
    requires
        is_ahead(inputs, s, run(inputs, s).steps, at, context),
        is_known_edge(inputs, from, at.id, kind),
    ensures
        is_followed(run(inputs, s).steps, from, at.id, kind) || is_reported(
            run(inputs, s).diagnostics,
            at,
            context,
            from,
            kind,
        ),
    decreases inputs.max_depth - s.steps.len(),
{
    let (next, goes_on) = advance_spec(inputs, s);
    let end = run(inputs, s);
    let more = goes_on && s.steps.len() < next.steps.len() <= inputs.max_depth;
    lemma_advance_grows(inputs, s);
    if more {
        lemma_run_grows(inputs, next);
    }
    if at == s.current && context == s.context {
        lemma_advance_settles(inputs, s, from, kind);
        if is_followed(next.steps, from, at.id, kind) {
            lemma_steps_stay(next.steps, end.steps, from, at.id, kind);
        } else {
            lemma_reports_stay(next.diagnostics, end.diagnostics, at, context, from, kind);
        }
    } else {
        let i = choose|i: int|
            s.steps.len() <= i < end.steps.len() && comes_to(
                inputs,
                #[trigger] end.steps[i],
                at,
                context,
            );
        if more {
            if i == s.steps.len() {
                assert(end.steps[i] == next.steps[i]);
                assert(next.steps.last() == next.steps[i]);
            } else {
                assert(comes_to(inputs, end.steps[i], at, context));
            }
            lemma_run_settles(inputs, next, at, context, from, kind);
        } else {
            lemma_one_step(inputs, s);
        }
    }
}

/// A trace takes steps within its depth only.
proof fn lemma_one_step(inputs: TraceInputs, s: TraceState)
    ensures
        ({
            let (next, goes_on) = advance_spec(inputs, s);
            goes_on ==> next.steps.len() <= inputs.max_depth
        }),
{
    reveal(advance_spec);
    reveal(select_next);
}

/// No edge into a node of a path is dropped in silence. The path follows it, or a
/// diagnostic at the node speaks of it; where the invocation or what a call leaves
/// behind is not established, a diagnostic says so of the node as a whole.
pub proof fn every_edge_is_followed_or_reported(
    inputs: TraceInputs,
    sink: TracePointView,
    node: DataNode,
    at: DataNode,
    context: Seq<CallsiteId>,
    from: DataNodeId,
    kind: DataFlowKind,
)
    requires
        is_on_path(inputs, sink, node, trace_path(inputs, sink, node), at, context),
        is_known_edge(inputs, from, at.id, kind),
    ensures
        ({
            let path = trace_path(inputs, sink, node);
            is_followed(path.steps, from, at.id, kind) || is_reported(
                path.diagnostics,
                at,
                context,
                from,
                kind,
            )
        }),
{
    let path = trace_path(inputs, sink, node);
    let begin = start(sink, node);
    let end = run(inputs, begin);
    let n = end.steps.len() as int;
    assert(path.steps == shown_steps(inputs.store, end.steps));
    if !(at == node && context == sink.call_context) {
        let i = choose|i: int|
            0 <= i < path.steps.len() && comes_to(inputs, #[trigger] path.steps[i], at, context);
        assert(comes_to(inputs, end.steps[n - 1 - i], at, context));
    }
    lemma_run_settles(inputs, begin, at, context, from, kind);
    if is_followed(end.steps, from, at.id, kind) {
        let i = choose|i: int|
            0 <= i < end.steps.len() && (#[trigger] end.steps[i]).from_node_id == from
                && end.steps[i].to_node_id == at.id && end.steps[i].kind == kind;
        assert(path.steps[n - 1 - i].from_node_id == from);
    }
}

} // verus!
