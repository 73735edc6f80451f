//! Which edge a trace follows where several lead into a node, where it ends, and what it
//! reports on the way.

use crate::collections::{
    key_at_most, ordered_rows, ordered_rows_is_a_permutation, ordered_rows_is_sorted,
};
use crate::facts::{
    DataFlowKind, DataNode, DataNodeKind, DiagnosticLevel, ExtractDiagnosticView, TextRange,
};
use crate::ids::{CallsiteId, DataNodeId, FileId, SymbolId};
use crate::store::{find_node, lemma_found_node, FileDiagnostic, UnitDiagnostic};
use crate::trace::call_context::{in_context, linked, CandidateView};
use crate::trace::coverage::{
    comes_to, is_on_path, lemma_advance_grows, lemma_is_incoming, lemma_is_ordered, lemma_is_selected,
    lemma_one_is_kept, lemma_run_grows,
};
use crate::trace::path::{
    Finding, TraceDiagnosticView, TraceEdge, TracePathStepView, TracePathView, TracePointView,
};
use crate::trace::slicer::{
    advance_spec, candidate_key, file_limits, has_kind, has_trait, incoming, is_known_edge, lemma_kept,
    lemma_ordered, lemma_selected, limit_diagnostic, limits_at, matters, ordered, report_limits, resolve_all, resolve_candidate, run,
    same_edge, select_next, selected, set_receivers_aside, shown_steps, start, trace_path, traced, unit_limits,
    unreported,
    virtual_candidate, virtual_incoming, without_repeats, TraceInputs, TraceState, Trait,
};
use vstd::prelude::*;

verus! {

/// Whether candidates stand in the order of preference, the most preferred last.
spec fn ascend(inputs: TraceInputs, current: DataNode, list: Seq<CandidateView>) -> bool {
    forall|i: int, j: int|
        0 <= i <= j < list.len() ==> key_at_most(
            candidate_key(inputs, current, #[trigger] list[i]),
            candidate_key(inputs, current, #[trigger] list[j]),
        )
}

proof fn lemma_ordered_ascends(inputs: TraceInputs, current: DataNode, list: Seq<CandidateView>)
    ensures
        ascend(inputs, current, ordered(inputs, current, list)),
{
    let keys = list.map_values(|c: CandidateView| candidate_key(inputs, current, c));
    ordered_rows_is_sorted(keys, list.len());
    ordered_rows_is_a_permutation(keys, list.len());
    let rows = ordered_rows(keys, list.len());
    let sorted = ordered(inputs, current, list);
    assert forall|i: int, j: int| 0 <= i <= j < sorted.len() implies key_at_most(
        candidate_key(inputs, current, #[trigger] sorted[i]),
        candidate_key(inputs, current, #[trigger] sorted[j]),
    ) by {
        assert(key_at_most(keys[rows[i]], keys[rows[j]]));
        assert(keys[rows[i]] == candidate_key(inputs, current, list[rows[i]]));
        assert(keys[rows[j]] == candidate_key(inputs, current, list[rows[j]]));
    }
}

proof fn lemma_kept_ascend(inputs: TraceInputs, current: DataNode, list: Seq<CandidateView>)
    requires
        ascend(inputs, current, list),
    ensures
        ascend(inputs, current, without_repeats(list)),
    decreases list.len(),
{
    if list.len() > 0 {
        let shorter = list.drop_last();
        assert forall|i: int, j: int| 0 <= i <= j < shorter.len() implies key_at_most(
            candidate_key(inputs, current, #[trigger] shorter[i]),
            candidate_key(inputs, current, #[trigger] shorter[j]),
        ) by {
            assert(list[i] == shorter[i] && list[j] == shorter[j]);
        }
        lemma_kept_ascend(inputs, current, shorter);
        let before = without_repeats(shorter);
        let kept = without_repeats(list);
        let last = list[list.len() - 1];
        if kept.len() > before.len() {
            assert forall|i: int, j: int| 0 <= i <= j < kept.len() implies key_at_most(
                candidate_key(inputs, current, #[trigger] kept[i]),
                candidate_key(inputs, current, #[trigger] kept[j]),
            ) by {
                if j < before.len() {
                    assert(before[i] == kept[i] && before[j] == kept[j]);
                } else {
                    assert(kept[j] == last);
                    if i < before.len() {
                        assert(before.contains(before[i]));
                        lemma_kept(shorter, before[i]);
                        let k = choose|k: int| 0 <= k < shorter.len() && shorter[k] == before[i];
                        assert(list[k] == kept[i]);
                    } else {
                        assert(list[list.len() - 1] == kept[i]);
                    }
                }
            }
        }
    }
}

proof fn lemma_filter_ascends(
    inputs: TraceInputs,
    current: DataNode,
    list: Seq<CandidateView>,
    keep: spec_fn(CandidateView) -> bool,
)
    requires
        ascend(inputs, current, list),
    ensures
        ascend(inputs, current, list.filter(keep)),
    decreases list.len(),
{
    reveal(Seq::filter);
    if list.len() > 0 {
        let shorter = list.drop_last();
        assert forall|i: int, j: int| 0 <= i <= j < shorter.len() implies key_at_most(
            candidate_key(inputs, current, #[trigger] shorter[i]),
            candidate_key(inputs, current, #[trigger] shorter[j]),
        ) by {
            assert(list[i] == shorter[i] && list[j] == shorter[j]);
        }
        lemma_filter_ascends(inputs, current, shorter, keep);
        let before = shorter.filter(keep);
        let kept = list.filter(keep);
        let last = list[list.len() - 1];
        if keep(last) {
            assert(kept == before.push(last));
            assert forall|i: int, j: int| 0 <= i <= j < kept.len() implies key_at_most(
                candidate_key(inputs, current, #[trigger] kept[i]),
                candidate_key(inputs, current, #[trigger] kept[j]),
            ) by {
                if j < before.len() {
                    assert(before[i] == kept[i] && before[j] == kept[j]);
                } else {
                    assert(kept[j] == last);
                    if i < before.len() {
                        assert(before.contains(before[i]));
                        shorter.lemma_filter_contains_rev(keep, before[i]);
                        let k = choose|k: int| 0 <= k < shorter.len() && shorter[k] == before[i];
                        assert(list[k] == kept[i]);
                    } else {
                        assert(list[list.len() - 1] == kept[i]);
                    }
                }
            }
        } else {
            assert(kept == before);
        }
    }
}

/// Whether a candidate is resolved by its source, its kind and its own call alone.
spec fn is_plain(c: CandidateView) -> bool {
    c.callsite_id is Some || (c.edge.kind != DataFlowKind::ArgToParam && c.edge.kind
        != DataFlowKind::ReturnToCall && c.edge.kind != DataFlowKind::WritebackToCall)
}

proof fn lemma_same_resolution(
    inputs: TraceInputs,
    a: CandidateView,
    b: CandidateView,
    target: DataNode,
    context: Seq<CallsiteId>,
)
    requires
        a.edge.source == b.edge.source,
        a.edge.kind == b.edge.kind,
        a.callsite_id == b.callsite_id,
        a.context is None,
        b.context is None,
        is_plain(a),
    ensures
        resolve_candidate(inputs, a, target, context).context == resolve_candidate(
            inputs,
            b,
            target,
            context,
        ).context,
{
}

/// What a trace follows from a state on: the most preferred of the edges that can be
/// followed and lead where it has not been.
proof fn lemma_advance_prefers(inputs: TraceInputs, s: TraceState, k: int, to: Seq<CallsiteId>)
    requires
        0 <= k < incoming(inputs, s.current.id).len(),
        ({
            let raw = incoming(inputs, s.current.id)[k];
            let c = resolve_candidate(inputs, raw, s.current, s.context);
            &&& is_plain(raw)
            &&& raw.edge.kind != DataFlowKind::FieldLoad
            &&& find_node(inputs.store.data_nodes@, raw.edge.source) is Some
            &&& c.context == Some(to)
            &&& !s.visited.contains((raw.edge.source, to))
            &&& raw.edge.kind == DataFlowKind::ReturnToCall || raw.edge.kind
                == DataFlowKind::WritebackToCall ==> !inputs.excluded_returns.contains(
                (raw.edge.source, to),
            )
        }),
        in_context(inputs.store.resolved_callsites@, s.current, s.context),
        s.current.kind == DataNodeKind::CallOutput ==> has_kind(
            incoming(inputs, s.current.id),
            DataFlowKind::WritebackToCall,
        ),
        s.steps.len() < inputs.max_depth,
    ensures
        ({
            let raw = incoming(inputs, s.current.id)[k];
            let (next, goes_on) = advance_spec(inputs, s);
            let step = next.steps.last();
            &&& goes_on
            &&& next.steps.len() == s.steps.len() + 1
            &&& exists|b: CandidateView|
                #![trigger candidate_key(inputs, s.current, b)]
                b.edge.source == step.from_node_id && b.edge.kind == step.kind && find_node(
                    inputs.store.data_nodes@,
                    b.edge.source,
                ) is Some && key_at_most(
                    candidate_key(inputs, s.current, raw),
                    candidate_key(inputs, s.current, b),
                )
        }),
{
    reveal(advance_spec);
    reveal(select_next);
    let found = incoming(inputs, s.current.id);
    let raw = found[k];
    let told = report_limits(inputs, s);
    let begun = if s.current.kind == DataNodeKind::CallReturn && !has_kind(
        found,
        DataFlowKind::ReturnToCall,
    ) {
        told.note_here(inputs, Finding::CallResultUnavailable, Seq::empty())
    } else {
        told
    };
    let all = resolve_all(inputs, found, s.current, s.context);
    let c = all[k];
    assert(c == resolve_candidate(inputs, raw, s.current, s.context));
    assert(all.contains(c));
    let (aside, candidates) = set_receivers_aside(inputs, begun, all);
    if !candidates.contains(c) {
        lemma_is_selected(inputs, begun.visited, Trait::Value, all, c);
    }
    let v = s.visited;
    let complete = aside.note_some(
        inputs,
        Finding::DataNodeMissing,
        selected(inputs, v, Trait::Missing, candidates),
    );
    let present = selected(inputs, v, Trait::Present, candidates);
    let sorted = ordered(inputs, s.current, present);
    let kept = without_repeats(sorted);
    lemma_is_selected(inputs, v, Trait::Present, candidates, c);
    lemma_is_ordered(inputs, s.current, present, c);
    lemma_one_is_kept(sorted, c);
    let i = choose|i: int| 0 <= i < kept.len() && same_edge(#[trigger] kept[i], c);
    let m = kept[i];
    assert(kept.contains(m));
    lemma_kept(sorted, m);
    lemma_ordered(inputs, s.current, present, m);
    lemma_selected(inputs, v, Trait::Present, candidates, m);
    assert(all.contains(m)) by {
        if candidates != all {
            lemma_selected(inputs, begun.visited, Trait::Value, all, m);
        }
    }
    let j = choose|j: int| 0 <= j < all.len() && all[j] == m;
    assert(m == resolve_candidate(inputs, found[j], s.current, s.context));
    lemma_same_resolution(inputs, raw, found[j], s.current, s.context);
    assert(m.context == Some(to));
    lemma_ordered_ascends(inputs, s.current, present);
    lemma_kept_ascend(inputs, s.current, sorted);
    let left = selected(inputs, v, Trait::Consistent, kept);
    let available = selected(inputs, v, Trait::Available, left);
    lemma_is_selected(inputs, v, Trait::Consistent, kept, m);
    lemma_is_selected(inputs, v, Trait::Available, left, m);
    lemma_filter_ascends(
        inputs,
        s.current,
        kept,
        |x: CandidateView| has_trait(inputs, v, Trait::Consistent, x),
    );
    lemma_filter_ascends(
        inputs,
        s.current,
        left,
        |x: CandidateView| has_trait(inputs, v, Trait::Available, x),
    );
    let at = choose|at: int| 0 <= at < available.len() && available[at] == m;
    let best = available[available.len() - 1];
    assert(key_at_most(
        candidate_key(inputs, s.current, available[at]),
        candidate_key(inputs, s.current, best),
    ));
    assert(candidate_key(inputs, s.current, m) =~= candidate_key(inputs, s.current, raw));
    assert(available.contains(best));
    lemma_selected(inputs, v, Trait::Available, left, best);
    lemma_selected(inputs, v, Trait::Consistent, kept, best);
    lemma_kept(sorted, best);
    lemma_ordered(inputs, s.current, present, best);
    lemma_selected(inputs, v, Trait::Present, candidates, best);
    lemma_found_node(inputs.store.data_nodes@, best.edge.source);
    let next = advance_spec(inputs, s).0;
    assert(next == select_next(inputs, complete, kept).0);
    assert(next.steps.last().from_node_id == best.edge.source);
    assert(next.steps.last().kind == best.edge.kind);
}

/// Whether a state is one of a trace from a node: it has been where its steps lead.
spec fn is_under_way(
    inputs: TraceInputs,
    sink: TracePointView,
    node: DataNode,
    s: TraceState,
) -> bool {
    &&& s.visited == seq![(node.id, sink.call_context)] + s.steps.map_values(
        |step: TracePathStepView| (step.from_node_id, step.call_context),
    )
    &&& s.steps.len() <= inputs.max_depth
    &&& if s.steps.len() == 0 {
        s.current == node && s.context == sink.call_context
    } else {
        comes_to(inputs, s.steps.last(), s.current, s.context)
    }
}

proof fn lemma_stays_under_way(
    inputs: TraceInputs,
    sink: TracePointView,
    node: DataNode,
    s: TraceState,
)
    requires
        is_under_way(inputs, sink, node, s),
    ensures
        is_under_way(inputs, sink, node, advance_spec(inputs, s).0),
        advance_spec(inputs, s).1 ==> advance_spec(inputs, s).0.steps.len() == s.steps.len() + 1,
        advance_spec(inputs, s).1 ==> advance_spec(inputs, s).0.steps.last().to_node_id
            == s.current.id,
{
    lemma_advance_grows(inputs, s);
    let (next, goes_on) = advance_spec(inputs, s);
    let pair = |step: TracePathStepView| (step.from_node_id, step.call_context);
    assert(if goes_on {
        &&& next.visited == s.visited.push(pair(next.steps.last()))
        &&& next.steps.drop_last() == s.steps
        &&& next.steps.last().to_node_id == s.current.id
        &&& s.steps.len() < inputs.max_depth
    } else {
        next.visited == s.visited && next.current == s.current && next.context == s.context
    }) by {
        reveal(advance_spec);
        reveal(select_next);
        if goes_on {
            assert(next.steps.drop_last() =~= s.steps);
        }
    }
    if goes_on {
        assert(next.visited =~= seq![(node.id, sink.call_context)] + next.steps.map_values(pair));
    }
}

/// The state of a trace in which it has taken some steps.
proof fn lemma_state_at(
    inputs: TraceInputs,
    sink: TracePointView,
    node: DataNode,
    s: TraceState,
    i: int,
) -> (r: TraceState)
    requires
        is_under_way(inputs, sink, node, s),
        s.steps.len() <= i <= run(inputs, s).steps.len(),
    ensures
        is_under_way(inputs, sink, node, r),
        r.steps == run(inputs, s).steps.take(i),
        run(inputs, r) == run(inputs, s),
        i < run(inputs, s).steps.len() ==> {
            let (next, goes_on) = advance_spec(inputs, r);
            goes_on && next.steps == run(inputs, s).steps.take(i + 1)
        },
    decreases inputs.max_depth - s.steps.len(),
{
    let (next, goes_on) = advance_spec(inputs, s);
    let end = run(inputs, s);
    lemma_stays_under_way(inputs, sink, node, s);
    lemma_advance_grows(inputs, s);
    lemma_run_grows(inputs, s);
    if goes_on {
        lemma_run_grows(inputs, next);
    }
    if i == s.steps.len() {
        assert(end.steps.take(i) =~= s.steps);
        if i < end.steps.len() {
            assert(goes_on);
            assert(end.steps.take(i + 1) =~= next.steps);
        }
        s
    } else {
        assert(goes_on);
        lemma_state_at(inputs, sink, node, next, i)
    }
}

/// Whether a step of a path leads into a node in an invocation.
pub open spec fn leads_into(
    inputs: TraceInputs,
    sink: TracePointView,
    node: DataNode,
    path: TracePathView,
    i: int,
    at: DataNode,
    context: Seq<CallsiteId>,
) -> bool {
    0 <= i < path.steps.len() && if i == path.steps.len() - 1 {
        at == node && context == sink.call_context
    } else {
        comes_to(inputs, path.steps[i + 1], at, context)
    }
}

/// Whether a path has not been at a node in an invocation before it takes a step.
pub open spec fn is_new(
    sink: TracePointView,
    node: DataNode,
    path: TracePathView,
    i: int,
    id: DataNodeId,
    context: Seq<CallsiteId>,
) -> bool {
    &&& !(node.id == id && sink.call_context == context)
    &&& forall|j: int|
        i < j < path.steps.len() ==> !((#[trigger] path.steps[j]).from_node_id == id
            && path.steps[j].call_context == context)
}

/// Whether an edge within an invocation leads into a node from another that is recorded.
pub open spec fn is_open_within(
    inputs: TraceInputs,
    at: DataNode,
    context: Seq<CallsiteId>,
    from: DataNode,
    kind: DataFlowKind,
) -> bool {
    &&& is_known_edge(inputs, from.id, at.id, kind)
    &&& find_node(inputs.store.data_nodes@, from.id) == Some(from)
    &&& in_context(inputs.store.resolved_callsites@, from, context)
    &&& kind == DataFlowKind::Read || kind == DataFlowKind::Assign || kind == DataFlowKind::Write
        || kind == DataFlowKind::FieldStore || kind == DataFlowKind::ArgToCall || kind
        == DataFlowKind::ReturnValue || kind == DataFlowKind::ReceiverToThis || kind
        == DataFlowKind::Phi
}

/// What is known of the step that a path takes: its source is recorded, and it is not less
/// preferred than another edge.
spec fn is_preferred(
    inputs: TraceInputs,
    at: DataNode,
    step: TracePathStepView,
    raw: CandidateView,
) -> bool {
    exists|b: CandidateView|
        #![trigger candidate_key(inputs, at, b)]
        b.edge.source == step.from_node_id && b.edge.kind == step.kind && find_node(
            inputs.store.data_nodes@,
            b.edge.source,
        ) is Some && key_at_most(candidate_key(inputs, at, raw), candidate_key(inputs, at, b))
}

proof fn lemma_taken_step(
    inputs: TraceInputs,
    sink: TracePointView,
    node: DataNode,
    i: int,
    at: DataNode,
    context: Seq<CallsiteId>,
) -> (s: TraceState)
    requires
        leads_into(inputs, sink, node, trace_path(inputs, sink, node), i, at, context),
    ensures
        ({
            let path = trace_path(inputs, sink, node);
            let (next, goes_on) = advance_spec(inputs, s);
            let step = next.steps.last();
            &&& goes_on
            &&& s.current == at
            &&& s.context == context
            &&& s.steps.len() < inputs.max_depth
            &&& next.steps.len() == s.steps.len() + 1
            &&& step.from_node_id == path.steps[i].from_node_id
            &&& step.to_node_id == path.steps[i].to_node_id
            &&& step.kind == path.steps[i].kind
            &&& step.call_context == path.steps[i].call_context
            &&& forall|id: DataNodeId, to: Seq<CallsiteId>|
                is_new(sink, node, path, i, id, to) ==> !#[trigger] s.visited.contains((id, to))
        }),
{
    let path = trace_path(inputs, sink, node);
    let begin = start(sink, node);
    let end = run(inputs, begin);
    let n = end.steps.len() as int;
    assert(path.steps == shown_steps(inputs.store, end.steps));
    assert(begin.visited =~= seq![(node.id, sink.call_context)] + begin.steps.map_values(
        |step: TracePathStepView| (step.from_node_id, step.call_context),
    ));
    let k = n - 1 - i;
    let s = lemma_state_at(inputs, sink, node, begin, k);
    let next = advance_spec(inputs, s).0;
    lemma_stays_under_way(inputs, sink, node, s);
    assert(next.steps.last() == end.steps[k]);
    assert(path.steps[i].from_node_id == end.steps[k].from_node_id);
    if k > 0 {
        assert(s.steps.last() == end.steps[k - 1]);
        assert(path.steps[i + 1].from_node_id == end.steps[k - 1].from_node_id);
        assert(s.current == at) by {
            assert(find_node(inputs.store.data_nodes@, at.id) == Some(at));
        }
    }
    assert forall|id: DataNodeId, to: Seq<CallsiteId>|
        is_new(sink, node, path, i, id, to) implies !#[trigger] s.visited.contains((id, to)) by {
        if s.visited.contains((id, to)) {
            let x = choose|x: int| 0 <= x < s.visited.len() && s.visited[x] == (id, to);
            if x > 0 {
                let step = s.steps[x - 1];
                assert(step == end.steps[x - 1]);
                assert(path.steps[n - x].from_node_id == step.from_node_id);
                assert(path.steps[n - x].call_context == step.call_context);
            }
        }
    }
    s
}

proof fn lemma_step_is_preferred(
    inputs: TraceInputs,
    sink: TracePointView,
    node: DataNode,
    i: int,
    at: DataNode,
    context: Seq<CallsiteId>,
    from: DataNode,
    kind: DataFlowKind,
) -> (raw: CandidateView)
    requires
        leads_into(inputs, sink, node, trace_path(inputs, sink, node), i, at, context),
        is_open_within(inputs, at, context, from, kind),
        is_new(sink, node, trace_path(inputs, sink, node), i, from.id, context),
    ensures
        raw.edge.source == from.id,
        raw.edge.kind == kind,
        is_preferred(inputs, at, trace_path(inputs, sink, node).steps[i], raw),
{
    let s = lemma_taken_step(inputs, sink, node, i, at, context);
    let k = lemma_is_incoming(inputs, from.id, at.id, kind);
    let raw = incoming(inputs, at.id)[k];
    lemma_goes_on_in_context(inputs, s);
    assert(!s.visited.contains((from.id, context)));
    lemma_advance_prefers(inputs, s, k, context);
    raw
}

proof fn lemma_goes_on_in_context(inputs: TraceInputs, s: TraceState)
    requires
        advance_spec(inputs, s).1,
    ensures
        in_context(inputs.store.resolved_callsites@, s.current, s.context),
        s.current.kind == DataNodeKind::CallOutput ==> has_kind(
            incoming(inputs, s.current.id),
            DataFlowKind::WritebackToCall,
        ),
{
    reveal(advance_spec);
}

proof fn lemma_first_words(a: Seq<u128>, b: Seq<u128>)
    requires
        a.len() == b.len(),
        a.len() >= 4,
        key_at_most(a, b),
    ensures
        a[0] <= b[0],
        a[0] == b[0] ==> a[1] <= b[1],
        a[0] == b[0] && a[1] == b[1] ==> a[2] <= b[2],
        a[0] == b[0] && a[1] == b[1] && a[2] == b[2] ==> a[3] <= b[3],
{
    let (a1, b1) = (a.drop_first(), b.drop_first());
    let (a2, b2) = (a1.drop_first(), b1.drop_first());
    let (a3, b3) = (a2.drop_first(), b2.drop_first());
    assert(a1[0] == a[1] && b1[0] == b[1]);
    assert(a2[0] == a[2] && b2[0] == b[2]);
    assert(a3[0] == a[3] && b3[0] == b[3]);
    reveal_with_fuel(key_at_most, 5);
}

/// The rank of the source of an edge, for a read or for a definition; for what a call or
/// shared state brings; for the kind of its source; and its place in the text.
spec fn ranks(at: DataNode, source: DataNode, kind: DataFlowKind) -> (int, int, int, int) {
    let storage = source.kind == DataNodeKind::Local || source.kind == DataNodeKind::Parameter
        || source.kind == DataNodeKind::Global || source.kind == DataNodeKind::CallOutput;
    let definition = at.kind == DataNodeKind::Local || at.kind == DataNodeKind::Parameter || at.kind
        == DataNodeKind::Global;
    (
        if storage == definition {
            0
        } else {
            1
        },
        if !storage && (kind == DataFlowKind::ReturnToCall || kind == DataFlowKind::WritebackToCall
            || kind == DataFlowKind::StateFlow) {
            1
        } else {
            0
        },
        if storage {
            0
        } else {
            match source.kind {
                DataNodeKind::VariableUse
                | DataNodeKind::CallArg
                | DataNodeKind::Field
                | DataNodeKind::Receiver => 3,
                DataNodeKind::Expr | DataNodeKind::Return => 2,
                DataNodeKind::Literal => 0,
                _ => 1,
            }
        },
        source.range.start_byte as int,
    )
}

proof fn lemma_preferred_words(
    inputs: TraceInputs,
    at: DataNode,
    step: TracePathStepView,
    raw: CandidateView,
    other: DataNode,
    taken: DataNode,
)
    requires
        is_preferred(inputs, at, step, raw),
        find_node(inputs.store.data_nodes@, raw.edge.source) == Some(other),
        find_node(inputs.store.data_nodes@, step.from_node_id) == Some(taken),
    ensures
        ({
            let a = ranks(at, other, raw.edge.kind);
            let b = ranks(at, taken, step.kind);
            &&& a.0 <= b.0
            &&& a.0 == b.0 ==> a.1 <= b.1
            &&& a.0 == b.0 && a.1 == b.1 ==> a.2 <= b.2
            &&& a.0 == b.0 && a.1 == b.1 && a.2 == b.2 ==> a.3 <= b.3
        }),
{
    let b = choose|b: CandidateView|
        #![trigger candidate_key(inputs, at, b)]
        b.edge.source == step.from_node_id && b.edge.kind == step.kind && find_node(
            inputs.store.data_nodes@,
            b.edge.source,
        ) is Some && key_at_most(candidate_key(inputs, at, raw), candidate_key(inputs, at, b));
    lemma_first_words(candidate_key(inputs, at, raw), candidate_key(inputs, at, b));
}

/// A constant is not followed where a value that bears state leads into the node too: a
/// step that does not come back from a call or from shared state never comes from a
/// literal while an edge from a variable, an argument, a field, a receiver, an expression
/// or a returned value can be followed.
pub proof fn a_literal_is_not_followed_before_state(
    inputs: TraceInputs,
    sink: TracePointView,
    node: DataNode,
    i: int,
    at: DataNode,
    context: Seq<CallsiteId>,
    other: DataNode,
    kind: DataFlowKind,
    taken: DataNode,
)
    requires
        leads_into(inputs, sink, node, trace_path(inputs, sink, node), i, at, context),
        is_open_within(inputs, at, context, other, kind),
        is_new(sink, node, trace_path(inputs, sink, node), i, other.id, context),
        find_node(
            inputs.store.data_nodes@,
            trace_path(inputs, sink, node).steps[i].from_node_id,
        ) == Some(taken),
        other.kind == DataNodeKind::VariableUse || other.kind == DataNodeKind::CallArg || other.kind == DataNodeKind::Field || other.kind == DataNodeKind::Receiver || other.kind == DataNodeKind::Expr || other.kind == DataNodeKind::Return,
    ensures
        ({
            let step = trace_path(inputs, sink, node).steps[i];
            taken.kind == DataNodeKind::Literal ==> (step.kind == DataFlowKind::ReturnToCall || step.kind == DataFlowKind::WritebackToCall || step.kind == DataFlowKind::StateFlow)
        }),
{
    let raw = lemma_step_is_preferred(inputs, sink, node, i, at, context, other, kind);
    lemma_preferred_words(inputs, at, trace_path(inputs, sink, node).steps[i], raw, other, taken);
}

/// A variable, an argument, a field or a receiver is followed before an expression, a
/// returned value or a literal.
pub proof fn state_is_followed_before_expressions(
    inputs: TraceInputs,
    sink: TracePointView,
    node: DataNode,
    i: int,
    at: DataNode,
    context: Seq<CallsiteId>,
    other: DataNode,
    kind: DataFlowKind,
    taken: DataNode,
)
    requires
        leads_into(inputs, sink, node, trace_path(inputs, sink, node), i, at, context),
        is_open_within(inputs, at, context, other, kind),
        is_new(sink, node, trace_path(inputs, sink, node), i, other.id, context),
        find_node(
            inputs.store.data_nodes@,
            trace_path(inputs, sink, node).steps[i].from_node_id,
        ) == Some(taken),
        other.kind == DataNodeKind::VariableUse || other.kind == DataNodeKind::CallArg || other.kind == DataNodeKind::Field || other.kind == DataNodeKind::Receiver,
    ensures
        ({
            let step = trace_path(inputs, sink, node).steps[i];
            (taken.kind == DataNodeKind::Expr || taken.kind == DataNodeKind::Return || taken.kind == DataNodeKind::Literal || taken.kind == DataNodeKind::CallReturn || taken.kind == DataNodeKind::CallTarget || taken.kind == DataNodeKind::ParameterOutput) ==> (step.kind == DataFlowKind::ReturnToCall || step.kind == DataFlowKind::WritebackToCall || step.kind == DataFlowKind::StateFlow)
        }),
{
    let raw = lemma_step_is_preferred(inputs, sink, node, i, at, context, other, kind);
    lemma_preferred_words(inputs, at, trace_path(inputs, sink, node).steps[i], raw, other, taken);
}

/// A use follows a definition that reaches it before any operand: where an edge leads from
/// a local, a parameter, a global or the output of a call into a node that is no
/// definition, the step comes from such a node too, and from none that stands before it.
pub proof fn a_use_follows_its_closest_definition(
    inputs: TraceInputs,
    sink: TracePointView,
    node: DataNode,
    i: int,
    at: DataNode,
    context: Seq<CallsiteId>,
    other: DataNode,
    kind: DataFlowKind,
    taken: DataNode,
)
    requires
        leads_into(inputs, sink, node, trace_path(inputs, sink, node), i, at, context),
        is_open_within(inputs, at, context, other, kind),
        is_new(sink, node, trace_path(inputs, sink, node), i, other.id, context),
        find_node(
            inputs.store.data_nodes@,
            trace_path(inputs, sink, node).steps[i].from_node_id,
        ) == Some(taken),
        (other.kind == DataNodeKind::Local || other.kind == DataNodeKind::Parameter || other.kind == DataNodeKind::Global || other.kind == DataNodeKind::CallOutput),
        at.kind != DataNodeKind::Local,
        at.kind != DataNodeKind::Parameter,
        at.kind != DataNodeKind::Global,
    ensures
        (taken.kind == DataNodeKind::Local || taken.kind == DataNodeKind::Parameter || taken.kind == DataNodeKind::Global || taken.kind == DataNodeKind::CallOutput),
        other.range.start_byte <= taken.range.start_byte,
{
    let raw = lemma_step_is_preferred(inputs, sink, node, i, at, context, other, kind);
    lemma_preferred_words(inputs, at, trace_path(inputs, sink, node).steps[i], raw, other, taken);
}

/// A definition follows the value that is written before an earlier definition: where an
/// edge leads from an operand into a local, a parameter or a global, the step does not
/// come from storage.
pub proof fn a_definition_follows_its_written_value(
    inputs: TraceInputs,
    sink: TracePointView,
    node: DataNode,
    i: int,
    at: DataNode,
    context: Seq<CallsiteId>,
    other: DataNode,
    kind: DataFlowKind,
    taken: DataNode,
)
    requires
        leads_into(inputs, sink, node, trace_path(inputs, sink, node), i, at, context),
        is_open_within(inputs, at, context, other, kind),
        is_new(sink, node, trace_path(inputs, sink, node), i, other.id, context),
        find_node(
            inputs.store.data_nodes@,
            trace_path(inputs, sink, node).steps[i].from_node_id,
        ) == Some(taken),
        !(other.kind == DataNodeKind::Local || other.kind == DataNodeKind::Parameter || other.kind == DataNodeKind::Global || other.kind == DataNodeKind::CallOutput),
        at.kind == DataNodeKind::Local || at.kind == DataNodeKind::Parameter || at.kind
            == DataNodeKind::Global,
    ensures
        !(taken.kind == DataNodeKind::Local || taken.kind == DataNodeKind::Parameter || taken.kind == DataNodeKind::Global || taken.kind == DataNodeKind::CallOutput),
{
    let raw = lemma_step_is_preferred(inputs, sink, node, i, at, context, other, kind);
    lemma_preferred_words(inputs, at, trace_path(inputs, sink, node).steps[i], raw, other, taken);
}

/// Of earlier definitions a definition follows none that stands before another.
pub proof fn a_definition_follows_the_closest_earlier_one(
    inputs: TraceInputs,
    sink: TracePointView,
    node: DataNode,
    i: int,
    at: DataNode,
    context: Seq<CallsiteId>,
    other: DataNode,
    kind: DataFlowKind,
    taken: DataNode,
)
    requires
        leads_into(inputs, sink, node, trace_path(inputs, sink, node), i, at, context),
        is_open_within(inputs, at, context, other, kind),
        is_new(sink, node, trace_path(inputs, sink, node), i, other.id, context),
        find_node(
            inputs.store.data_nodes@,
            trace_path(inputs, sink, node).steps[i].from_node_id,
        ) == Some(taken),
        (other.kind == DataNodeKind::Local || other.kind == DataNodeKind::Parameter || other.kind == DataNodeKind::Global || other.kind == DataNodeKind::CallOutput),
        (taken.kind == DataNodeKind::Local || taken.kind == DataNodeKind::Parameter || taken.kind == DataNodeKind::Global || taken.kind == DataNodeKind::CallOutput),
    ensures
        other.range.start_byte <= taken.range.start_byte,
{
    let raw = lemma_step_is_preferred(inputs, sink, node, i, at, context, other, kind);
    lemma_preferred_words(inputs, at, trace_path(inputs, sink, node).steps[i], raw, other, taken);
}

/// Of sources of one kind that edges within an invocation lead from, the last in the text
/// is followed.
pub proof fn of_equal_sources_the_last_is_followed(
    inputs: TraceInputs,
    sink: TracePointView,
    node: DataNode,
    i: int,
    at: DataNode,
    context: Seq<CallsiteId>,
    other: DataNode,
    kind: DataFlowKind,
    taken: DataNode,
)
    requires
        leads_into(inputs, sink, node, trace_path(inputs, sink, node), i, at, context),
        is_open_within(inputs, at, context, other, kind),
        is_new(sink, node, trace_path(inputs, sink, node), i, other.id, context),
        find_node(
            inputs.store.data_nodes@,
            trace_path(inputs, sink, node).steps[i].from_node_id,
        ) == Some(taken),
        other.kind == taken.kind,
        !(trace_path(inputs, sink, node).steps[i].kind == DataFlowKind::ReturnToCall || trace_path(inputs, sink, node).steps[i].kind == DataFlowKind::WritebackToCall || trace_path(inputs, sink, node).steps[i].kind == DataFlowKind::StateFlow),
    ensures
        other.range.start_byte <= taken.range.start_byte,
{
    let raw = lemma_step_is_preferred(inputs, sink, node, i, at, context, other, kind);
    lemma_preferred_words(inputs, at, trace_path(inputs, sink, node).steps[i], raw, other, taken);
}

/// What a call gives back is followed before operands: where a supplied edge brings a
/// value back by an exit that is not excluded, of a call that is recorded, into a node that
/// is no definition and that no storage leads into, the step comes back from a call or from
/// shared state, or from storage.
pub proof fn a_call_result_is_followed_before_operands(
    inputs: TraceInputs,
    sink: TracePointView,
    node: DataNode,
    i: int,
    at: DataNode,
    context: Seq<CallsiteId>,
    edge: TraceEdge,
    call: CallsiteId,
    other: DataNode,
    caller: SymbolId,
    callee: SymbolId,
    taken: DataNode,
)
    requires
        leads_into(inputs, sink, node, trace_path(inputs, sink, node), i, at, context),
        inputs.virtual_edges is Some,
        inputs.virtual_edges->0.contains(edge),
        edge.kind == DataFlowKind::ReturnToCall || edge.kind == DataFlowKind::WritebackToCall,
        edge.target_id == at.id,
        edge.source_id == other.id,
        edge.callsite_id == Some(call),
        find_node(inputs.store.data_nodes@, other.id) == Some(other),
        at.function_id == Some(caller),
        other.function_id == Some(callee),
        linked(inputs.store.resolved_callsites@, call, caller, callee),
        !inputs.excluded_returns.contains((other.id, context.push(call))),
        is_new(sink, node, trace_path(inputs, sink, node), i, other.id, context.push(call)),
        !(other.kind == DataNodeKind::Local || other.kind == DataNodeKind::Parameter || other.kind == DataNodeKind::Global || other.kind == DataNodeKind::CallOutput),
        find_node(
            inputs.store.data_nodes@,
            trace_path(inputs, sink, node).steps[i].from_node_id,
        ) == Some(taken),
    ensures
        ({
            let step = trace_path(inputs, sink, node).steps[i];
            (taken.kind == DataNodeKind::Local || taken.kind == DataNodeKind::Parameter || taken.kind == DataNodeKind::Global || taken.kind == DataNodeKind::CallOutput) || (step.kind == DataFlowKind::ReturnToCall || step.kind == DataFlowKind::WritebackToCall || step.kind == DataFlowKind::StateFlow)
        }),
{
    let s = lemma_taken_step(inputs, sink, node, i, at, context);
    let to = context.push(call);
    lemma_goes_on_in_context(inputs, s);
    let edges = inputs.virtual_edges->0;
    let keep = |e: TraceEdge| e.target_id == at.id && traced(e.kind);
    let turn = |e: TraceEdge| virtual_candidate(e);
    let kept = edges.filter(keep);
    let x = choose|x: int| 0 <= x < edges.len() && edges[x] == edge;
    edges.lemma_filter_contains(keep, x);
    let y = choose|y: int| 0 <= y < kept.len() && kept[y] == edge;
    assert(virtual_incoming(edges, at.id) == kept.map_values(turn));
    let k = incoming(inputs, at.id).len() - kept.len() + y;
    let raw = incoming(inputs, at.id)[k];
    assert(raw == virtual_candidate(edge));
    assert(!s.visited.contains((other.id, to)));
    lemma_advance_prefers(inputs, s, k, to);
    let step = trace_path(inputs, sink, node).steps[i];
    assert(is_preferred(inputs, at, step, raw));
    lemma_preferred_words(inputs, at, step, raw, other, taken);
}

/// A path ends only where it must: where its invocation is established, its end is not the
/// output of a call that nothing is known to write, and its depth is not used up, every
/// edge within the invocation leads back to where the path has been.
pub proof fn a_path_ends_only_where_it_must(
    inputs: TraceInputs,
    sink: TracePointView,
    node: DataNode,
    other: DataNode,
    kind: DataFlowKind,
)
    requires
        ({
            let path = trace_path(inputs, sink, node);
            let at = path.source.data_node->0;
            let context = path.source.call_context;
            &&& in_context(inputs.store.resolved_callsites@, at, context)
            &&& at.kind != DataNodeKind::CallOutput
            &&& is_open_within(inputs, at, context, other, kind)
        }),
    ensures
        ({
            let path = trace_path(inputs, sink, node);
            path.steps.len() >= inputs.max_depth || !is_new(
                sink,
                node,
                path,
                -1,
                other.id,
                path.source.call_context,
            )
        }),
{
    let path = trace_path(inputs, sink, node);
    let begin = start(sink, node);
    let end = run(inputs, begin);
    let n = end.steps.len() as int;
    let at = end.current;
    let context = end.context;
    assert(path.steps == shown_steps(inputs.store, end.steps));
    assert(begin.visited =~= seq![(node.id, sink.call_context)] + begin.steps.map_values(
        |step: TracePathStepView| (step.from_node_id, step.call_context),
    ));
    if path.steps.len() < inputs.max_depth && is_new(sink, node, path, -1, other.id, context) {
        let s = lemma_state_at(inputs, sink, node, begin, n);
        let (next, goes_on) = advance_spec(inputs, s);
        lemma_stays_under_way(inputs, sink, node, s);
        lemma_advance_grows(inputs, s);
        assert(end.steps.take(n) =~= end.steps);
        assert(s.current == at && s.context == context) by {
            if goes_on {
                lemma_run_grows(inputs, next);
            }
            assert(!goes_on);
            assert(end == next);
            lemma_ends_in_place(inputs, s);
        }
        if s.visited.contains((other.id, context)) {
            let x = choose|x: int| 0 <= x < s.visited.len() && s.visited[x] == (other.id, context);
            if x > 0 {
                let step = s.steps[x - 1];
                assert(step == end.steps[x - 1]);
                assert(path.steps[n - x].from_node_id == step.from_node_id);
                assert(path.steps[n - x].call_context == step.call_context);
            }
        }
        let k = lemma_is_incoming(inputs, other.id, at.id, kind);
        lemma_advance_prefers(inputs, s, k, context);
        lemma_run_grows(inputs, next);
    }
}

proof fn lemma_ends_in_place(inputs: TraceInputs, s: TraceState)
    requires
        !advance_spec(inputs, s).1,
    ensures
        advance_spec(inputs, s).0.current == s.current,
        advance_spec(inputs, s).0.context == s.context,
{
    reveal(advance_spec);
    reveal(select_next);
}

proof fn lemma_none_selected(
    inputs: TraceInputs,
    visited: Seq<(DataNodeId, Seq<CallsiteId>)>,
    which: Trait,
    list: Seq<CandidateView>,
    c: CandidateView,
)
    requires
        list.contains(c),
        selected(inputs, visited, which, list).len() == 0,
    ensures
        !has_trait(inputs, visited, which, c),
{
    let keep = |c: CandidateView| has_trait(inputs, visited, which, c);
    let i = choose|i: int| 0 <= i < list.len() && list[i] == c;
    if keep(c) {
        list.lemma_filter_contains(keep, i);
    }
}

proof fn lemma_silent_selection(inputs: TraceInputs, s: TraceState, list: Seq<CandidateView>)
    requires
        !select_next(inputs, s, list).1,
        select_next(inputs, s, list).0.diagnostics.len() == 0,
    ensures
        s.current.kind == DataNodeKind::Literal || s.current.kind == DataNodeKind::Parameter
            || s.current.kind == DataNodeKind::Global,
{
    reveal(select_next);
    let v = s.visited;
    let left = selected(inputs, v, Trait::Consistent, list);
    if left.len() > 0 {
        let c = left[0];
        let keep = |c: CandidateView| has_trait(inputs, v, Trait::Consistent, c);
        assert(left.contains(c));
        list.lemma_filter_contains_rev(keep, c);
        lemma_none_selected(inputs, v, Trait::OtherCall, list, c);
        lemma_none_selected(inputs, v, Trait::Unestablished, list, c);
        lemma_none_selected(inputs, v, Trait::Cycle, left, c);
        lemma_none_selected(inputs, v, Trait::Available, left, c);
    }
}

/// A path that reports nothing ends in an origin: its source is a literal, a parameter or a
/// global.
pub proof fn a_silent_path_ends_in_an_origin(
    inputs: TraceInputs,
    sink: TracePointView,
    node: DataNode,
)
    requires
        trace_path(inputs, sink, node).diagnostics.len() == 0,
    ensures
        ({
            let path = trace_path(inputs, sink, node);
            &&& path.source.data_node is Some
            &&& path.source.data_node->0.kind == DataNodeKind::Literal
                || path.source.data_node->0.kind == DataNodeKind::Parameter
                || path.source.data_node->0.kind == DataNodeKind::Global
        }),
{
    let begin = start(sink, node);
    let end = run(inputs, begin);
    assert(begin.visited =~= seq![(node.id, sink.call_context)] + begin.steps.map_values(
        |step: TracePathStepView| (step.from_node_id, step.call_context),
    ));
    let s = lemma_state_at(inputs, sink, node, begin, end.steps.len() as int);
    let (next, goes_on) = advance_spec(inputs, s);
    lemma_stays_under_way(inputs, sink, node, s);
    lemma_advance_grows(inputs, s);
    if goes_on {
        lemma_run_grows(inputs, next);
    }
    assert(end == next && !goes_on);
    lemma_ends_in_place(inputs, s);
    reveal(advance_spec);
    let found = incoming(inputs, s.current.id);
    let told = report_limits(inputs, s);
    let begun = if s.current.kind == DataNodeKind::CallReturn && !has_kind(
        found,
        DataFlowKind::ReturnToCall,
    ) {
        told.note_here(inputs, Finding::CallResultUnavailable, Seq::empty())
    } else {
        told
    };
    let (aside, candidates) = set_receivers_aside(
        inputs,
        begun,
        resolve_all(inputs, found, s.current, s.context),
    );
    let complete = aside.note_some(
        inputs,
        Finding::DataNodeMissing,
        selected(inputs, s.visited, Trait::Missing, candidates),
    );
    let list = without_repeats(
        ordered(inputs, s.current, selected(inputs, s.visited, Trait::Present, candidates)),
    );
    assert(next == select_next(inputs, complete, list).0);
    lemma_silent_selection(inputs, complete, list);
}

/// Whether what is marked as reported has been reported.
spec fn all_told(s: TraceState) -> bool {
    forall|k: int|
        0 <= k < s.reported.len() ==> s.diagnostics.contains(
            limit_diagnostic((#[trigger] s.reported[k]).0, s.reported[k].1),
        )
}

proof fn lemma_contained_on<T>(a: Seq<T>, b: Seq<T>, x: T)
    requires
        a.contains(x),
        a.is_prefix_of(b),
    ensures
        b.contains(x),
{
    let k = choose|k: int| 0 <= k < a.len() && a[k] == x;
    assert(b[k] == x);
}

proof fn lemma_unreported(
    reported: Seq<(FileId, ExtractDiagnosticView)>,
    file: FileId,
    limits: Seq<ExtractDiagnosticView>,
    limit: ExtractDiagnosticView,
)
    requires
        limits.contains(limit),
    ensures
        reported.contains((file, limit)) || unreported(reported, file, limits).contains(limit),
    decreases limits.len(),
{
    let fewer = limits.drop_last();
    let before = unreported(reported, file, fewer);
    let now = unreported(reported, file, limits);
    if limits.last() == limit {
        if !reported.contains((file, limit)) && !before.contains(limit) {
            assert(now[before.len() as int] == limit);
        }
    } else {
        let k = choose|k: int| 0 <= k < limits.len() && limits[k] == limit;
        assert(fewer[k] == limit);
        lemma_unreported(reported, file, fewer, limit);
        if before.contains(limit) {
            lemma_contained_on(before, now, limit);
        }
    }
}

proof fn lemma_limits_told(inputs: TraceInputs, s: TraceState)
    requires
        all_told(s),
    ensures
        all_told(report_limits(inputs, s)),
        forall|limit: ExtractDiagnosticView| #[trigger]
            limits_at(inputs.store, s.current).contains(limit) ==> report_limits(
                inputs,
                s,
            ).diagnostics.contains(limit_diagnostic(s.current.file_id, limit)),
{
    let file = s.current.file_id;
    let limits = limits_at(inputs.store, s.current);
    let fresh = unreported(s.reported, file, limits);
    let after = report_limits(inputs, s);
    assert(s.diagnostics.is_prefix_of(after.diagnostics)) by {
        assert(s.diagnostics =~= after.diagnostics.take(s.diagnostics.len() as int));
    }
    assert forall|d: ExtractDiagnosticView| #[trigger] fresh.contains(
        d,
    ) implies after.diagnostics.contains(limit_diagnostic(file, d)) by {
        let k = choose|k: int| 0 <= k < fresh.len() && fresh[k] == d;
        assert(after.diagnostics[s.diagnostics.len() + k] == limit_diagnostic(file, d));
    }
    assert forall|k: int| 0 <= k < after.reported.len() implies after.diagnostics.contains(
        limit_diagnostic((#[trigger] after.reported[k]).0, after.reported[k].1),
    ) by {
        if k < s.reported.len() {
            let told = limit_diagnostic(s.reported[k].0, s.reported[k].1);
            assert(after.reported[k] == s.reported[k]);
            lemma_contained_on(s.diagnostics, after.diagnostics, told);
        } else {
            assert(fresh.contains(fresh[k - s.reported.len()]));
        }
    }
    assert forall|limit: ExtractDiagnosticView| #[trigger] limits.contains(
        limit,
    ) implies after.diagnostics.contains(limit_diagnostic(file, limit)) by {
        lemma_unreported(s.reported, file, limits, limit);
        if s.reported.contains((file, limit)) {
            let k = choose|k: int| 0 <= k < s.reported.len() && s.reported[k] == (file, limit);
            assert(s.diagnostics.contains(limit_diagnostic(s.reported[k].0, s.reported[k].1)));
            lemma_contained_on(s.diagnostics, after.diagnostics, limit_diagnostic(file, limit));
        }
    }
}

/// Whether one state reports what another does and perhaps more.
spec fn tells_more(a: TraceState, b: TraceState) -> bool {
    a.reported == b.reported && a.diagnostics.is_prefix_of(b.diagnostics)
}

proof fn lemma_tells_on(a: TraceState, b: TraceState, c: TraceState)
    requires
        tells_more(a, b),
        tells_more(b, c),
    ensures
        tells_more(a, c),
{
    assert(a.diagnostics =~= c.diagnostics.take(a.diagnostics.len() as int));
}

proof fn lemma_note_tells(
    inputs: TraceInputs,
    s: TraceState,
    finding: Finding,
    edges: Seq<CandidateView>,
)
    ensures
        tells_more(s, s.note_here(inputs, finding, edges)),
        tells_more(s, s.note_some(inputs, finding, edges)),
{
    let noted = s.note_here(inputs, finding, edges);
    assert(s.diagnostics =~= noted.diagnostics.take(s.diagnostics.len() as int));
    assert(s.diagnostics =~= s.diagnostics.take(s.diagnostics.len() as int));
}

proof fn lemma_select_tells(inputs: TraceInputs, s: TraceState, list: Seq<CandidateView>)
    ensures
        tells_more(s, select_next(inputs, s, list).0),
{
    reveal(select_next);
    let v = s.visited;
    let first = selected(inputs, v, Trait::Virtual, list);
    let second = selected(inputs, v, Trait::OtherCall, list);
    let third = selected(inputs, v, Trait::Unestablished, list);
    let fourth = selected(inputs, v, Trait::Contradicted, list);
    let a = s.note_some(inputs, Finding::VirtualBoundary, first);
    let b = a.note_some(inputs, Finding::CallContextExcluded, second);
    let c = b.note_some(inputs, Finding::CallBoundaryUnavailable, third);
    let d = c.note_some(inputs, Finding::ReturnConditionExcluded, fourth);
    lemma_note_tells(inputs, s, Finding::VirtualBoundary, first);
    lemma_note_tells(inputs, a, Finding::CallContextExcluded, second);
    lemma_note_tells(inputs, b, Finding::CallBoundaryUnavailable, third);
    lemma_note_tells(inputs, c, Finding::ReturnConditionExcluded, fourth);
    lemma_tells_on(s, a, b);
    lemma_tells_on(s, b, c);
    lemma_tells_on(s, c, d);
    let left = selected(inputs, v, Trait::Consistent, list);
    let cut = TraceState { truncated: true, ..d };
    let cycles = selected(inputs, v, Trait::Cycle, left);
    let available = selected(inputs, v, Trait::Available, left);
    let looped = d.note_some(inputs, Finding::CycleUnexpanded, cycles);
    let rest = looped.note_some(inputs, Finding::AlternativesUnexpanded, available.drop_last());
    lemma_note_tells(inputs, d, Finding::OriginUnestablished, Seq::empty());
    lemma_note_tells(inputs, cut, Finding::MaxDepthTruncated, left);
    lemma_note_tells(inputs, d, Finding::CycleUnexpanded, cycles);
    lemma_note_tells(inputs, looped, Finding::AlternativesUnexpanded, available.drop_last());
    lemma_tells_on(s, d, d.note_here(inputs, Finding::OriginUnestablished, Seq::empty()));
    lemma_tells_on(s, cut, cut.note_here(inputs, Finding::MaxDepthTruncated, left));
    lemma_tells_on(s, d, looped);
    lemma_tells_on(s, looped, rest);
}

/// Before a step the limits that touch the node are reported.
proof fn lemma_advance_tells_more(inputs: TraceInputs, s: TraceState)
    ensures
        tells_more(
            if in_context(inputs.store.resolved_callsites@, s.current, s.context) {
                report_limits(inputs, s)
            } else {
                s
            },
            advance_spec(inputs, s).0,
        ),
{
    reveal(advance_spec);
    if !in_context(inputs.store.resolved_callsites@, s.current, s.context) {
        lemma_note_tells(inputs, s, Finding::InvocationUnestablished, Seq::empty());
    } else {
        let found = incoming(inputs, s.current.id);
        let told = report_limits(inputs, s);
        if s.current.kind == DataNodeKind::CallOutput && !has_kind(
            found,
            DataFlowKind::WritebackToCall,
        ) {
            let next = advance_spec(inputs, s).0;
            assert(told.diagnostics =~= next.diagnostics.take(told.diagnostics.len() as int));
        } else {
            lemma_note_tells(inputs, told, Finding::CallResultUnavailable, Seq::empty());
            assert(told.diagnostics =~= told.diagnostics.take(told.diagnostics.len() as int));
            let begun = if s.current.kind == DataNodeKind::CallReturn && !has_kind(
                found,
                DataFlowKind::ReturnToCall,
            ) {
                told.note_here(inputs, Finding::CallResultUnavailable, Seq::empty())
            } else {
                told
            };
            let all = resolve_all(inputs, found, s.current, s.context);
            let (aside, candidates) = set_receivers_aside(inputs, begun, all);
            assert(begun.diagnostics =~= begun.diagnostics.take(begun.diagnostics.len() as int));
            lemma_note_tells(
                inputs,
                begun,
                Finding::FieldReceiverContext,
                selected(inputs, begun.visited, Trait::Receiver, all),
            );
            assert(tells_more(begun, aside));
            let missing = selected(inputs, s.visited, Trait::Missing, candidates);
            let complete = aside.note_some(inputs, Finding::DataNodeMissing, missing);
            lemma_note_tells(inputs, aside, Finding::DataNodeMissing, missing);
            let list = without_repeats(
                ordered(
                    inputs,
                    s.current,
                    selected(inputs, s.visited, Trait::Present, candidates),
                ),
            );
            lemma_select_tells(inputs, complete, list);
            lemma_tells_on(told, begun, aside);
            lemma_tells_on(told, aside, complete);
            lemma_tells_on(told, complete, advance_spec(inputs, s).0);
        }
    }
}

proof fn lemma_advance_tells(inputs: TraceInputs, s: TraceState)
    requires
        all_told(s),
    ensures
        all_told(advance_spec(inputs, s).0),
        in_context(inputs.store.resolved_callsites@, s.current, s.context) ==> forall|
            limit: ExtractDiagnosticView,
        | #[trigger]
            limits_at(inputs.store, s.current).contains(limit) ==> advance_spec(
                inputs,
                s,
            ).0.diagnostics.contains(limit_diagnostic(s.current.file_id, limit)),
{
    let next = advance_spec(inputs, s).0;
    let told = if in_context(inputs.store.resolved_callsites@, s.current, s.context) {
        report_limits(inputs, s)
    } else {
        s
    };
    lemma_limits_told(inputs, s);
    lemma_advance_tells_more(inputs, s);
    assert forall|k: int| 0 <= k < next.reported.len() implies next.diagnostics.contains(
        limit_diagnostic((#[trigger] next.reported[k]).0, next.reported[k].1),
    ) by {
        let told_limit = limit_diagnostic(told.reported[k].0, told.reported[k].1);
        lemma_contained_on(told.diagnostics, next.diagnostics, told_limit);
    }
    if in_context(inputs.store.resolved_callsites@, s.current, s.context) {
        assert forall|limit: ExtractDiagnosticView| #[trigger] limits_at(
            inputs.store,
            s.current,
        ).contains(limit) implies next.diagnostics.contains(
            limit_diagnostic(s.current.file_id, limit),
        ) by {
            lemma_contained_on(
                told.diagnostics,
                next.diagnostics,
                limit_diagnostic(s.current.file_id, limit),
            );
        }
    }
}

/// What a run reports of the node that it is at, and of those that its steps lead to.
proof fn lemma_run_tells(
    inputs: TraceInputs,
    sink: TracePointView,
    node: DataNode,
    s: TraceState,
    k: int,
    at: DataNode,
    context: Seq<CallsiteId>,
    limit: ExtractDiagnosticView,
)
    requires
        all_told(s),
        is_under_way(inputs, sink, node, s),
        s.steps.len() <= k <= run(inputs, s).steps.len(),
        if k == s.steps.len() {
            at == s.current && context == s.context
        } else {
            comes_to(inputs, run(inputs, s).steps[k - 1], at, context)
        },
        in_context(inputs.store.resolved_callsites@, at, context),
        limits_at(inputs.store, at).contains(limit),
    ensures
        run(inputs, s).diagnostics.contains(limit_diagnostic(at.file_id, limit)),
    decreases inputs.max_depth - s.steps.len(),
{
    let (next, goes_on) = advance_spec(inputs, s);
    let end = run(inputs, s);
    lemma_advance_tells(inputs, s);
    lemma_advance_grows(inputs, s);
    lemma_stays_under_way(inputs, sink, node, s);
    if goes_on {
        lemma_run_grows(inputs, next);
    }
    if k == s.steps.len() {
        if goes_on {
            assert(end == run(inputs, next));
        } else {
            assert(end == next);
            assert(next.diagnostics.is_prefix_of(end.diagnostics)) by {
                assert(next.diagnostics =~= end.diagnostics.take(next.diagnostics.len() as int));
            }
        }
        lemma_contained_on(
            next.diagnostics,
            end.diagnostics,
            limit_diagnostic(at.file_id, limit),
        );
    } else {
        assert(goes_on);
        assert(end == run(inputs, next));
        if k == next.steps.len() {
            assert(end.steps[k - 1] == next.steps.last());
            assert(find_node(inputs.store.data_nodes@, at.id) == Some(at));
        }
        lemma_run_tells(inputs, sink, node, next, k, at, context, limit);
    }
}

/// Whether a warning about a range, or about everything, touches a node.
pub open spec fn touches(range: Option<TextRange>, node: DataNode) -> bool {
    match range {
        None => true,
        Some(r) => if r.start_byte == r.end_byte {
            node.range.start_byte <= r.start_byte <= node.range.end_byte
        } else {
            r.start_byte < node.range.end_byte && node.range.start_byte < r.end_byte
        },
    }
}

proof fn lemma_path_tells(
    inputs: TraceInputs,
    sink: TracePointView,
    node: DataNode,
    at: DataNode,
    context: Seq<CallsiteId>,
    limit: ExtractDiagnosticView,
)
    requires
        is_on_path(inputs, sink, node, trace_path(inputs, sink, node), at, context),
        in_context(inputs.store.resolved_callsites@, at, context),
        limits_at(inputs.store, at).contains(limit),
    ensures
        trace_path(inputs, sink, node).diagnostics.contains(
            limit_diagnostic(at.file_id, limit),
        ),
{
    let path = trace_path(inputs, sink, node);
    let begin = start(sink, node);
    let end = run(inputs, begin);
    assert(path.steps == shown_steps(inputs.store, end.steps));
    assert(begin.visited =~= seq![(node.id, sink.call_context)] + begin.steps.map_values(
        |step: TracePathStepView| (step.from_node_id, step.call_context),
    ));
    if at == node && context == sink.call_context {
        lemma_run_tells(inputs, sink, node, begin, 0, at, context, limit);
    } else {
        let i = choose|i: int|
            0 <= i < path.steps.len() && comes_to(inputs, #[trigger] path.steps[i], at, context);
        let k = end.steps.len() - i;
        assert(path.steps[i].from_node_id == end.steps[k - 1].from_node_id);
        assert(path.steps[i].call_context == end.steps[k - 1].call_context);
        assert(comes_to(inputs, end.steps[k - 1], at, context));
        lemma_run_tells(inputs, sink, node, begin, k, at, context, limit);
    }
}

/// What the extraction left out of a file is reported by every path that it touches: a
/// diagnostic of the file that is more than information and touches a node of the path is
/// among the diagnostics of the path.
pub proof fn a_limit_of_a_file_is_reported(
    inputs: TraceInputs,
    sink: TracePointView,
    node: DataNode,
    at: DataNode,
    context: Seq<CallsiteId>,
    f: int,
)
    requires
        is_on_path(inputs, sink, node, trace_path(inputs, sink, node), at, context),
        in_context(inputs.store.resolved_callsites@, at, context),
        0 <= f < inputs.store.file_diagnostics@.len(),
        inputs.store.file_diagnostics@[f].file_id == at.file_id,
        inputs.store.file_diagnostics@[f].diagnostic.level != DiagnosticLevel::Info,
        touches(inputs.store.file_diagnostics@[f].diagnostic.range, at),
    ensures
        ({
            let d = inputs.store.file_diagnostics@[f].diagnostic@;
            trace_path(inputs, sink, node).diagnostics.contains(
                TraceDiagnosticView::ExtractionLimit {
                    limit: d.message,
                    file_id: at.file_id,
                    location: d.range,
                },
            )
        }),
{
    let table = inputs.store.file_diagnostics@;
    let keep = |d: FileDiagnostic| d.file_id == at.file_id && matters(d.diagnostic, at);
    let turn = |d: FileDiagnostic| d.diagnostic@;
    table.lemma_filter_contains(keep, f);
    let kept = table.filter(keep);
    let k = choose|k: int| 0 <= k < kept.len() && kept[k] == table[f];
    let limit = table[f].diagnostic@;
    assert(file_limits(table, at) == kept.map_values(turn));
    assert(kept.map_values(turn)[k] == limit);
    assert(limits_at(inputs.store, at)[k] == limit);
    lemma_path_tells(inputs, sink, node, at, context, limit);
}

/// What the extraction left out of a function is reported by every path that it touches.
pub proof fn a_limit_of_a_function_is_reported(
    inputs: TraceInputs,
    sink: TracePointView,
    node: DataNode,
    at: DataNode,
    context: Seq<CallsiteId>,
    f: int,
)
    requires
        is_on_path(inputs, sink, node, trace_path(inputs, sink, node), at, context),
        in_context(inputs.store.resolved_callsites@, at, context),
        0 <= f < inputs.store.unit_diagnostics@.len(),
        inputs.store.unit_diagnostics@[f].file_id == at.file_id,
        inputs.store.unit_diagnostics@[f].function_id == at.function_id,
        inputs.store.unit_diagnostics@[f].diagnostic.level != DiagnosticLevel::Info,
        touches(inputs.store.unit_diagnostics@[f].diagnostic.range, at),
    ensures
        ({
            let d = inputs.store.unit_diagnostics@[f].diagnostic@;
            trace_path(inputs, sink, node).diagnostics.contains(
                TraceDiagnosticView::ExtractionLimit {
                    limit: d.message,
                    file_id: at.file_id,
                    location: d.range,
                },
            )
        }),
{
    let table = inputs.store.unit_diagnostics@;
    let keep = |d: UnitDiagnostic|
        d.file_id == at.file_id && d.function_id == at.function_id && matters(d.diagnostic, at);
    let turn = |d: UnitDiagnostic| d.diagnostic@;
    table.lemma_filter_contains(keep, f);
    let kept = table.filter(keep);
    let k = choose|k: int| 0 <= k < kept.len() && kept[k] == table[f];
    let limit = table[f].diagnostic@;
    let of_file = file_limits(inputs.store.file_diagnostics@, at);
    assert(unit_limits(table, at) == kept.map_values(turn));
    assert(kept.map_values(turn)[k] == limit);
    assert(limits_at(inputs.store, at)[of_file.len() + k] == limit);
    lemma_path_tells(inputs, sink, node, at, context, limit);
}

} // verus!
