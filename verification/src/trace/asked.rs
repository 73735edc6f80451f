//! The nodes whose incoming edges a trace asks for. What stands elsewhere cannot change
//! the path.

use crate::facts::DataNode;
use crate::ids::{CallsiteId, DataNodeId};
use crate::store::Store;
use crate::trace::call_context::{in_context, CallContexts, CandidateView};
use crate::trace::path::{Finding, TracePath, TracePathStepView, TracePathView, TracePointView};
use crate::trace::slicer::{
    advance_spec, candidate_key, detail_of, frontier, has_trait, incoming, ordered,
    resolve_all, resolve_candidate, run, select_next, selected, start, trace_path, Slicer,
    TraceInputs, TraceState, Trait,
};
use vstd::prelude::*;

verus! {

/// The nodes whose incoming edges a trace asks for from a state on: each node that it comes
/// to, unless the invocation is not established there.
pub open spec fn asked_from(inputs: TraceInputs, state: TraceState) -> Seq<DataNodeId>
    decreases inputs.max_depth - state.steps.len(),
{
    let (next, goes_on) = advance_spec(inputs, state);
    let here = if in_context(inputs.store.resolved_callsites@, state.current, state.context) {
        seq![state.current.id]
    } else {
        Seq::empty()
    };
    if goes_on && state.steps.len() < next.steps.len() <= inputs.max_depth {
        here + asked_from(inputs, next)
    } else {
        here
    }
}

/// The nodes that a path comes to, from its sink to its source.
pub open spec fn path_nodes(path: TracePathView) -> Seq<DataNodeId> {
    match path.sink.data_node {
        None => Seq::empty(),
        Some(node) => seq![node.id] + Seq::new(
            path.steps.len(),
            |i: int| path.steps[path.steps.len() - 1 - i].from_node_id,
        ),
    }
}

/// Whether the invocation is established where a path ends.
pub open spec fn ends_in_context(store: Store, path: TracePathView) -> bool {
    match path.source.data_node {
        None => false,
        Some(node) => in_context(store.resolved_callsites@, node, path.source.call_context),
    }
}

/// The nodes whose incoming edges a path asks for, from its sink on: all that it comes to,
/// but for the last where the invocation is not established there.
pub open spec fn asked_of(store: Store, path: TracePathView) -> Seq<DataNodeId> {
    let nodes = path_nodes(path);
    if ends_in_context(store, path) || nodes.len() == 0 {
        nodes
    } else {
        nodes.drop_last()
    }
}

impl Slicer {
    /// The nodes whose incoming edges a path asks for, from its sink on.
    pub fn asked_nodes(store: &Store, path: &TracePath) -> (r: Vec<DataNodeId>)
        ensures
            r@ == asked_of(*store, path@),
    {
        let mut nodes: Vec<DataNodeId> = Vec::new();
        let ghost all = path_nodes(path@);
        match &path.sink.data_node {
            None => {
                assert(nodes@ =~= all);
                return nodes;
            },
            Some(node) => {
                nodes.push(node.id);
            },
        }
        let count: usize = path.steps.len();
        let mut i: usize = 0;
        assert(nodes@ =~= all.take(1));
        while i < count
            invariant
                i <= count,
                count == path.steps@.len(),
                path.sink.data_node is Some,
                all == path_nodes(path@),
                all.len() == count + 1,
                nodes@ == all.take(i + 1),
            decreases count - i,
        {
            assert(path@.steps[count - 1 - i] == path.steps@[count - 1 - i]@);
            nodes.push(path.steps[count - 1 - i].from_node_id);
            assert(nodes@ =~= all.take(i + 2));
            i += 1;
        }
        assert(all.take(i + 1) =~= all);
        let established = match &path.source.data_node {
            None => false,
            Some(node) => {
                let mut contexts = CallContexts::new(store);
                contexts.valid_for(node, path.source.call_context.as_slice())
            },
        };
        if !established {
            let _ = nodes.pop();
        }
        nodes
    }
}

proof fn lemma_one_step(inputs: TraceInputs, state: TraceState)
    ensures
        ({
            let (next, goes_on) = advance_spec(inputs, state);
            if goes_on {
                &&& in_context(inputs.store.resolved_callsites@, state.current, state.context)
                &&& next.steps.len() == state.steps.len() + 1
                &&& next.steps.len() <= inputs.max_depth
                &&& next.steps.drop_last() == state.steps
                &&& next.steps.last().from_node_id == next.current.id
            } else {
                &&& next.steps == state.steps
                &&& next.current == state.current
                &&& next.context == state.context
            }
        }),
{
    reveal(advance_spec);
    reveal(select_next);
    let (next, goes_on) = advance_spec(inputs, state);
    if goes_on {
        assert(next.steps.drop_last() =~= state.steps);
    }
}

/// The nodes from which steps come.
spec fn sources(steps: Seq<TracePathStepView>) -> Seq<DataNodeId> {
    steps.map_values(|s: TracePathStepView| s.from_node_id)
}

proof fn lemma_asked(inputs: TraceInputs, state: TraceState)
    ensures
        ({
            let end = run(inputs, state);
            let all = seq![state.current.id] + sources(
                end.steps.skip(state.steps.len() as int),
            );
            &&& state.steps.is_prefix_of(end.steps)
            &&& asked_from(inputs, state) == if in_context(
                inputs.store.resolved_callsites@,
                end.current,
                end.context,
            ) {
                all
            } else {
                all.drop_last()
            }
        }),
    decreases inputs.max_depth - state.steps.len(),
{
    lemma_one_step(inputs, state);
    let (next, goes_on) = advance_spec(inputs, state);
    let end = run(inputs, state);
    let count = state.steps.len() as int;
    let all = seq![state.current.id] + sources(end.steps.skip(count));
    if goes_on {
        lemma_asked(inputs, next);
        assert(end == run(inputs, next));
        assert(end.steps.take(count + 1) =~= next.steps);
        assert(end.steps.take(count) =~= state.steps) by {
            assert(next.steps.drop_last() =~= end.steps.take(count));
        }
        assert(end.steps[count] == next.steps.last());
        let rest = seq![next.current.id] + sources(end.steps.skip(count + 1));
        assert(sources(end.steps.skip(count)) =~= rest);
        assert(all =~= seq![state.current.id] + rest);
        assert(all.drop_last() =~= seq![state.current.id] + rest.drop_last());
    } else {
        assert(end.steps.skip(count) =~= Seq::empty());
        assert(sources(end.steps.skip(count)) =~= Seq::empty());
        assert(all =~= seq![state.current.id]);
        assert(all.drop_last() =~= Seq::<DataNodeId>::empty());
        assert(end.steps.take(count) =~= state.steps);
    }
}

/// A path tells which edges its trace asked for: those into the nodes that it comes to, but
/// for the last where the invocation is not established there.
pub proof fn a_path_tells_what_was_asked_for(
    inputs: TraceInputs,
    sink: TracePointView,
    node: DataNode,
)
    requires
        sink.data_node == Some(node),
    ensures
        asked_of(inputs.store, trace_path(inputs, sink, node)) == asked_from(
            inputs,
            start(sink, node),
        ),
{
    let end = run(inputs, start(sink, node));
    let path = trace_path(inputs, sink, node);
    lemma_asked(inputs, start(sink, node));
    assert(end.steps.skip(0) =~= end.steps);
    assert(path_nodes(path) =~= seq![node.id] + sources(end.steps));
}

/// Whether two traces read the same but for virtual edges.
pub open spec fn differ_in_virtual_edges(a: TraceInputs, b: TraceInputs) -> bool {
    a.store == b.store && a.excluded_returns == b.excluded_returns && a.max_depth == b.max_depth
}

proof fn lemma_same_selection(a: TraceInputs, b: TraceInputs)
    requires
        differ_in_virtual_edges(a, b),
    ensures
        forall|v: Seq<(DataNodeId, Seq<CallsiteId>)>, w: Trait, c: Seq<CandidateView>|
            #[trigger] selected(a, v, w, c) == selected(b, v, w, c),
        forall|n: DataNode, c: Seq<CandidateView>| #[trigger] ordered(a, n, c) == ordered(b, n, c),
        forall|c: Seq<CandidateView>, n: DataNode, x: Seq<CallsiteId>|
            #[trigger] resolve_all(a, c, n, x) == resolve_all(b, c, n, x),
        forall|
            f: Finding,
            n: DataNode,
            x: Seq<CallsiteId>,
            c: Seq<CandidateView>,
        | #[trigger] frontier(a, f, n, x, c) == frontier(b, f, n, x, c),
{
    assert forall|
        v: Seq<(DataNodeId, Seq<CallsiteId>)>,
        w: Trait,
        c: Seq<CandidateView>,
    | #[trigger] selected(a, v, w, c) == selected(b, v, w, c) by {
        let mine = |k: CandidateView| has_trait(a, v, w, k);
        let theirs = |k: CandidateView| has_trait(b, v, w, k);
        assert(mine =~= theirs);
    }
    assert forall|n: DataNode, c: Seq<CandidateView>| #[trigger] ordered(a, n, c) == ordered(
        b,
        n,
        c,
    ) by {
        let mine = |k: CandidateView| candidate_key(a, n, k);
        let theirs = |k: CandidateView| candidate_key(b, n, k);
        assert(mine =~= theirs);
    }
    assert forall|c: Seq<CandidateView>, n: DataNode, x: Seq<CallsiteId>|
        #[trigger] resolve_all(a, c, n, x) == resolve_all(b, c, n, x) by {
        let mine = |k: CandidateView| resolve_candidate(a, k, n, x);
        let theirs = |k: CandidateView| resolve_candidate(b, k, n, x);
        assert(mine =~= theirs);
    }
    assert forall|
        f: Finding,
        n: DataNode,
        x: Seq<CallsiteId>,
        c: Seq<CandidateView>,
    | #[trigger] frontier(a, f, n, x, c) == frontier(b, f, n, x, c) by {
        let mine = |k: CandidateView| detail_of(a, k);
        let theirs = |k: CandidateView| detail_of(b, k);
        assert(mine =~= theirs);
    }
}

proof fn lemma_same_step(a: TraceInputs, b: TraceInputs, state: TraceState)
    requires
        differ_in_virtual_edges(a, b),
        in_context(a.store.resolved_callsites@, state.current, state.context) ==> incoming(
            a,
            state.current.id,
        ) == incoming(b, state.current.id),
    ensures
        advance_spec(a, state) == advance_spec(b, state),
{
    reveal(advance_spec);
    reveal(select_next);
    lemma_same_selection(a, b);
}

proof fn lemma_same_run(a: TraceInputs, b: TraceInputs, state: TraceState)
    requires
        differ_in_virtual_edges(a, b),
        forall|id: DataNodeId| #[trigger]
            asked_from(a, state).contains(id) ==> incoming(a, id) == incoming(b, id),
    ensures
        run(a, state) == run(b, state),
    decreases a.max_depth - state.steps.len(),
{
    let (next, goes_on) = advance_spec(a, state);
    let asked = asked_from(a, state);
    if in_context(a.store.resolved_callsites@, state.current, state.context) {
        assert(asked[0] == state.current.id);
        assert(asked.contains(state.current.id));
    }
    lemma_same_step(a, b, state);
    lemma_one_step(a, state);
    if goes_on {
        let rest = asked_from(a, next);
        assert forall|id: DataNodeId| #[trigger] rest.contains(id) implies incoming(a, id)
            == incoming(b, id) by {
            let i = choose|i: int| 0 <= i < rest.len() && rest[i] == id;
            assert(asked[i + 1] == id);
            assert(asked.contains(id));
        }
        lemma_same_run(a, b, next);
    }
}

/// Virtual edges elsewhere do not matter: where two traces are given the same edges into
/// the nodes that one of them asks for, they show the same path.
pub proof fn edges_that_are_not_asked_for_do_not_matter(
    a: TraceInputs,
    b: TraceInputs,
    sink: TracePointView,
    node: DataNode,
)
    requires
        sink.data_node == Some(node),
        differ_in_virtual_edges(a, b),
        forall|id: DataNodeId| #[trigger]
            asked_of(a.store, trace_path(a, sink, node)).contains(id) ==> incoming(a, id)
                == incoming(b, id),
    ensures
        trace_path(a, sink, node) == trace_path(b, sink, node),
{
    a_path_tells_what_was_asked_for(a, sink, node);
    lemma_same_run(a, b, start(sink, node));
}

} // verus!
