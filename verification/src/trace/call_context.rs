//! Call restrictions for one backward value trace. These are scope constraints on
//! recorded calls, not proof of runtime execution.

use crate::collections::{copy_ids, holds, IdMap};
use crate::facts::{DataFlowEdge, DataFlowKind, DataNode, DataNodeKind, ResolvedCallsite};
use crate::ids::{CallsiteId, SymbolId};
use crate::store::Store;
use vstd::prelude::*;

verus! {

/// An edge that a trace may follow backwards.
#[derive(Debug)]
pub struct Candidate {
    pub edge: DataFlowEdge,
    pub callsite_id: Option<CallsiteId>,
    pub virtual_edge: bool,
    /// The calls that are entered once the edge is followed.
    pub context: Option<Vec<CallsiteId>>,
    /// The edge belongs to another invocation.
    pub excluded: bool,
}

/// A candidate, by value.
#[verifier::ext_equal]
pub struct CandidateView {
    pub edge: DataFlowEdge,
    pub callsite_id: Option<CallsiteId>,
    pub virtual_edge: bool,
    pub context: Option<Seq<CallsiteId>>,
    pub excluded: bool,
}

/// The calls of a context that may be absent, by value.
pub open spec fn context_view(context: Option<Vec<CallsiteId>>) -> Option<Seq<CallsiteId>> {
    match context {
        None => None,
        Some(calls) => Some(calls@),
    }
}

impl View for Candidate {
    type V = CandidateView;

    open spec fn view(&self) -> CandidateView {
        CandidateView {
            edge: self.edge,
            callsite_id: self.callsite_id,
            virtual_edge: self.virtual_edge,
            context: context_view(self.context),
            excluded: self.excluded,
        }
    }
}

impl Candidate {
    /// A candidate with the same parts.
    pub fn copy(&self) -> (r: Self)
        ensures
            r@ == self@,
    {
        Candidate {
            edge: self.edge,
            callsite_id: self.callsite_id,
            virtual_edge: self.virtual_edge,
            context: match &self.context {
                None => None,
                Some(calls) => Some(copy_ids(calls.as_slice())),
            },
            excluded: self.excluded,
        }
    }
}

/// What following an edge does to the calls that are entered.
#[derive(Debug)]
pub enum Transition {
    /// The calls that are entered behind the edge.
    Follow(Vec<CallsiteId>),
    /// The edge belongs to another invocation.
    Excluded,
    /// The call boundary or the invocation is not established.
    Unavailable,
}

/// What following an edge does, by value.
pub enum TransitionView {
    Follow(Seq<CallsiteId>),
    Excluded,
    Unavailable,
}

impl View for Transition {
    type V = TransitionView;

    open spec fn view(&self) -> TransitionView {
        match self {
            Transition::Follow(calls) => TransitionView::Follow(calls@),
            Transition::Excluded => TransitionView::Excluded,
            Transition::Unavailable => TransitionView::Unavailable,
        }
    }
}

/// Whether a call is recorded to lead from one function to another.
pub open spec fn linked(
    calls: Seq<ResolvedCallsite>,
    id: CallsiteId,
    caller: SymbolId,
    callee: SymbolId,
) -> bool {
    exists|i: int|
        0 <= i < calls.len() && (#[trigger] calls[i]).callsite.id == id && calls[i].callsite.caller
            == caller && calls[i].callee == callee
}

/// Whether a chain of recorded calls, one for each call of the context and each
/// made by the function that the one before it enters, ends in a function.
pub open spec fn enters(
    calls: Seq<ResolvedCallsite>,
    context: Seq<CallsiteId>,
    function: SymbolId,
) -> bool
    decreases context.len(),
{
    if context.len() == 0 {
        false
    } else {
        exists|caller: SymbolId| #[trigger]
            linked(calls, context.last(), caller, function) && (context.len() == 1 || enters(
                calls,
                context.drop_last(),
                caller,
            ))
    }
}

/// Whether a node belongs to the invocation that the context describes. Without a
/// context every node does.
pub open spec fn in_context(
    calls: Seq<ResolvedCallsite>,
    node: DataNode,
    context: Seq<CallsiteId>,
) -> bool {
    context.len() == 0 || (match node.function_id {
        None => false,
        Some(owner) => enters(calls, context, owner),
    })
}

/// Whether a kind of edge crosses from one function to another.
pub open spec fn crosses_call(kind: DataFlowKind) -> bool {
    kind == DataFlowKind::ArgToParam || returns_to_call(kind)
}

/// Whether a kind of edge brings a value back to a call.
pub open spec fn returns_to_call(kind: DataFlowKind) -> bool {
    kind == DataFlowKind::ReturnToCall || kind == DataFlowKind::WritebackToCall
}

/// The call that an edge crosses. A stored edge may use the identity of its call
/// node; a virtual edge names its own call, and it is never inferred from an
/// unrelated nested call.
pub open spec fn boundary(
    edge: CandidateView,
    target: DataNode,
    source: DataNode,
) -> Option<CallsiteId> {
    if edge.callsite_id is Some {
        edge.callsite_id
    } else if edge.virtual_edge {
        None
    } else if returns_to_call(edge.edge.kind) {
        target.callsite_id
    } else if edge.edge.kind == DataFlowKind::ArgToParam && source.kind == DataNodeKind::CallArg {
        source.callsite_id
    } else {
        None
    }
}

/// What following an edge does to the calls that are entered.
pub open spec fn transition_spec(
    calls: Seq<ResolvedCallsite>,
    edge: CandidateView,
    target: DataNode,
    source: DataNode,
    context: Seq<CallsiteId>,
) -> TransitionView {
    let kind = edge.edge.kind;
    if crosses_call(kind) {
        match (boundary(edge, target, source), source.function_id, target.function_id) {
            (Some(id), Some(from), Some(to)) => {
                let established = if returns_to_call(kind) {
                    linked(calls, id, to, from)
                } else {
                    linked(calls, id, from, to)
                };
                if !established || !in_context(calls, target, context) {
                    TransitionView::Unavailable
                } else if returns_to_call(kind) {
                    TransitionView::Follow(context.push(id))
                } else if context.len() == 0 {
                    TransitionView::Follow(context)
                } else if context.last() != id {
                    TransitionView::Excluded
                } else {
                    TransitionView::Follow(context.drop_last())
                }
            },
            _ => TransitionView::Unavailable,
        }
    } else if kind == DataFlowKind::StateFlow {
        TransitionView::Follow(Seq::empty())
    } else if in_context(calls, source, context) {
        TransitionView::Follow(context)
    } else {
        TransitionView::Unavailable
    }
}

/// The pairs of caller and callee that a call is recorded with.
pub open spec fn holds_links(
    calls: Seq<ResolvedCallsite>,
    id: CallsiteId,
    links: Seq<(SymbolId, SymbolId)>,
) -> bool {
    forall|caller: SymbolId, callee: SymbolId| #[trigger]
        links.contains((caller, callee)) <==> linked(calls, id, caller, callee)
}

fn has_pair(links: &[(SymbolId, SymbolId)], pair: (SymbolId, SymbolId)) -> (r: bool)
    ensures
        r == links@.contains(pair),
{
    let mut i: usize = 0;
    while i < links.len()
        invariant
            i <= links@.len(),
            forall|k: int| 0 <= k < i ==> links@[k] != pair,
        decreases links@.len() - i,
    {
        if links[i].0 == pair.0 && links[i].1 == pair.1 {
            assert(links@[i as int] == pair);
            return true;
        }
        i += 1;
    }
    false
}

/// Reads the recorded calls, each at most once.
pub struct CallContexts<'a> {
    store: &'a Store,
    calls: IdMap<CallsiteId, Vec<(SymbolId, SymbolId)>>,
}

impl<'a> CallContexts<'a> {
    /// The recorded calls.
    pub closed spec fn recorded(&self) -> Seq<ResolvedCallsite> {
        self.store.resolved_callsites@
    }

    /// What has been read is what is recorded.
    pub closed spec fn wf(&self) -> bool {
        forall|id: CallsiteId| #[trigger]
            self.calls@.dom().contains(id) ==> holds_links(
                self.store.resolved_callsites@,
                id,
                self.calls@[id]@,
            ) && self.calls@[id]@.no_duplicates()
    }

    /// Nothing has been read.
    pub fn new(store: &'a Store) -> (r: Self)
        ensures
            r.wf(),
            r.recorded() == store.resolved_callsites@,
    {
        CallContexts { store, calls: IdMap::new() }
    }

    fn read_links(&self, id: &CallsiteId) -> (r: Vec<(SymbolId, SymbolId)>)
        ensures
            holds_links(self.recorded(), *id, r@),
            r@.no_duplicates(),
    {
        let all = &self.store.resolved_callsites;
        let mut links: Vec<(SymbolId, SymbolId)> = Vec::new();
        let mut i: usize = 0;
        while i < all.len()
            invariant
                i <= all@.len(),
                all@ == self.recorded(),
                links@.no_duplicates(),
                holds_links(all@.take(i as int), *id, links@),
            decreases all@.len() - i,
        {
            let ghost shorter = all@.take(i as int);
            let ghost longer = all@.take(i + 1);
            let ghost before = links@;
            let pair = (all[i].callsite.caller, all[i].callee);
            if all[i].callsite.id == *id && !has_pair(links.as_slice(), pair) {
                links.push(pair);
            }
            assert(holds_links(longer, *id, links@)) by {
                assert forall|caller: SymbolId, callee: SymbolId| #[trigger]
                    links@.contains((caller, callee)) <==> linked(longer, *id, caller, callee) by {
                    assert(before.contains((caller, callee)) <==> linked(
                        shorter,
                        *id,
                        caller,
                        callee,
                    ));
                    if linked(shorter, *id, caller, callee) {
                        let k = choose|k: int|
                            0 <= k < shorter.len() && (#[trigger] shorter[k]).callsite.id == *id
                                && shorter[k].callsite.caller == caller && shorter[k].callee
                                == callee;
                        assert(longer[k] == shorter[k]);
                        let p = choose|p: int|
                            0 <= p < before.len() && before[p] == (caller, callee);
                        assert(links@[p] == (caller, callee));
                    }
                    if linked(longer, *id, caller, callee) {
                        let k = choose|k: int|
                            0 <= k < longer.len() && (#[trigger] longer[k]).callsite.id == *id
                                && longer[k].callsite.caller == caller && longer[k].callee
                                == callee;
                        if k < i {
                            assert(shorter[k] == longer[k]);
                        } else if links@.len() > before.len() {
                            assert(links@[before.len() as int] == pair);
                        }
                    }
                    if links@.contains((caller, callee)) && !before.contains((caller, callee)) {
                        let p = choose|p: int|
                            0 <= p < links@.len() && links@[p] == (caller, callee);
                        if p < before.len() {
                            assert(before[p] == (caller, callee));
                        }
                        assert(longer[i as int] == all@[i as int]);
                    }
                }
            }
            i += 1;
        }
        assert(all@.take(i as int) =~= all@);
        links
    }

    fn links(&mut self, id: &CallsiteId) -> (r: &Vec<(SymbolId, SymbolId)>)
        requires
            old(self).wf(),
        ensures
            final(self).wf(),
            final(self).recorded() == old(self).recorded(),
            holds_links(old(self).recorded(), *id, r@),
    {
        if !self.calls.contains_key(id) {
            let links = self.read_links(id);
            self.calls.insert(*id, links);
        }
        self.calls.get(id).unwrap()
    }

    /// Whether a node belongs to the invocation that the context describes.
    pub fn valid_for(&mut self, node: &DataNode, context: &[CallsiteId]) -> (r: bool)
        requires
            old(self).wf(),
        ensures
            final(self).wf(),
            final(self).recorded() == old(self).recorded(),
            r == in_context(old(self).recorded(), *node, context@),
    {
        if context.len() == 0 {
            return true;
        }
        let owner = match node.function_id {
            None => {
                return false;
            },
            Some(owner) => owner,
        };
        let ghost recorded = self.recorded();
        let mut callees: Vec<SymbolId> = Vec::new();
        let mut depth: usize = 0;
        while depth < context.len()
            invariant
                depth <= context@.len(),
                self.wf(),
                self.recorded() == recorded,
                recorded == old(self).recorded(),
                node.function_id == Some(owner),
                depth == 0 ==> callees@.len() == 0,
                depth > 0 ==> forall|f: SymbolId| #[trigger]
                    callees@.contains(f) <==> enters(recorded, context@.take(depth as int), f),
            decreases context@.len() - depth,
        {
            let ghost prefix = context@.take(depth as int);
            let ghost longer = context@.take(depth + 1);
            assert(longer.drop_last() =~= prefix);
            assert(longer.last() == context@[depth as int]);
            let id = context[depth];
            let links = self.links(&id);
            let ghost pairs = links@;
            let mut next: Vec<SymbolId> = Vec::new();
            let mut i: usize = 0;
            while i < links.len()
                invariant
                    i <= links@.len(),
                    pairs == links@,
                    forall|f: SymbolId| #[trigger]
                        next@.contains(f) <==> exists|k: int|
                            0 <= k < i && (#[trigger] pairs[k]).1 == f && (depth == 0
                                || callees@.contains(pairs[k].0)),
                decreases links@.len() - i,
            {
                let ghost before = next@;
                let pair = links[i];
                if depth == 0 || holds(callees.as_slice(), &pair.0) {
                    next.push(pair.1);
                }
                assert forall|f: SymbolId| #[trigger] next@.contains(f) <==> exists|k: int|
                    0 <= k < i + 1 && (#[trigger] pairs[k]).1 == f && (depth == 0
                        || callees@.contains(pairs[k].0)) by {
                    if next@.contains(f) {
                        let p = choose|p: int| 0 <= p < next@.len() && next@[p] == f;
                        if p < before.len() {
                            assert(before[p] == f);
                            assert(before.contains(f));
                        } else {
                            assert(pairs[i as int].1 == f);
                        }
                    }
                    if before.contains(f) {
                        let p = choose|p: int| 0 <= p < before.len() && before[p] == f;
                        assert(next@[p] == f);
                    }
                    if next@.len() > before.len() {
                        assert(next@[before.len() as int] == pair.1);
                    }
                }
                i += 1;
            }
            assert forall|f: SymbolId| #[trigger] next@.contains(f) <==> enters(
                recorded,
                longer,
                f,
            ) by {
                if next@.contains(f) {
                    let k = choose|k: int|
                        0 <= k < pairs.len() && (#[trigger] pairs[k]).1 == f && (depth == 0
                            || callees@.contains(pairs[k].0));
                    assert(pairs[k] == (pairs[k].0, f));
                    assert(pairs.contains((pairs[k].0, f)));
                    assert(linked(recorded, longer.last(), pairs[k].0, f));
                }
                if enters(recorded, longer, f) {
                    let caller = choose|caller: SymbolId| #[trigger]
                        linked(recorded, longer.last(), caller, f) && (longer.len() == 1 || enters(
                            recorded,
                            longer.drop_last(),
                            caller,
                        ));
                    assert(pairs.contains((caller, f)));
                    let k = choose|k: int| 0 <= k < pairs.len() && pairs[k] == (caller, f);
                    assert(pairs[k].1 == f);
                }
            }
            if next.len() == 0 {
                proof {
                    assert forall|f: SymbolId| !#[trigger] enters(recorded, longer, f) by {
                        assert(!next@.contains(f));
                    }
                    lemma_enters_needs_prefix(recorded, context@, depth + 1, owner);
                }
                return false;
            }
            callees = next;
            depth += 1;
        }
        assert(context@.take(depth as int) =~= context@);
        holds(callees.as_slice(), &owner)
    }

    /// What following an edge does to the calls that are entered.
    pub fn transition(
        &mut self,
        edge: &Candidate,
        target: &DataNode,
        source: &DataNode,
        context: &[CallsiteId],
    ) -> (r: Transition)
        requires
            old(self).wf(),
        ensures
            final(self).wf(),
            final(self).recorded() == old(self).recorded(),
            r@ == transition_spec(old(self).recorded(), edge@, *target, *source, context@),
    {
        let kind = edge.edge.kind;
        match kind {
            DataFlowKind::ArgToParam
            | DataFlowKind::ReturnToCall
            | DataFlowKind::WritebackToCall => {
                let returning = matches!(
                    kind,
                    DataFlowKind::ReturnToCall | DataFlowKind::WritebackToCall
                );
                let id = if edge.callsite_id.is_some() {
                    edge.callsite_id
                } else if edge.virtual_edge {
                    None
                } else if returning {
                    target.callsite_id
                } else if source.kind == DataNodeKind::CallArg {
                    source.callsite_id
                } else {
                    None
                };
                let (id, from, to) = match (id, source.function_id, target.function_id) {
                    (Some(id), Some(from), Some(to)) => (id, from, to),
                    _ => {
                        return Transition::Unavailable;
                    },
                };
                let relation = if returning {
                    (to, from)
                } else {
                    (from, to)
                };
                let ghost recorded = self.recorded();
                let links = self.links(&id);
                let established = has_pair(links.as_slice(), relation);
                assert(established == linked(recorded, id, relation.0, relation.1));
                if !established || !self.valid_for(target, context) {
                    return Transition::Unavailable;
                }
                let mut next = copy_ids(context);
                if returning {
                    next.push(id);
                } else if next.len() > 0 {
                    if next[next.len() - 1] != id {
                        return Transition::Excluded;
                    }
                    next.pop();
                    assert(next@ =~= context@.drop_last());
                }
                Transition::Follow(next)
            },
            DataFlowKind::StateFlow => Transition::Follow(Vec::new()),
            _ => {
                if !self.valid_for(source, context) {
                    return Transition::Unavailable;
                }
                Transition::Follow(copy_ids(context))
            },
        }
    }
}

proof fn lemma_enters_needs_prefix(
    calls: Seq<ResolvedCallsite>,
    context: Seq<CallsiteId>,
    length: int,
    function: SymbolId,
)
    requires
        0 < length <= context.len(),
        forall|f: SymbolId| !#[trigger] enters(calls, context.take(length), f),
    ensures
        !enters(calls, context, function),
    decreases context.len() - length,
{
    if length == context.len() {
        assert(context.take(length) =~= context);
    } else {
        let longer = context.take(length + 1);
        assert(longer.drop_last() =~= context.take(length));
        assert forall|f: SymbolId| !#[trigger] enters(calls, longer, f) by {
            if enters(calls, longer, f) {
                let caller = choose|caller: SymbolId| #[trigger]
                    linked(calls, longer.last(), caller, f) && (longer.len() == 1 || enters(
                        calls,
                        longer.drop_last(),
                        caller,
                    ));
            }
        }
        lemma_enters_needs_prefix(calls, context, length + 1, function);
    }
}

/// A trace that went back into a callee through a call comes out of it through that
/// call and no other: an argument of the same call leads back to the invocation that
/// the trace came from, and one of another call is excluded.
pub proof fn a_callee_is_left_as_it_was_entered(
    calls: Seq<ResolvedCallsite>,
    exit: CandidateView,
    target: DataNode,
    source: DataNode,
    context: Seq<CallsiteId>,
    argument: CandidateView,
    parameter: DataNode,
    value: DataNode,
)
    requires
        returns_to_call(exit.edge.kind),
        argument.edge.kind == DataFlowKind::ArgToParam,
        transition_spec(calls, exit, target, source, context) is Follow,
        transition_spec(
            calls,
            argument,
            parameter,
            value,
            transition_spec(calls, exit, target, source, context)->0,
        ) !is Unavailable,
    ensures
        ({
            let inside = transition_spec(calls, exit, target, source, context)->0;
            let outside = transition_spec(calls, argument, parameter, value, inside);
            if boundary(argument, parameter, value) == boundary(exit, target, source) {
                outside == TransitionView::Follow(context)
            } else {
                outside == TransitionView::Excluded
            }
        }),
{
    let inside = transition_spec(calls, exit, target, source, context)->0;
    assert(inside.drop_last() =~= context);
}

/// Whether every call is recorded under one caller.
pub open spec fn have_one_caller(calls: Seq<ResolvedCallsite>) -> bool {
    forall|i: int, j: int|
        0 <= i < calls.len() && 0 <= j < calls.len() && (#[trigger] calls[i]).callsite.id == (
        #[trigger] calls[j]).callsite.id ==> calls[i].callsite.caller == calls[j].callsite.caller
}

/// Where every call has one caller, following an edge keeps a trace in established
/// invocations: the source belongs to the invocation that the edge leads to.
pub proof fn following_stays_in_established_invocations(
    calls: Seq<ResolvedCallsite>,
    edge: CandidateView,
    target: DataNode,
    source: DataNode,
    context: Seq<CallsiteId>,
)
    requires
        have_one_caller(calls),
        transition_spec(calls, edge, target, source, context) is Follow,
    ensures
        in_context(
            calls,
            source,
            transition_spec(calls, edge, target, source, context)->0,
        ),
{
    let next = transition_spec(calls, edge, target, source, context)->0;
    if crosses_call(edge.edge.kind) {
        let id = boundary(edge, target, source)->0;
        let from = source.function_id->0;
        let to = target.function_id->0;
        if returns_to_call(edge.edge.kind) {
            assert(next.drop_last() =~= context);
            assert(linked(calls, next.last(), to, from));
        } else if context.len() > 1 {
            let caller = choose|caller: SymbolId| #[trigger]
                linked(calls, context.last(), caller, to) && (context.len() == 1 || enters(
                    calls,
                    context.drop_last(),
                    caller,
                ));
            assert(linked(calls, id, from, to));
            let a = choose|i: int|
                0 <= i < calls.len() && (#[trigger] calls[i]).callsite.id == id
                    && calls[i].callsite.caller == from && calls[i].callee == to;
            let b = choose|i: int|
                0 <= i < calls.len() && (#[trigger] calls[i]).callsite.id == id
                    && calls[i].callsite.caller == caller && calls[i].callee == to;
            assert(calls[a].callsite.caller == calls[b].callsite.caller);
        }
    }
}

/// A value that comes back from a call is followed into the callee by that call: where the
/// call is recorded to lead from the function of the target to that of the source, the call is
/// entered behind those that were entered before.
pub proof fn a_returned_value_enters_its_call(
    calls: Seq<ResolvedCallsite>,
    edge: CandidateView,
    target: DataNode,
    source: DataNode,
    context: Seq<CallsiteId>,
    call: CallsiteId,
    caller: SymbolId,
    callee: SymbolId,
)
    requires
        edge.edge.kind == DataFlowKind::ReturnToCall || edge.edge.kind
            == DataFlowKind::WritebackToCall,
        edge.callsite_id == Some(call) || (edge.callsite_id is None && !edge.virtual_edge
            && target.callsite_id == Some(call)),
        target.function_id == Some(caller),
        source.function_id == Some(callee),
        in_context(calls, target, context),
    ensures
        transition_spec(calls, edge, target, source, context) == if linked(
            calls,
            call,
            caller,
            callee,
        ) {
            TransitionView::Follow(context.push(call))
        } else {
            TransitionView::Unavailable
        },
{
}

/// A parameter leads back to the argument of the call that was entered last, and to that of no
/// other; where none was entered, to that of any recorded call.
pub proof fn a_parameter_leaves_by_the_call_entered_last(
    calls: Seq<ResolvedCallsite>,
    edge: CandidateView,
    target: DataNode,
    source: DataNode,
    context: Seq<CallsiteId>,
    call: CallsiteId,
    caller: SymbolId,
    callee: SymbolId,
)
    requires
        edge.edge.kind == DataFlowKind::ArgToParam,
        edge.callsite_id == Some(call) || (edge.callsite_id is None && !edge.virtual_edge
            && source.kind == DataNodeKind::CallArg && source.callsite_id == Some(call)),
        source.function_id == Some(caller),
        target.function_id == Some(callee),
        in_context(calls, target, context),
    ensures
        ({
            let next = transition_spec(calls, edge, target, source, context);
            &&& !linked(calls, call, caller, callee) ==> next == TransitionView::Unavailable
            &&& linked(calls, call, caller, callee) && context.len() == 0 ==> next
                == TransitionView::Follow(context)
            &&& linked(calls, call, caller, callee) && context.len() > 0 && context.last() == call
                ==> next == TransitionView::Follow(context.drop_last())
            &&& linked(calls, call, caller, callee) && context.len() > 0 && context.last() != call
                ==> next == TransitionView::Excluded
        }),
{
}

/// An edge within a function keeps the calls that were entered and leads only to what belongs
/// to the invocation. Shared state leaves all of them.
pub proof fn other_edges_stay_in_the_invocation(
    calls: Seq<ResolvedCallsite>,
    edge: CandidateView,
    target: DataNode,
    source: DataNode,
    context: Seq<CallsiteId>,
)
    requires
        edge.edge.kind != DataFlowKind::ArgToParam,
        edge.edge.kind != DataFlowKind::ReturnToCall,
        edge.edge.kind != DataFlowKind::WritebackToCall,
    ensures
        transition_spec(calls, edge, target, source, context) == if edge.edge.kind
            == DataFlowKind::StateFlow {
            TransitionView::Follow(Seq::empty())
        } else if in_context(calls, source, context) {
            TransitionView::Follow(context)
        } else {
            TransitionView::Unavailable
        },
{
}

} // verus!
