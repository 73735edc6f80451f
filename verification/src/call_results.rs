//! Results of calls apart from the evaluation of their receivers and arguments.
//!
//! Where a call is recorded, its result is that of the recorded call; where it is only
//! written, its result stays opaque. No callee is looked for here.

use crate::collections::{
    holds, in_order, key_views, lemma_filter_step, ordered_rows, ordered_rows_is_a_permutation,
    stable_order,
};
use crate::cpp_facts::{lemma_push_view, views};
use crate::extraction_ctx::ExtractionCtx;
use crate::facts::{
    Callsite, DataFlowEdge, DataFlowKind, DataNode, DataNodeKind, DataNodeView, TextRange,
};
use crate::ids::{digest_bytes, digest_text, hex_text, CallsiteId, DataNodeId, FileId, Identity};
use crate::syntax::{get_slice, slice_of};
use crate::text::Text;
use vstd::prelude::*;
use vstd::string::StringSliceAdditionalSpecFns;

verus! {

/// Whether a range lies in a window.
pub open spec fn is_in(window: (u32, u32), range: TextRange) -> bool {
    window.0 <= range.start_byte && range.end_byte <= window.1
}

/// Whether a range lies in one of some windows.
pub open spec fn is_in_one(list: Seq<(u32, u32)>, range: TextRange) -> bool {
    exists|i: int| 0 <= i < list.len() && is_in(#[trigger] list[i], range)
}

/// Whether a range lies in one of some windows; everything does where there are none.
pub open spec fn is_in_window(windows: Option<Seq<(u32, u32)>>, range: TextRange) -> bool {
    match windows {
        None => true,
        Some(list) => is_in_one(list, range),
    }
}

fn in_one_of(list: &[(u32, u32)], range: TextRange) -> (r: bool)
    ensures
        r == is_in_one(list@, range),
{
    let mut i: usize = 0;
    while i < list.len()
        invariant
            i <= list@.len(),
            forall|k: int| 0 <= k < i ==> !is_in(#[trigger] list@[k], range),
        decreases list@.len() - i,
    {
        if list[i].0 <= range.start_byte && range.end_byte <= list[i].1 {
            assert(is_in(list@[i as int], range));
            return true;
        }
        i += 1;
    }
    false
}

fn in_window(windows: Option<&[(u32, u32)]>, range: TextRange) -> (r: bool)
    ensures
        r == is_in_window(window_views(windows), range),
{
    match windows {
        None => true,
        Some(list) => in_one_of(list, range),
    }
}

/// Windows by value.
pub open spec fn window_views(windows: Option<&[(u32, u32)]>) -> Option<Seq<(u32, u32)>> {
    match windows {
        None => None,
        Some(list) => Some(list@),
    }
}

/// The result of a recorded call. The identity of the call tells nested calls apart that
/// start at one place.
pub open spec fn recorded_result(file: FileId, text: Seq<u8>, call: Callsite) -> DataNodeView {
    DataNodeView {
        id: DataNodeId::generated(
            file,
            Some(call.caller),
            "call_return".spec_bytes(),
            Some(hex_text(digest_bytes(call.id.0))),
            None,
            call.range.start_byte,
        ),
        file_id: file,
        function_id: Some(call.caller),
        kind: DataNodeKind::CallReturn,
        binding_id: None,
        callsite_id: Some(call.id),
        name: slice_of(text, call.range.start_byte as int, call.range.end_byte as int),
        access_path: None,
        arg_index: None,
        range: call.range,
    }
}

/// The results of the recorded calls that give a value and lie in a window.
pub open spec fn recorded_results(
    file: FileId,
    text: Seq<u8>,
    calls: Seq<Callsite>,
    value_calls: Seq<CallsiteId>,
    windows: Option<Seq<(u32, u32)>>,
) -> Seq<DataNodeView>
    decreases calls.len(),
{
    if calls.len() == 0 {
        Seq::empty()
    } else {
        let before = recorded_results(file, text, calls.drop_last(), value_calls, windows);
        let call = calls.last();
        if value_calls.contains(call.id) && is_in_window(windows, call.range) {
            before.push(recorded_result(file, text, call))
        } else {
            before
        }
    }
}

/// Whether two nodes are in one function at one place.
pub open spec fn same_place(a: DataNodeView, b: DataNodeView) -> bool {
    a.function_id == b.function_id && a.range.same_bytes(b.range)
}

/// Whether a result is recorded for the place of a node.
pub open spec fn is_recorded(recorded: Seq<DataNodeView>, node: DataNodeView) -> bool {
    exists|i: int| 0 <= i < recorded.len() && same_place(#[trigger] recorded[i], node)
}

/// Whether a node is a written result that no recorded call stands for.
pub open spec fn is_opaque(recorded: Seq<DataNodeView>, node: DataNodeView) -> bool {
    node.kind == DataNodeKind::CallReturn && !is_recorded(recorded, node)
}

/// The nodes that are no results.
pub open spec fn operands(nodes: Seq<DataNodeView>) -> Seq<DataNodeView> {
    nodes.filter(|n: DataNodeView| n.kind != DataNodeKind::CallReturn)
}

/// All results: those of recorded calls, then the opaque ones.
pub open spec fn all_results(recorded: Seq<DataNodeView>, nodes: Seq<DataNodeView>) -> Seq<
    DataNodeView,
> {
    recorded + nodes.filter(|n: DataNodeView| is_opaque(recorded, n))
}

/// The last node with an identity.
pub open spec fn node_with(nodes: Seq<DataNodeView>, id: DataNodeId) -> Option<DataNodeView>
    decreases nodes.len(),
{
    if nodes.len() == 0 {
        None
    } else if nodes.last().id == id {
        Some(nodes.last())
    } else {
        node_with(nodes.drop_last(), id)
    }
}

/// Whether a result stands between a source and a target: the source is part of the
/// call, and the call is part of the target.
pub open spec fn stands_between(
    result: DataNodeView,
    source: DataNodeView,
    target: DataNodeView,
) -> bool {
    result.function_id == source.function_id && result.range.covers(source.range)
        && target.range.covers(result.range)
}

/// Whether an edge carries a value over a call as if there were none.
pub open spec fn crosses_call(
    results: Seq<DataNodeView>,
    nodes: Seq<DataNodeView>,
    edge: DataFlowEdge,
) -> bool {
    (edge.kind == DataFlowKind::Read || edge.kind == DataFlowKind::ReturnValue) && match (
        node_with(nodes, edge.source),
        node_with(nodes, edge.target),
    ) {
        (Some(source), Some(target)) => source.function_id == target.function_id && exists|i: int|
            0 <= i < results.len() && stands_between(#[trigger] results[i], source, target),
        _ => false,
    }
}

/// Whether a node can take the result of a call that is part of it.
pub open spec fn is_consumer(result: DataNodeView, node: DataNodeView) -> bool {
    node.function_id == result.function_id && (node.kind == DataNodeKind::Expr || node.kind
        == DataNodeKind::Return || node.kind == DataNodeKind::CallArg || node.kind
        == DataNodeKind::Receiver) && node.range.covers(result.range)
}

/// Whether a call is around another, in a consumer.
pub open spec fn is_between(
    outer: DataNodeView,
    result: DataNodeView,
    consumer: DataNodeView,
) -> bool {
    outer.function_id == result.function_id && outer.range.covers(result.range)
        && !outer.range.same_bytes(result.range) && consumer.range.covers(outer.range)
}

/// Whether a node takes the result of a call: `g(f(x))` takes that of `g`, and `g` takes
/// that of `f`.
pub open spec fn consumes(
    results: Seq<DataNodeView>,
    result: DataNodeView,
    node: DataNodeView,
) -> bool {
    is_consumer(result, node) && !exists|i: int|
        0 <= i < results.len() && is_between(#[trigger] results[i], result, node)
}

/// How sure it is that a result reaches its consumer, in hundredths.
pub const RESULT_CONFIDENCE: u8 = 85;

/// The edge from a result to a node that takes it.
pub open spec fn result_edge(result: DataNodeView, node: DataNodeView) -> DataFlowEdge {
    DataFlowEdge::made(
        result.id,
        node.id,
        if node.kind == DataNodeKind::Return {
            DataFlowKind::ReturnValue
        } else {
            DataFlowKind::Read
        },
        node.range,
        RESULT_CONFIDENCE,
    )
}

/// The edges from a result to the first nodes that take it.
pub open spec fn edges_from(
    results: Seq<DataNodeView>,
    result: DataNodeView,
    nodes: Seq<DataNodeView>,
) -> Seq<DataFlowEdge>
    decreases nodes.len(),
{
    if nodes.len() == 0 {
        Seq::empty()
    } else {
        let before = edges_from(results, result, nodes.drop_last());
        if consumes(results, result, nodes.last()) {
            before.push(result_edge(result, nodes.last()))
        } else {
            before
        }
    }
}

/// The edges from the first results to the nodes that take them.
pub open spec fn result_edges(
    results: Seq<DataNodeView>,
    nodes: Seq<DataNodeView>,
    count: nat,
) -> Seq<DataFlowEdge>
    decreases count,
{
    if count == 0 || count > results.len() {
        Seq::empty()
    } else {
        result_edges(results, nodes, (count - 1) as nat) + edges_from(
            results,
            results[count - 1],
            nodes,
        )
    }
}

/// By what edges are ordered.
pub open spec fn edge_keys(edges: Seq<DataFlowEdge>) -> Seq<Seq<u128>> {
    edges.map_values(|e: DataFlowEdge| seq![e.id.0.hi, e.id.0.lo])
}

/// By what results are ordered.
pub open spec fn result_keys(results: Seq<DataNodeView>) -> Seq<Seq<u128>> {
    results.map_values(
        |n: DataNodeView|
            seq![n.range.start_byte as u128, n.range.end_byte as u128, n.id.0.hi, n.id.0.lo],
    )
}

/// The nodes of a file with the results of its calls behind the others, in the order in
/// which they stand.
pub open spec fn connected_nodes(recorded: Seq<DataNodeView>, nodes: Seq<DataNodeView>) -> Seq<
    DataNodeView,
> {
    let results = all_results(recorded, nodes);
    operands(nodes) + in_order(results, result_keys(results))
}

/// The edges that carry no value over a call.
pub open spec fn retained_edges(
    results: Seq<DataNodeView>,
    nodes: Seq<DataNodeView>,
    edges: Seq<DataFlowEdge>,
) -> Seq<DataFlowEdge> {
    edges.filter(|e: DataFlowEdge| !crosses_call(results, nodes, e))
}

/// The edges of a file with those from results to what takes them, in the order of their
/// identities.
pub open spec fn connected_edges(
    recorded: Seq<DataNodeView>,
    nodes: Seq<DataNodeView>,
    edges: Seq<DataFlowEdge>,
) -> Seq<DataFlowEdge> {
    let results = all_results(recorded, nodes);
    let rest = operands(nodes);
    let all = retained_edges(results, rest, edges) + result_edges(results, rest, results.len());
    in_order(all, edge_keys(all))
}

fn find_recorded<F: Fn() -> bool>(
    ctx: &ExtractionCtx,
    calls: &[Callsite],
    value_calls: &[CallsiteId],
    windows: Option<&[(u32, u32)]>,
    cancel: &F,
) -> (r: Option<Vec<DataNode>>)
    requires
        call_requires(*cancel, ()),
    ensures
        match r {
            None => call_ensures(*cancel, (), true) && calls@.len() > 0,
            Some(found) => views(found@) == recorded_results(
                ctx.file_id,
                ctx.tree.text(),
                calls@,
                value_calls@,
                window_views(windows),
            ) && (calls@.len() > 0 ==> call_ensures(*cancel, (), false)),
        },
{
    let mut found: Vec<DataNode> = Vec::new();
    let mut i: usize = 0;
    assert(views(found@) =~= Seq::<DataNodeView>::empty());
    while i < calls.len()
        invariant
            i <= calls@.len(),
            call_requires(*cancel, ()),
            i > 0 ==> call_ensures(*cancel, (), false),
            views(found@) == recorded_results(
                ctx.file_id,
                ctx.tree.text(),
                calls@.take(i as int),
                value_calls@,
                window_views(windows),
            ),
        decreases calls@.len() - i,
    {
        assert(calls@.take(i + 1).drop_last() =~= calls@.take(i as int));
        if cancel() {
            return None;
        }
        let call = calls[i];
        if holds(value_calls, &call.id) && in_window(windows, call.range) {
            let name = digest_text(call.id.0);
            let item = DataNode {
                id: DataNodeId::generate(
                    &ctx.file_id,
                    Some(call.caller),
                    "call_return",
                    Some(name.as_slice()),
                    None,
                    call.range.start_byte,
                ),
                file_id: ctx.file_id,
                function_id: Some(call.caller),
                kind: DataNodeKind::CallReturn,
                binding_id: None,
                callsite_id: Some(call.id),
                name: match get_slice(
                    ctx.tree.source(),
                    call.range.start_byte as usize,
                    call.range.end_byte as usize,
                ) {
                    None => None,
                    Some(text) => Some(Text::from_bytes(text)),
                },
                access_path: None,
                arg_index: None,
                range: call.range,
            };
            let ghost before = found@;
            found.push(item);
            proof {
                lemma_push_view(before, item);
            }
        }
        i += 1;
    }
    assert(calls@.take(i as int) =~= calls@);
    Some(found)
}

fn find_recorded_at(recorded: &[DataNode], count: usize, node: &DataNode) -> (r: bool)
    requires
        count <= recorded@.len(),
    ensures
        r == is_recorded(views(recorded@).take(count as int), node@),
{
    let ghost all = views(recorded@).take(count as int);
    let mut i: usize = 0;
    while i < count
        invariant
            i <= count <= recorded@.len(),
            all == views(recorded@).take(count as int),
            forall|k: int| 0 <= k < i ==> !same_place(#[trigger] all[k], node@),
        decreases count - i,
    {
        assert(all[i as int] == recorded@[i as int]@);
        if recorded[i].function_id == node.function_id && recorded[i].range.start_byte
            == node.range.start_byte && recorded[i].range.end_byte == node.range.end_byte {
            assert(same_place(all[i as int], node@));
            return true;
        }
        i += 1;
    }
    false
}

fn find_operands<F: Fn() -> bool>(nodes: &[DataNode], cancel: &F) -> (r: Option<Vec<DataNode>>)
    requires
        call_requires(*cancel, ()),
    ensures
        match r {
            None => call_ensures(*cancel, (), true) && nodes@.len() > 0,
            Some(found) => {
                &&& views(found@) == operands(views(nodes@))
                &&& found@.len() <= nodes@.len()
                &&& nodes@.len() > 0 ==> call_ensures(*cancel, (), false)
            },
        },
{
    let ghost all = views(nodes@);
    let ghost keep = |n: DataNodeView| n.kind != DataNodeKind::CallReturn;
    let mut found: Vec<DataNode> = Vec::new();
    let mut i: usize = 0;
    assert(views(found@) =~= all.take(0).filter(keep)) by {
        reveal(Seq::filter);
    }
    while i < nodes.len()
        invariant
            i <= nodes@.len(),
            all == views(nodes@),
            found@.len() <= i,
            call_requires(*cancel, ()),
            i > 0 ==> call_ensures(*cancel, (), false),
            keep == (|n: DataNodeView| n.kind != DataNodeKind::CallReturn),
            views(found@) == all.take(i as int).filter(keep),
        decreases nodes@.len() - i,
    {
        proof {
            lemma_filter_step(all, keep, i as int);
        }
        if cancel() {
            return None;
        }
        assert(all[i as int] == nodes@[i as int]@);
        if nodes[i].kind != DataNodeKind::CallReturn {
            let item = nodes[i].clone();
            let ghost before = found@;
            found.push(item);
            proof {
                lemma_push_view(before, item);
            }
        }
        i += 1;
    }
    assert(all.take(i as int) =~= all);
    Some(found)
}

fn add_opaque(recorded: Vec<DataNode>, nodes: &[DataNode]) -> (r: Vec<DataNode>)
    ensures
        views(r@) == all_results(views(recorded@), views(nodes@)),
{
    let ghost all = views(nodes@);
    let ghost known = views(recorded@);
    let ghost keep = |n: DataNodeView| is_opaque(known, n);
    let count: usize = recorded.len();
    let mut found = recorded;
    let mut i: usize = 0;
    assert(views(found@) =~= known + all.take(0).filter(keep)) by {
        reveal(Seq::filter);
    }
    assert(views(found@).take(count as int) =~= known);
    while i < nodes.len()
        invariant
            i <= nodes@.len(),
            all == views(nodes@),
            keep == (|n: DataNodeView| is_opaque(known, n)),
            count <= found@.len(),
            views(found@).take(count as int) == known,
            views(found@) == known + all.take(i as int).filter(keep),
        decreases nodes@.len() - i,
    {
        proof {
            lemma_filter_step(all, keep, i as int);
        }
        assert(all[i as int] == nodes@[i as int]@);
        if nodes[i].kind == DataNodeKind::CallReturn && !find_recorded_at(
            found.as_slice(),
            count,
            &nodes[i],
        ) {
            let item = nodes[i].clone();
            let ghost before = found@;
            found.push(item);
            proof {
                lemma_push_view(before, item);
                assert(views(found@) =~= known + all.take(i as int).filter(keep).push(item@));
                assert(views(found@).take(count as int) =~= known);
            }
        }
        i += 1;
    }
    assert(all.take(i as int) =~= all);
    found
}

fn find_node<'a>(nodes: &'a [DataNode], id: &DataNodeId) -> (r: Option<&'a DataNode>)
    ensures
        match r {
            None => node_with(views(nodes@), *id) is None,
            Some(node) => node_with(views(nodes@), *id) == Some(node@),
        },
{
    let ghost all = views(nodes@);
    let mut i: usize = nodes.len();
    assert(all.take(i as int) =~= all);
    while i > 0
        invariant
            i <= nodes@.len(),
            all == views(nodes@),
            node_with(all, *id) == node_with(all.take(i as int), *id),
        decreases i,
    {
        assert(all.take(i as int).drop_last() =~= all.take(i - 1));
        assert(all[i - 1] == nodes@[i - 1]@);
        if nodes[i - 1].id.same(id) {
            return Some(&nodes[i - 1]);
        }
        i -= 1;
    }
    None
}

fn find_between(results: &[DataNode], source: &DataNode, target: &DataNode) -> (r: bool)
    ensures
        r == exists|i: int|
            0 <= i < results@.len() && stands_between(
                #[trigger] views(results@)[i],
                source@,
                target@,
            ),
{
    let ghost all = views(results@);
    let mut i: usize = 0;
    while i < results.len()
        invariant
            i <= results@.len(),
            all == views(results@),
            forall|k: int| 0 <= k < i ==> !stands_between(#[trigger] all[k], source@, target@),
        decreases results@.len() - i,
    {
        assert(all[i as int] == results@[i as int]@);
        if results[i].function_id == source.function_id && results[i].range.contains_range(
            &source.range,
        ) && target.range.contains_range(&results[i].range) {
            assert(stands_between(all[i as int], source@, target@));
            return true;
        }
        i += 1;
    }
    false
}

fn crosses(results: &[DataNode], nodes: &[DataNode], edge: &DataFlowEdge) -> (r: bool)
    ensures
        r == crosses_call(views(results@), views(nodes@), *edge),
{
    if !matches!(edge.kind, DataFlowKind::Read | DataFlowKind::ReturnValue) {
        return false;
    }
    match (find_node(nodes, &edge.source), find_node(nodes, &edge.target)) {
        (Some(source), Some(target)) => source.function_id == target.function_id && find_between(
            results,
            source,
            target,
        ),
        _ => false,
    }
}

fn is_taken_outside(results: &[DataNode], result: &DataNode, node: &DataNode) -> (r: bool)
    ensures
        r == exists|i: int|
            0 <= i < results@.len() && is_between(#[trigger] views(results@)[i], result@, node@),
{
    let ghost all = views(results@);
    let mut i: usize = 0;
    while i < results.len()
        invariant
            i <= results@.len(),
            all == views(results@),
            forall|k: int| 0 <= k < i ==> !is_between(#[trigger] all[k], result@, node@),
        decreases results@.len() - i,
    {
        assert(all[i as int] == results@[i as int]@);
        let outer = &results[i];
        if outer.function_id == result.function_id && outer.range.contains_range(&result.range) && (
        outer.range.start_byte != result.range.start_byte || outer.range.end_byte
            != result.range.end_byte) && node.range.contains_range(&outer.range) {
            assert(is_between(all[i as int], result@, node@));
            return true;
        }
        i += 1;
    }
    false
}

fn add_edges_from<F: Fn() -> bool>(
    results: &[DataNode],
    result: &DataNode,
    nodes: &[DataNode],
    cancel: &F,
    edges: &mut Vec<DataFlowEdge>,
) -> (r: bool)
    requires
        call_requires(*cancel, ()),
    ensures
        r ==> final(edges)@ == old(edges)@ + edges_from(views(results@), result@, views(nodes@)),
        !r ==> call_ensures(*cancel, (), true) && nodes@.len() > 0,
{
    let ghost all = views(nodes@);
    let ghost known = views(results@);
    let ghost start = edges@;
    let mut i: usize = 0;
    assert(edges@ =~= start + edges_from(known, result@, all.take(0)));
    while i < nodes.len()
        invariant
            i <= nodes@.len(),
            all == views(nodes@),
            known == views(results@),
            call_requires(*cancel, ()),
            edges@ == start + edges_from(known, result@, all.take(i as int)),
        decreases nodes@.len() - i,
    {
        assert(all.take(i + 1).drop_last() =~= all.take(i as int));
        assert(all.take(i + 1).last() == nodes@[i as int]@);
        let node = &nodes[i];
        if node.function_id == result.function_id && matches!(
            node.kind,
            DataNodeKind::Expr
            | DataNodeKind::Return
            | DataNodeKind::CallArg
            | DataNodeKind::Receiver
        ) && node.range.contains_range(&result.range) {
            if cancel() {
                return false;
            }
            if !is_taken_outside(results, result, node) {
                let kind = if node.kind == DataNodeKind::Return {
                    DataFlowKind::ReturnValue
                } else {
                    DataFlowKind::Read
                };
                let edge = DataFlowEdge::between(
                    result.id,
                    node.id,
                    kind,
                    node.range,
                    RESULT_CONFIDENCE,
                );
                edges.push(edge);
                assert(edges@ =~= start + edges_from(known, result@, all.take(i as int)).push(
                    edge,
                ));
            }
        }
        i += 1;
    }
    assert(all.take(i as int) =~= all);
    true
}

fn order_edges(edges: &[DataFlowEdge]) -> (r: Vec<DataFlowEdge>)
    ensures
        r@ == in_order(edges@, edge_keys(edges@)),
{
    let mut keys: Vec<Vec<u128>> = Vec::new();
    let mut i: usize = 0;
    while i < edges.len()
        invariant
            i <= edges@.len(),
            keys@.len() == i,
            key_views(keys@) =~= edge_keys(edges@).take(i as int),
        decreases edges@.len() - i,
    {
        let mut key: Vec<u128> = Vec::new();
        key.push(edges[i].id.0.hi);
        key.push(edges[i].id.0.lo);
        assert(key@ =~= seq![edges@[i as int].id.0.hi, edges@[i as int].id.0.lo]);
        keys.push(key);
        i += 1;
    }
    assert(key_views(keys@) =~= edge_keys(edges@));
    crate::collections::arrange(edges, keys.as_slice())
}

fn order_results(results: &[DataNode]) -> (r: Vec<DataNode>)
    ensures
        views(r@) == in_order(views(results@), result_keys(views(results@))),
{
    let ghost all = views(results@);
    let mut keys: Vec<Vec<u128>> = Vec::new();
    let mut i: usize = 0;
    while i < results.len()
        invariant
            i <= results@.len(),
            all == views(results@),
            keys@.len() == i,
            key_views(keys@) =~= result_keys(all).take(i as int),
        decreases results@.len() - i,
    {
        let mut key: Vec<u128> = Vec::new();
        let node = &results[i];
        key.push(node.range.start_byte as u128);
        key.push(node.range.end_byte as u128);
        key.push(node.id.0.hi);
        key.push(node.id.0.lo);
        assert(all[i as int] == node@);
        assert(key@ =~= seq![
            node@.range.start_byte as u128,
            node@.range.end_byte as u128,
            node@.id.0.hi,
            node@.id.0.lo,
        ]);
        keys.push(key);
        i += 1;
    }
    assert(key_views(keys@) =~= result_keys(all));
    let order = stable_order(keys.as_slice());
    let ghost numbers = ordered_rows(result_keys(all), all.len());
    let ghost sorted = in_order(all, result_keys(all));
    let mut placed: Vec<DataNode> = Vec::new();
    i = 0;
    while i < order.len()
        invariant
            i <= order@.len(),
            all == views(results@),
            order@.len() == results@.len(),
            numbers == order@.map_values(|i: usize| i as int),
            sorted == numbers.map_values(|i: int| all[i]),
            forall|i: int| 0 <= i < order@.len() ==> (#[trigger] order@[i]) < results@.len(),
            views(placed@) =~= sorted.take(i as int),
        decreases order@.len() - i,
    {
        assert(order@[i as int] < results@.len());
        let item = results[order[i]].clone();
        let ghost before = placed@;
        placed.push(item);
        proof {
            lemma_push_view(before, item);
            assert(sorted[i as int] == all[order@[i as int] as int]);
        }
        i += 1;
    }
    assert(sorted.take(i as int) =~= sorted);
    placed
}

fn retain_edges<F: Fn() -> bool>(
    results: &[DataNode],
    nodes: &[DataNode],
    edges: &[DataFlowEdge],
    cancel: &F,
) -> (r: Option<Vec<DataFlowEdge>>)
    requires
        call_requires(*cancel, ()),
    ensures
        match r {
            None => call_ensures(*cancel, (), true) && edges@.len() > 0,
            Some(kept) => kept@ == retained_edges(views(results@), views(nodes@), edges@) && (
            edges@.len() > 0 ==> call_ensures(*cancel, (), false)),
        },
{
    let ghost known = views(results@);
    let ghost rest = views(nodes@);
    let ghost keep = |e: DataFlowEdge| !crosses_call(known, rest, e);
    let mut kept: Vec<DataFlowEdge> = Vec::new();
    let mut i: usize = 0;
    assert(edges@.take(0).filter(keep) =~= Seq::empty()) by {
        reveal(Seq::filter);
    }
    while i < edges.len()
        invariant
            i <= edges@.len(),
            known == views(results@),
            rest == views(nodes@),
            call_requires(*cancel, ()),
            i > 0 ==> call_ensures(*cancel, (), false),
            keep == (|e: DataFlowEdge| !crosses_call(known, rest, e)),
            kept@ == edges@.take(i as int).filter(keep),
        decreases edges@.len() - i,
    {
        proof {
            lemma_filter_step(edges@, keep, i as int);
        }
        if cancel() {
            return None;
        }
        if !crosses(results, nodes, &edges[i]) {
            kept.push(edges[i]);
        }
        i += 1;
    }
    assert(edges@.take(i as int) =~= edges@);
    Some(kept)
}

/// Put the results of calls between what is evaluated for them and what takes them.
/// Whether it was canceled is asked at every call, node and edge; where it was, nothing
/// changes.
pub fn connect<F: Fn() -> bool>(
    ctx: &ExtractionCtx,
    callsites: &[Callsite],
    value_calls: &[CallsiteId],
    nodes: &mut Vec<DataNode>,
    edges: &mut Vec<DataFlowEdge>,
    capture_ranges: Option<&[(u32, u32)]>,
    cancel: &F,
) -> (r: Option<()>)
    requires
        call_requires(*cancel, ()),
    ensures
        match r {
            None => call_ensures(*cancel, (), true) && *final(nodes) == *old(nodes)
                && *final(edges) == *old(edges) && callsites@.len() + old(nodes)@.len() + old(
                edges,
            )@.len() > 0,
            Some(_) => {
                let recorded = recorded_results(
                    ctx.file_id,
                    ctx.tree.text(),
                    callsites@,
                    value_calls@,
                    window_views(capture_ranges),
                );
                &&& views(final(nodes)@) == connected_nodes(recorded, views(old(nodes)@))
                &&& final(edges)@ == connected_edges(recorded, views(old(nodes)@), old(edges)@)
                &&& callsites@.len() + old(nodes)@.len() + old(edges)@.len() > 0 ==> call_ensures(
                    *cancel,
                    (),
                    false,
                )
            },
        },
{
    let recorded = match find_recorded(ctx, callsites, value_calls, capture_ranges, cancel) {
        None => {
            return None;
        },
        Some(recorded) => recorded,
    };
    let rest = match find_operands(nodes.as_slice(), cancel) {
        None => {
            return None;
        },
        Some(rest) => rest,
    };
    let results = add_opaque(recorded, nodes.as_slice());
    let ghost known = views(results@);
    let ghost others = views(rest@);
    let mut all = match retain_edges(results.as_slice(), rest.as_slice(), edges.as_slice(), cancel) {
        None => {
            return None;
        },
        Some(kept) => kept,
    };
    let ghost kept = all@;
    let mut i: usize = 0;
    assert(all@ =~= kept + result_edges(known, others, 0));
    while i < results.len()
        invariant
            i <= results@.len(),
            *nodes == *old(nodes),
            *edges == *old(edges),
            known == views(results@),
            others == views(rest@),
            rest@.len() <= nodes@.len(),
            call_requires(*cancel, ()),
            callsites@.len() + old(nodes)@.len() + old(edges)@.len() > 0 ==> call_ensures(
                *cancel,
                (),
                false,
            ),
            all@ == kept + result_edges(known, others, i as nat),
        decreases results@.len() - i,
    {
        assert(known[i as int] == results@[i as int]@);
        if !add_edges_from(results.as_slice(), &results[i], rest.as_slice(), cancel, &mut all) {
            return None;
        }
        assert(all@ =~= kept + result_edges(known, others, (i + 1) as nat));
        i += 1;
    }
    let mut sorted = order_results(results.as_slice());
    let ghost behind = sorted@;
    let mut rest = rest;
    let ghost first = rest@;
    rest.append(&mut sorted);
    assert(views(rest@) =~= views(first) + views(behind));
    *nodes = rest;
    *edges = order_edges(all.as_slice());
    Some(())
}

proof fn lemma_edges_from(
    results: Seq<DataNodeView>,
    result: DataNodeView,
    nodes: Seq<DataNodeView>,
    i: int,
)
    requires
        0 <= i < edges_from(results, result, nodes).len(),
    ensures
        exists|k: int|
            0 <= k < nodes.len() && consumes(results, result, #[trigger] nodes[k]) && edges_from(
                results,
                result,
                nodes,
            )[i] == result_edge(result, nodes[k]),
    decreases nodes.len(),
{
    if nodes.len() > 0 {
        let shorter = nodes.drop_last();
        let before = edges_from(results, result, shorter);
        if i < before.len() {
            lemma_edges_from(results, result, shorter, i);
            let k = choose|k: int|
                0 <= k < shorter.len() && consumes(results, result, #[trigger] shorter[k])
                    && before[i] == result_edge(result, shorter[k]);
            assert(nodes[k] == shorter[k]);
        } else {
            assert(nodes[nodes.len() - 1] == nodes.last());
        }
    }
}

/// What takes the result of a call takes it of the outermost call in it: of two calls,
/// one around the other, the inner one's result reaches nothing around both.
pub proof fn inner_results_stay_inside(
    results: Seq<DataNodeView>,
    nodes: Seq<DataNodeView>,
    inner: DataNodeView,
    outer: DataNodeView,
    node: DataNodeView,
)
    requires
        results.contains(outer),
        inner.function_id == outer.function_id,
        outer.range.covers(inner.range),
        !outer.range.same_bytes(inner.range),
        node.range.covers(outer.range),
    ensures
        !consumes(results, inner, node),
{
    let i = choose|i: int| 0 <= i < results.len() && results[i] == outer;
    assert(is_between(results[i], inner, node));
}

/// No edge that is kept carries a value over a call.
pub proof fn kept_edges_cross_no_call(
    results: Seq<DataNodeView>,
    nodes: Seq<DataNodeView>,
    edges: Seq<DataFlowEdge>,
    i: int,
)
    requires
        0 <= i < retained_edges(results, nodes, edges).len(),
    ensures
        !crosses_call(results, nodes, retained_edges(results, nodes, edges)[i]),
{
    let keep = |e: DataFlowEdge| !crosses_call(results, nodes, e);
    lemma_kept(edges, keep, i);
}

proof fn lemma_kept<T>(items: Seq<T>, keep: spec_fn(T) -> bool, i: int)
    requires
        0 <= i < items.filter(keep).len(),
    ensures
        keep(items.filter(keep)[i]),
    decreases items.len(),
{
    reveal(Seq::filter);
    if items.len() > 0 {
        let before = items.drop_last().filter(keep);
        if i < before.len() {
            lemma_kept(items.drop_last(), keep, i);
        }
    }
}

/// Every new edge leads from a result to a node that takes it.
pub proof fn new_edges_lead_to_consumers(
    results: Seq<DataNodeView>,
    nodes: Seq<DataNodeView>,
    result: DataNodeView,
    i: int,
)
    requires
        0 <= i < edges_from(results, result, nodes).len(),
    ensures
        exists|k: int|
            0 <= k < nodes.len() && consumes(results, result, #[trigger] nodes[k]) && edges_from(
                results,
                result,
                nodes,
            )[i] == result_edge(result, nodes[k]),
{
    lemma_edges_from(results, result, nodes, i);
}

proof fn lemma_in_order_keeps<T>(rows: Seq<T>, keys: Seq<Seq<u128>>, row: T)
    requires
        rows.contains(row),
    ensures
        in_order(rows, keys).contains(row),
{
    ordered_rows_is_a_permutation(keys, rows.len());
    let order = ordered_rows(keys, rows.len());
    let i = choose|i: int| 0 <= i < rows.len() && rows[i] == row;
    assert(order.contains(i));
    let p = choose|p: int| 0 <= p < order.len() && order[p] == i;
    assert(in_order(rows, keys)[p] == row);
}

proof fn lemma_consumer_has_edge(
    results: Seq<DataNodeView>,
    result: DataNodeView,
    nodes: Seq<DataNodeView>,
    k: int,
)
    requires
        0 <= k < nodes.len(),
        consumes(results, result, nodes[k]),
    ensures
        edges_from(results, result, nodes).contains(result_edge(result, nodes[k])),
    decreases nodes.len(),
{
    let edge = result_edge(result, nodes[k]);
    let before = edges_from(results, result, nodes.drop_last());
    let now = edges_from(results, result, nodes);
    if k == nodes.len() - 1 {
        assert(now[before.len() as int] == edge);
    } else {
        lemma_consumer_has_edge(results, result, nodes.drop_last(), k);
        let i = choose|i: int| 0 <= i < before.len() && before[i] == edge;
        assert(now[i] == edge);
    }
}

proof fn lemma_result_has_edges(
    results: Seq<DataNodeView>,
    nodes: Seq<DataNodeView>,
    count: nat,
    i: int,
    edge: DataFlowEdge,
)
    requires
        0 <= i < count <= results.len(),
        edges_from(results, results[i], nodes).contains(edge),
    ensures
        result_edges(results, nodes, count).contains(edge),
    decreases count,
{
    let before = result_edges(results, nodes, (count - 1) as nat);
    let more = edges_from(results, results[count - 1], nodes);
    let now = result_edges(results, nodes, count);
    if i == count - 1 {
        let k = choose|k: int| 0 <= k < more.len() && more[k] == edge;
        assert(now[before.len() + k] == edge);
    } else {
        lemma_result_has_edges(results, nodes, (count - 1) as nat, i, edge);
        let k = choose|k: int| 0 <= k < before.len() && before[k] == edge;
        assert(now[k] == edge);
    }
}

/// Whether a node is an expression, a returned value, an argument or a receiver around the
/// result of a call in the same function, and no other call around that one is in it.
pub open spec fn takes_result(
    results: Seq<DataNodeView>,
    result: DataNodeView,
    node: DataNodeView,
) -> bool {
    &&& node.kind == DataNodeKind::Expr || node.kind == DataNodeKind::Return || node.kind
        == DataNodeKind::CallArg || node.kind == DataNodeKind::Receiver
    &&& node.function_id == result.function_id
    &&& node.range.covers(result.range)
    &&& forall|j: int|
        0 <= j < results.len() && (#[trigger] results[j]).function_id == result.function_id
            && results[j].range.covers(result.range) && node.range.covers(results[j].range)
            ==> results[j].range.same_bytes(result.range)
}

/// The result of a call reaches all that takes it: an expression, an argument or a receiver
/// by a read, a returned value as what is returned.
pub proof fn a_call_result_reaches_what_takes_it(
    recorded: Seq<DataNodeView>,
    nodes: Seq<DataNodeView>,
    edges: Seq<DataFlowEdge>,
    result: DataNodeView,
    node: DataNodeView,
)
    requires
        all_results(recorded, nodes).contains(result),
        nodes.contains(node),
        takes_result(all_results(recorded, nodes), result, node),
    ensures
        connected_edges(recorded, nodes, edges).contains(
            DataFlowEdge::made(
                result.id,
                node.id,
                if node.kind == DataNodeKind::Return {
                    DataFlowKind::ReturnValue
                } else {
                    DataFlowKind::Read
                },
                node.range,
                85,
            ),
        ),
{
    let results = all_results(recorded, nodes);
    let rest = operands(nodes);
    let keep = |n: DataNodeView| n.kind != DataNodeKind::CallReturn;
    let n = choose|n: int| 0 <= n < nodes.len() && nodes[n] == node;
    nodes.lemma_filter_contains(keep, n);
    let k = choose|k: int| 0 <= k < rest.len() && rest[k] == node;
    let i = choose|i: int| 0 <= i < results.len() && results[i] == result;
    let edge = result_edge(result, node);
    assert(consumes(results, result, rest[k])) by {
        assert forall|j: int| 0 <= j < results.len() implies !is_between(
            #[trigger] results[j],
            result,
            node,
        ) by {}
    }
    lemma_consumer_has_edge(results, result, rest, k);
    lemma_result_has_edges(results, rest, results.len(), i, edge);
    let retained = retained_edges(results, rest, edges);
    let fresh = result_edges(results, rest, results.len());
    let all = retained + fresh;
    let m = choose|m: int| 0 <= m < fresh.len() && fresh[m] == edge;
    assert(all[retained.len() + m] == edge);
    lemma_in_order_keeps(all, edge_keys(all), edge);
}

/// Edges that are neither reads nor returns are kept.
pub proof fn other_edges_are_kept(
    recorded: Seq<DataNodeView>,
    nodes: Seq<DataNodeView>,
    edges: Seq<DataFlowEdge>,
    edge: DataFlowEdge,
)
    requires
        edges.contains(edge),
        edge.kind != DataFlowKind::Read,
        edge.kind != DataFlowKind::ReturnValue,
    ensures
        connected_edges(recorded, nodes, edges).contains(edge),
{
    let results = all_results(recorded, nodes);
    let rest = operands(nodes);
    let keep = |e: DataFlowEdge| !crosses_call(results, rest, e);
    let n = choose|n: int| 0 <= n < edges.len() && edges[n] == edge;
    edges.lemma_filter_contains(keep, n);
    let retained = retained_edges(results, rest, edges);
    let all = retained + result_edges(results, rest, results.len());
    let m = choose|m: int| 0 <= m < retained.len() && retained[m] == edge;
    assert(all[m] == edge);
    lemma_in_order_keeps(all, edge_keys(all), edge);
}

/// A read or a return that carries a part of a call to what is around the call, in the same
/// function, is not kept: the value comes by the result of the call.
pub proof fn no_value_goes_around_its_call(
    results: Seq<DataNodeView>,
    nodes: Seq<DataNodeView>,
    edges: Seq<DataFlowEdge>,
    edge: DataFlowEdge,
    source: DataNodeView,
    target: DataNodeView,
    result: DataNodeView,
)
    requires
        edge.kind == DataFlowKind::Read || edge.kind == DataFlowKind::ReturnValue,
        node_with(nodes, edge.source) == Some(source),
        node_with(nodes, edge.target) == Some(target),
        source.function_id == target.function_id,
        results.contains(result),
        result.function_id == source.function_id,
        result.range.covers(source.range),
        target.range.covers(result.range),
    ensures
        !retained_edges(results, nodes, edges).contains(edge),
{
    let i = choose|i: int| 0 <= i < results.len() && results[i] == result;
    assert(stands_between(results[i], source, target));
    let keep = |e: DataFlowEdge| !crosses_call(results, nodes, e);
    let kept = retained_edges(results, nodes, edges);
    if kept.contains(edge) {
        let k = choose|k: int| 0 <= k < kept.len() && kept[k] == edge;
        edges.lemma_filter_pred(keep, k);
    }
}

proof fn lemma_value_call_is_recorded(
    file: FileId,
    text: Seq<u8>,
    calls: Seq<Callsite>,
    value_calls: Seq<CallsiteId>,
    windows: Option<Seq<(u32, u32)>>,
    i: int,
)
    requires
        0 <= i < calls.len(),
        value_calls.contains(calls[i].id),
        is_in_window(windows, calls[i].range),
    ensures
        recorded_results(file, text, calls, value_calls, windows).contains(
            recorded_result(file, text, calls[i]),
        ),
    decreases calls.len(),
{
    let before = recorded_results(file, text, calls.drop_last(), value_calls, windows);
    let now = recorded_results(file, text, calls, value_calls, windows);
    let result = recorded_result(file, text, calls[i]);
    if i == calls.len() - 1 {
        assert(now[before.len() as int] == result);
    } else {
        lemma_value_call_is_recorded(file, text, calls.drop_last(), value_calls, windows, i);
        let k = choose|k: int| 0 <= k < before.len() && before[k] == result;
        assert(now[k] == result);
    }
}

/// Every call that gives a value has a result: where no windows are set or one of them holds
/// the call, a node for its result stands in the function of the caller, at the range of the
/// call and with its identity.
pub proof fn every_value_call_has_a_result(
    file: FileId,
    text: Seq<u8>,
    calls: Seq<Callsite>,
    value_calls: Seq<CallsiteId>,
    windows: Option<Seq<(u32, u32)>>,
    nodes: Seq<DataNodeView>,
    i: int,
)
    requires
        0 <= i < calls.len(),
        value_calls.contains(calls[i].id),
        windows is None || exists|w: int|
            0 <= w < windows->0.len() && (#[trigger] windows->0[w]).0 <= calls[i].range.start_byte
                && calls[i].range.end_byte <= windows->0[w].1,
    ensures
        ({
            let recorded = recorded_results(file, text, calls, value_calls, windows);
            exists|k: int|
                {
                    &&& 0 <= k < connected_nodes(recorded, nodes).len()
                    &&& (#[trigger] connected_nodes(recorded, nodes)[k]).kind
                        == DataNodeKind::CallReturn
                    &&& connected_nodes(recorded, nodes)[k].file_id == file
                    &&& connected_nodes(recorded, nodes)[k].function_id == Some(calls[i].caller)
                    &&& connected_nodes(recorded, nodes)[k].callsite_id == Some(calls[i].id)
                    &&& connected_nodes(recorded, nodes)[k].range == calls[i].range
                }
        }),
{
    let recorded = recorded_results(file, text, calls, value_calls, windows);
    let result = recorded_result(file, text, calls[i]);
    if windows is Some {
        let w = choose|w: int|
            0 <= w < windows->0.len() && (#[trigger] windows->0[w]).0 <= calls[i].range.start_byte
                && calls[i].range.end_byte <= windows->0[w].1;
        assert(is_in(windows->0[w], calls[i].range));
    }
    lemma_value_call_is_recorded(file, text, calls, value_calls, windows, i);
    let results = all_results(recorded, nodes);
    let r = choose|r: int| 0 <= r < recorded.len() && recorded[r] == result;
    assert(results[r] == result);
    lemma_in_order_keeps(results, result_keys(results), result);
    let sorted = in_order(results, result_keys(results));
    let s = choose|s: int| 0 <= s < sorted.len() && sorted[s] == result;
    let k = operands(nodes).len() + s;
    assert(connected_nodes(recorded, nodes)[k] == result);
}

/// Every node that is no result stays, and so does a result that no recorded call stands for.
pub proof fn every_other_node_stays(
    recorded: Seq<DataNodeView>,
    nodes: Seq<DataNodeView>,
    node: DataNodeView,
)
    requires
        nodes.contains(node),
        node.kind != DataNodeKind::CallReturn || forall|i: int|
            0 <= i < recorded.len() ==> (#[trigger] recorded[i]).function_id != node.function_id
                || !recorded[i].range.same_bytes(node.range),
    ensures
        connected_nodes(recorded, nodes).contains(node),
{
    let n = choose|n: int| 0 <= n < nodes.len() && nodes[n] == node;
    let rest = operands(nodes);
    let results = all_results(recorded, nodes);
    let sorted = in_order(results, result_keys(results));
    let now = connected_nodes(recorded, nodes);
    if node.kind != DataNodeKind::CallReturn {
        nodes.lemma_filter_contains(|n: DataNodeView| n.kind != DataNodeKind::CallReturn, n);
        let k = choose|k: int| 0 <= k < rest.len() && rest[k] == node;
        assert(now[k] == node);
    } else {
        let keep = |n: DataNodeView| is_opaque(recorded, n);
        assert(keep(node));
        nodes.lemma_filter_contains(keep, n);
        let opaque_results = nodes.filter(keep);
        let o = choose|o: int| 0 <= o < opaque_results.len() && opaque_results[o] == node;
        assert(results[recorded.len() + o] == node);
        lemma_in_order_keeps(results, result_keys(results), node);
        let s = choose|s: int| 0 <= s < sorted.len() && sorted[s] == node;
        assert(now[rest.len() + s] == node);
    }
}

} // verus!
