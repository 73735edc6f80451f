//! What holds of every result of the reaching-definition computation: its edges join the
//! definitions and uses of one variable, each once and where control comes, every definition
//! that lies open on a path to a use has an edge to it, and more work changes nothing of a
//! result that is complete.

use crate::collections::{in_order, ordered_rows_is_a_permutation};
use crate::facts::{
    CfgEdge, CfgEdgeKind, CfgNode, CfgNodeKind, CfgResult, DataFlowEdge, DataFlowKind, DataNode, DataNodeKind,
    TextRange,
};
use crate::ids::{DataFlowEdgeId, DataNodeId};
use crate::reaching_defs::{
    budget_view, connect_all, defines, diagnostics_of, enter_rows, entry_rows, first_key, goes_on,
    group_keys, group_nodes, holds_node, is_behind_end, is_definite, is_trail, joined_rows, lemma_group_holds, lemma_with_id, lies_open,
    note_view, ordered_groups, ordered_ids, owner_rows, place_all, place_at, places_before, preparation_work, prepared_with, read_places,
    resolve_group, resolve_groups, resolve_read, resolve_reads, row_of, rows_after, rows_before, scan_writes, shortest, statement_len, taken_at, taken_up,
    use_def, uses, variable_of, walk_back, walk_finds_what_lies_open, with_id, with_ids,
    with_nodes, write_of, writes_at, Notice, Placement, Prepared, UseDefInputs, UseDefState, Variable,
    Write,
};
use vstd::prelude::*;
use vstd::string::StringSliceAdditionalSpecFns;

verus! {

/// Whether an identity is that of one of some nodes.
pub open spec fn is_among(nodes: Seq<DataNode>, id: DataNodeId) -> bool {
    exists|k: int| 0 <= k < nodes.len() && (#[trigger] nodes[k]).id == id
}

/// Whether an edge leads from a definition to a use of the same variable, and control
/// comes to where both stand.
pub open spec fn joins_one_variable(inputs: UseDefInputs, edge: DataFlowEdge) -> bool {
    exists|d: int, u: int|
        {
            &&& 0 <= d < inputs.nodes.len()
            &&& 0 <= u < inputs.nodes.len()
            &&& (#[trigger] inputs.nodes[d]).id == edge.source
            &&& (#[trigger] inputs.nodes[u]).id == edge.target
            &&& defines(inputs.nodes[d].kind)
            &&& uses(inputs.nodes[u].kind)
            &&& inputs.keys[d] is Some
            &&& inputs.keys[d] == inputs.keys[u]
            &&& !is_behind_end(inputs.cfg, inputs.nodes[d])
            &&& !is_behind_end(inputs.cfg, inputs.nodes[u])
        }
}

proof fn lemma_in_order_member<T>(rows: Seq<T>, keys: Seq<Seq<u128>>, i: int)
    requires
        0 <= i < in_order(rows, keys).len(),
    ensures
        exists|k: int| 0 <= k < rows.len() && #[trigger] rows[k] == in_order(rows, keys)[i],
{
    ordered_rows_is_a_permutation(keys, rows.len());
    let k = crate::collections::ordered_rows(keys, rows.len())[i];
    assert(rows[k] == in_order(rows, keys)[i]);
}

proof fn lemma_taken_is_written(
    read: DataNode,
    first: Seq<(DataNodeId, DataNodeId)>,
    entries: Seq<Write>,
    cutoff: u32,
    normal: bool,
    id: DataNodeId,
)
    requires
        taken_up(read, first, entries, cutoff, normal).0.contains(id),
    ensures
        exists|k: int| 0 <= k < entries.len() && (#[trigger] entries[k]).id == id,
    decreases entries.len(),
{
    if entries.len() > 0 {
        let rest = entries.drop_first();
        if entries[0].id == id {
        } else {
            lemma_taken_is_written(read, first, rest, cutoff, normal, id);
            let k = choose|k: int| 0 <= k < rest.len() && (#[trigger] rest[k]).id == id;
            assert(entries[k + 1].id == id);
        }
    }
}

/// Whether all writes are those of definitions.
spec fn all_writes_among(writes: Seq<Write>, nodes: Seq<DataNode>) -> bool {
    forall|i: int| 0 <= i < writes.len() ==> is_among(nodes, (#[trigger] writes[i]).id)
}

/// Whether all identities are those of definitions.
spec fn all_among(ids: Seq<DataNodeId>, nodes: Seq<DataNode>) -> bool {
    forall|i: int| 0 <= i < ids.len() ==> is_among(nodes, #[trigger] ids[i])
}

proof fn lemma_with_ids_among(ids: Seq<DataNodeId>, more: Seq<DataNodeId>, nodes: Seq<DataNode>)
    requires
        all_among(ids, nodes),
        all_among(more, nodes),
    ensures
        all_among(with_ids(ids, more), nodes),
    decreases more.len(),
{
    if more.len() > 0 {
        assert(all_among(more.drop_last(), nodes)) by {
            assert forall|i: int| 0 <= i < more.drop_last().len() implies is_among(
                nodes,
                #[trigger] more.drop_last()[i],
            ) by {
                assert(is_among(nodes, more[i]));
            }
        }
        lemma_with_ids_among(ids, more.drop_last(), nodes);
        assert(is_among(nodes, more[more.len() - 1]));
    }
}

proof fn lemma_with_nodes_among(ids: Seq<DataNodeId>, more: Seq<DataNode>, nodes: Seq<DataNode>)
    requires
        all_among(ids, nodes),
        forall|i: int| 0 <= i < more.len() ==> is_among(nodes, (#[trigger] more[i]).id),
    ensures
        all_among(with_nodes(ids, more), nodes),
    decreases more.len(),
{
    if more.len() > 0 {
        let fewer = more.drop_last();
        assert forall|i: int| 0 <= i < fewer.len() implies is_among(
            nodes,
            (#[trigger] fewer[i]).id,
        ) by {
            assert(is_among(nodes, more[i].id));
        }
        lemma_with_nodes_among(ids, fewer, nodes);
        assert(is_among(nodes, more[more.len() - 1].id));
    }
}

proof fn lemma_walk_among(
    cfg: CfgResult,
    entered: Set<usize>,
    first: Seq<(DataNodeId, DataNodeId)>,
    writes: Seq<Write>,
    read: DataNode,
    places: Seq<(usize, u32, bool)>,
    begun: Seq<DataNodeId>,
    work: nat,
    nodes: Seq<DataNode>,
)
    requires
        all_writes_among(writes, nodes),
        all_among(begun, nodes),
        walk_back(
            cfg,
            entered,
            first,
            writes,
            read,
            places,
            Seq::empty(),
            begun,
            work,
        ) is Some,
    ensures
        all_among(
            walk_back(
                cfg,
                entered,
                first,
                writes,
                read,
                places,
                Seq::empty(),
                begun,
                work,
            ).unwrap().0,
            nodes,
        ),
{
    let found = walk_back(
        cfg,
        entered,
        first,
        writes,
        read,
        places,
        Seq::empty(),
        begun,
        work,
    ).unwrap().0;
    assert forall|i: int| 0 <= i < found.len() implies is_among(nodes, #[trigger] found[i]) by {
        let id = found[i];
        walk_finds_what_lies_open(cfg, entered, first, writes, read, places, begun, work, id);
        assert(found.contains(id));
        if begun.contains(id) {
            let k = choose|k: int| 0 <= k < begun.len() && begun[k] == id;
            assert(is_among(nodes, begun[k]));
        } else {
            assert(lies_open(cfg, entered, first, writes, read, places, id));
            let trail = choose|trail: Seq<(usize, u32, bool)>| #[trigger]
                is_trail(cfg, entered, first, writes, read, places, trail) && taken_at(
                    first,
                    writes,
                    read,
                    trail.last(),
                ).0.contains(id);
            let place = trail.last();
            let here = writes_at(writes, place.0);
            lemma_taken_is_written(read, first, here, place.1, place.2, id);
            let k = choose|k: int| 0 <= k < here.len() && (#[trigger] here[k]).id == id;
            let kept = writes.filter(|w: Write| w.row == place.0);
            lemma_in_order_member(
                kept,
                kept.map_values(|w: Write| crate::reaching_defs::write_key(w)),
                k,
            );
            let m = choose|m: int| 0 <= m < kept.len() && #[trigger] kept[m] == here[k];
            writes.lemma_filter_contains_rev(|w: Write| w.row == place.0, kept[m]);
            let n = choose|n: int| 0 <= n < writes.len() && writes[n] == kept[m];
            assert(is_among(nodes, writes[n].id));
        }
    }
}

proof fn lemma_place_at_among(
    inputs: UseDefInputs,
    prepared: Prepared,
    variable: Variable,
    placement: Placement,
    node: DataNode,
    rows: Seq<usize>,
)
    requires
        is_among(variable.definitions, node.id),
        all_writes_among(placement.writes, variable.definitions),
    ensures
        all_writes_among(
            place_at(inputs, prepared, variable, placement, node, rows).writes,
            variable.definitions,
        ),
        place_at(inputs, prepared, variable, placement, node, rows).unplaced == placement.unplaced,
        place_at(inputs, prepared, variable, placement, node, rows).state.edges
            == placement.state.edges,
    decreases rows.len(),
{
    if rows.len() > 0 {
        lemma_place_at_among(inputs, prepared, variable, placement, node, rows.drop_last());
    }
}

proof fn lemma_place_all_among(
    inputs: UseDefInputs,
    prepared: Prepared,
    variable: Variable,
    state: UseDefState,
    count: nat,
)
    requires
        count <= variable.definitions.len(),
    ensures
        ({
            let placement = place_all(inputs, prepared, variable, state, count);
            &&& all_writes_among(placement.writes, variable.definitions)
            &&& all_among(placement.unplaced, variable.definitions)
            &&& placement.state.edges == state.edges
        }),
    decreases count,
{
    if count > 0 {
        let before = place_all(inputs, prepared, variable, state, (count - 1) as nat);
        lemma_place_all_among(inputs, prepared, variable, state, (count - 1) as nat);
        let node = variable.definitions[count - 1];
        assert(is_among(variable.definitions, node.id));
        let paid = before.state.spend(
            crate::reaching_defs::at_least_one(variable.rows.len(), 0),
        );
        if !before.state.exhausted && !paid.exhausted {
            let owners = owner_rows(inputs.cfg, variable.rows, node);
            if owners.len() > 0 {
                lemma_place_at_among(
                    inputs,
                    prepared,
                    variable,
                    Placement { state: paid, ..before },
                    node,
                    owners,
                );
            }
        }
    }
}

/// Whether the edges of a later state are those of an earlier one and such that join one
/// variable.
spec fn grows_by_joins(inputs: UseDefInputs, before: UseDefState, after: UseDefState) -> bool {
    forall|i: int|
        0 <= i < after.edges.len() ==> before.edges.contains(#[trigger] after.edges[i])
            || joins_one_variable(inputs, after.edges[i])
}

proof fn lemma_connect_all_joins(
    inputs: UseDefInputs,
    state: UseDefState,
    ids: Seq<DataNodeId>,
    read: DataNode,
)
    requires
        forall|i: int|
            0 <= i < ids.len() ==> #[trigger] joins_one_variable(
                inputs,
                DataFlowEdge::made(ids[i], read.id, DataFlowKind::Assign, read.range, 85),
            ),
    ensures
        grows_by_joins(inputs, state, connect_all(state, ids, read)),
    decreases ids.len(),
{
    if ids.len() > 0 {
        let fewer = ids.drop_last();
        assert forall|i: int| 0 <= i < fewer.len() implies #[trigger] joins_one_variable(
            inputs,
            DataFlowEdge::made(fewer[i], read.id, DataFlowKind::Assign, read.range, 85),
        ) by {
            assert(joins_one_variable(
                inputs,
                DataFlowEdge::made(ids[i], read.id, DataFlowKind::Assign, read.range, 85),
            ));
        }
        lemma_connect_all_joins(inputs, state, fewer, read);
        assert(joins_one_variable(
            inputs,
            DataFlowEdge::made(
                ids[ids.len() - 1],
                read.id,
                DataFlowKind::Assign,
                read.range,
                85,
            ),
        ));
    } else {
        assert forall|i: int| 0 <= i < state.edges.len() implies state.edges.contains(
            #[trigger] state.edges[i],
        ) by {}
    }
}

/// Whether a node is one of those of a variable.
spec fn is_of_variable(inputs: UseDefInputs, key: u64, node: DataNode) -> bool {
    exists|k: int|
        0 <= k < inputs.nodes.len() && inputs.keys[k] == Some(key) && #[trigger] inputs.nodes[k]
            == node && !is_behind_end(inputs.cfg, node)
}

/// Whether some nodes are all those of a variable.
spec fn all_of_variable(inputs: UseDefInputs, key: u64, nodes: Seq<DataNode>) -> bool {
    forall|i: int| 0 <= i < nodes.len() ==> is_of_variable(inputs, key, #[trigger] nodes[i])
}

proof fn lemma_group_of_variable(inputs: UseDefInputs, key: u64, count: nat)
    requires
        count <= inputs.nodes.len(),
    ensures
        all_of_variable(inputs, key, group_nodes(inputs, key, count)),
    decreases count,
{
    if count > 0 {
        lemma_group_of_variable(inputs, key, (count - 1) as nat);
        let nodes = group_nodes(inputs, key, count);
        let before = group_nodes(inputs, key, (count - 1) as nat);
        assert forall|i: int| 0 <= i < nodes.len() implies is_of_variable(
            inputs,
            key,
            #[trigger] nodes[i],
        ) by {
            if i < before.len() {
                assert(is_of_variable(inputs, key, before[i]));
            } else {
                assert(inputs.nodes[count - 1] == nodes[i]);
            }
        }
    }
}

proof fn lemma_filtered_of_variable(
    inputs: UseDefInputs,
    key: u64,
    nodes: Seq<DataNode>,
    keep: spec_fn(DataNode) -> bool,
)
    requires
        all_of_variable(inputs, key, nodes),
    ensures
        all_of_variable(inputs, key, nodes.filter(keep)),
        forall|i: int|
            0 <= i < nodes.filter(keep).len() ==> keep(#[trigger] nodes.filter(keep)[i]),
{
    let kept = nodes.filter(keep);
    assert forall|i: int| 0 <= i < kept.len() implies keep(#[trigger] kept[i]) by {
        nodes.lemma_filter_pred(keep, i);
    }
    assert forall|i: int| 0 <= i < kept.len() implies is_of_variable(
        inputs,
        key,
        #[trigger] kept[i],
    ) by {
        assert(kept.contains(kept[i]));
        nodes.lemma_filter_contains_rev(keep, kept[i]);
        let n = choose|n: int| 0 <= n < nodes.len() && nodes[n] == kept[i];
        assert(is_of_variable(inputs, key, nodes[n]));
    }
}

proof fn lemma_read_joins(
    inputs: UseDefInputs,
    prepared: Prepared,
    variable: Variable,
    placement: Placement,
    state: UseDefState,
    read: DataNode,
    key: u64,
)
    requires
        all_of_variable(inputs, key, variable.definitions),
        forall|i: int|
            0 <= i < variable.definitions.len() ==> defines(
                (#[trigger] variable.definitions[i]).kind,
            ),
        all_writes_among(placement.writes, variable.definitions),
        all_among(placement.unplaced, variable.definitions),
        uses(read.kind),
        is_of_variable(inputs, key, read),
    ensures
        grows_by_joins(
            inputs,
            state,
            resolve_read(
                inputs,
                prepared,
                variable,
                placement.writes,
                placement.unplaced,
                state,
                read,
            ),
        ),
{
    let paid = state.spend(
        crate::reaching_defs::at_least_one(variable.rows.len(), variable.definitions.len()),
    );
    let owners = owner_rows(inputs.cfg, variable.rows, read);
    assert forall|i: int| 0 <= i < state.edges.len() implies state.edges.contains(
        #[trigger] state.edges[i],
    ) by {}
    if paid.exhausted || (owners.len() == 0 && read.kind
        == crate::facts::DataNodeKind::ParameterOutput) {
    } else {
        let placeless = with_ids(Seq::empty(), placement.unplaced);
        lemma_with_ids_among(Seq::empty(), placement.unplaced, variable.definitions);
        let (begun, noted) = if owners.len() == 0 {
            (
                with_nodes(placeless, variable.definitions),
                paid.note(read.range, Notice::UseUnplaced),
            )
        } else {
            (placeless, paid)
        };
        assert forall|i: int| 0 <= i < variable.definitions.len() implies is_among(
            variable.definitions,
            (#[trigger] variable.definitions[i]).id,
        ) by {}
        lemma_with_nodes_among(placeless, variable.definitions, variable.definitions);
        let places = read_places(prepared.entered, owners, read);
        let walked = walk_back(
            inputs.cfg,
            prepared.entered,
            prepared.first,
            placement.writes,
            read,
            places,
            Seq::empty(),
            begun,
            noted.work,
        );
        if walked is Some {
            lemma_walk_among(
                inputs.cfg,
                prepared.entered,
                prepared.first,
                placement.writes,
                read,
                places,
                begun,
                noted.work,
                variable.definitions,
            );
            let (reaching, left) = walked.unwrap();
            let ids = ordered_ids(reaching);
            assert forall|i: int| 0 <= i < ids.len() implies #[trigger] joins_one_variable(
                inputs,
                DataFlowEdge::made(ids[i], read.id, DataFlowKind::Assign, read.range, 85),
            ) by {
                let edge = DataFlowEdge::made(
                    ids[i],
                    read.id,
                    DataFlowKind::Assign,
                    read.range,
                    85,
                );
                lemma_in_order_member(
                    reaching,
                    reaching.map_values(|id: DataNodeId| seq![id.0.hi, id.0.lo]),
                    i,
                );
                let m = choose|m: int| 0 <= m < reaching.len() && #[trigger] reaching[m] == ids[i];
                assert(is_among(variable.definitions, reaching[m]));
                let k = choose|k: int|
                    0 <= k < variable.definitions.len() && (#[trigger] variable.definitions[k]).id
                        == reaching[m];
                assert(is_of_variable(inputs, key, variable.definitions[k]));
                let d = choose|d: int|
                    0 <= d < inputs.nodes.len() && inputs.keys[d] == Some(key)
                        && #[trigger] inputs.nodes[d] == variable.definitions[k];
                let u = choose|u: int|
                    0 <= u < inputs.nodes.len() && inputs.keys[u] == Some(key)
                        && #[trigger] inputs.nodes[u] == read;
                assert(inputs.nodes[d].id == edge.source && inputs.nodes[u].id == edge.target);
            }
            lemma_connect_all_joins(
                inputs,
                UseDefState { work: left, ..noted },
                ids,
                read,
            );
        }
    }
}

proof fn lemma_joins_add_up(
    inputs: UseDefInputs,
    first: UseDefState,
    second: UseDefState,
    third: UseDefState,
)
    requires
        grows_by_joins(inputs, first, second),
        grows_by_joins(inputs, second, third),
    ensures
        grows_by_joins(inputs, first, third),
{
    assert forall|i: int| 0 <= i < third.edges.len() implies first.edges.contains(
        #[trigger] third.edges[i],
    ) || joins_one_variable(inputs, third.edges[i]) by {
        if second.edges.contains(third.edges[i]) {
            let k = choose|k: int| 0 <= k < second.edges.len() && second.edges[k]
                == third.edges[i];
            assert(first.edges.contains(second.edges[k]) || joins_one_variable(
                inputs,
                second.edges[k],
            ));
        }
    }
}

proof fn lemma_reads_join(
    inputs: UseDefInputs,
    prepared: Prepared,
    variable: Variable,
    placement: Placement,
    reads: Seq<DataNode>,
    key: u64,
)
    requires
        all_of_variable(inputs, key, variable.definitions),
        forall|i: int|
            0 <= i < variable.definitions.len() ==> defines(
                (#[trigger] variable.definitions[i]).kind,
            ),
        all_writes_among(placement.writes, variable.definitions),
        all_among(placement.unplaced, variable.definitions),
        all_of_variable(inputs, key, reads),
        forall|i: int| 0 <= i < reads.len() ==> uses((#[trigger] reads[i]).kind),
    ensures
        grows_by_joins(
            inputs,
            placement.state,
            resolve_reads(inputs, prepared, variable, placement, reads),
        ),
    decreases reads.len(),
{
    if reads.len() > 0 {
        let fewer = reads.drop_last();
        let read = reads[reads.len() - 1];
        assert forall|i: int| 0 <= i < fewer.len() implies uses((#[trigger] fewer[i]).kind) by {
            assert(uses(reads[i].kind));
        }
        assert forall|i: int| 0 <= i < fewer.len() implies is_of_variable(
            inputs,
            key,
            #[trigger] fewer[i],
        ) by {
            assert(is_of_variable(inputs, key, reads[i]));
        }
        assert(is_of_variable(inputs, key, reads[reads.len() - 1]));
        lemma_reads_join(inputs, prepared, variable, placement, fewer, key);
        let before = resolve_reads(inputs, prepared, variable, placement, fewer);
        if !before.exhausted {
            lemma_read_joins(inputs, prepared, variable, placement, before, read, key);
            lemma_joins_add_up(
                inputs,
                placement.state,
                before,
                resolve_reads(inputs, prepared, variable, placement, reads),
            );
        }
    } else {
        assert forall|i: int| 0 <= i < placement.state.edges.len() implies
            placement.state.edges.contains(#[trigger] placement.state.edges[i]) by {}
    }
}

proof fn lemma_groups_join(
    inputs: UseDefInputs,
    prepared: Prepared,
    state: UseDefState,
    groups: Seq<u64>,
)
    ensures
        grows_by_joins(inputs, state, resolve_groups(inputs, prepared, state, groups)),
    decreases groups.len(),
{
    assert forall|i: int| 0 <= i < state.edges.len() implies state.edges.contains(
        #[trigger] state.edges[i],
    ) by {}
    if groups.len() > 0 {
        lemma_groups_join(inputs, prepared, state, groups.drop_last());
        let before = resolve_groups(inputs, prepared, state, groups.drop_last());
        if !before.exhausted {
            let key = groups.last();
            let nodes = group_nodes(inputs, key, inputs.nodes.len());
            lemma_group_of_variable(inputs, key, inputs.nodes.len());
            let variable = variable_of(inputs, nodes);
            let is_definition = |n: DataNode| defines(n.kind);
            let is_use = |n: DataNode| uses(n.kind);
            lemma_filtered_of_variable(inputs, key, nodes, is_definition);
            lemma_filtered_of_variable(inputs, key, nodes, is_use);
            let reads = nodes.filter(is_use);
            assert(variable.definitions == nodes.filter(is_definition));
            assert forall|i: int| 0 <= i < variable.definitions.len() implies defines(
                (#[trigger] variable.definitions[i]).kind,
            ) by {
                assert(is_definition(nodes.filter(is_definition)[i]));
            }
            assert forall|i: int| 0 <= i < reads.len() implies uses((#[trigger] reads[i]).kind) by {
                assert(is_use(nodes.filter(is_use)[i]));
            }
            let after = resolve_group(inputs, prepared, before, nodes);
            assert forall|i: int| 0 <= i < before.edges.len() implies before.edges.contains(
                #[trigger] before.edges[i],
            ) by {}
            if variable.definitions.len() > 0 && reads.len() > 0 {
                lemma_place_all_among(
                    inputs,
                    prepared,
                    variable,
                    before,
                    variable.definitions.len(),
                );
                let placement = place_all(
                    inputs,
                    prepared,
                    variable,
                    before,
                    variable.definitions.len(),
                );
                if !placement.state.exhausted {
                    lemma_reads_join(inputs, prepared, variable, placement, reads, key);
                }
            }
            assert(grows_by_joins(inputs, before, after));
            lemma_joins_add_up(inputs, state, before, after);
        }
    }
}

/// A definition reaches only uses of the variable that it defines: every edge of a result
/// leads from a definition to a use with the same key. Neither stands behind the end of a
/// path.
pub proof fn edges_join_one_variable(inputs: UseDefInputs, work: nat, i: int)
    requires
        0 <= i < use_def(inputs, work).edges.len(),
    ensures
        joins_one_variable(inputs, use_def(inputs, work).edges[i]),
{
    let start = UseDefState { edges: Seq::empty(), notes: Seq::empty(), work, exhausted: false };
    if work >= preparation_work(inputs) {
        let rows = enter_rows(
            inputs.cfg,
            entry_rows(inputs.cfg.nodes@),
            Set::empty(),
            (work - preparation_work(inputs)) as nat,
        );
        if rows is Some {
            let (entered, left) = rows.unwrap();
            lemma_groups_join(
                inputs,
                prepared_with(inputs, entered),
                UseDefState { work: left, ..start },
                ordered_groups(inputs),
            );
            assert(!start.edges.contains(use_def(inputs, work).edges[i]));
        }
    }
}

/// Nodes behind the end of a path take no part: where no two nodes have the same
/// identity, no edge of a result starts or ends in one.
pub proof fn no_edge_stands_behind_an_end(inputs: UseDefInputs, work: nat, i: int, k: int)
    requires
        0 <= i < use_def(inputs, work).edges.len(),
        0 <= k < inputs.nodes.len(),
        is_behind_end(inputs.cfg, inputs.nodes[k]),
        forall|a: int, b: int|
            0 <= a < b < inputs.nodes.len() ==> (#[trigger] inputs.nodes[a]).id != (
            #[trigger] inputs.nodes[b]).id,
    ensures
        use_def(inputs, work).edges[i].source != inputs.nodes[k].id,
        use_def(inputs, work).edges[i].target != inputs.nodes[k].id,
{
    edges_join_one_variable(inputs, work, i);
    let edge = use_def(inputs, work).edges[i];
    let (d, u) = choose|d: int, u: int|
        {
            &&& 0 <= d < inputs.nodes.len()
            &&& 0 <= u < inputs.nodes.len()
            &&& (#[trigger] inputs.nodes[d]).id == edge.source
            &&& (#[trigger] inputs.nodes[u]).id == edge.target
            &&& defines(inputs.nodes[d].kind)
            &&& uses(inputs.nodes[u].kind)
            &&& inputs.keys[d] is Some
            &&& inputs.keys[d] == inputs.keys[u]
            &&& !is_behind_end(inputs.cfg, inputs.nodes[d])
            &&& !is_behind_end(inputs.cfg, inputs.nodes[u])
        };
    assert(d != k && u != k);
    if d < k {
        assert(inputs.nodes[d].id != inputs.nodes[k].id);
    } else {
        assert(inputs.nodes[k].id != inputs.nodes[d].id);
    }
    if u < k {
        assert(inputs.nodes[u].id != inputs.nodes[k].id);
    } else {
        assert(inputs.nodes[k].id != inputs.nodes[u].id);
    }
}

/// Whether no two edges have the same identity.
pub open spec fn have_distinct_ids(edges: Seq<DataFlowEdge>) -> bool {
    forall|i: int, j: int|
        0 <= i < j < edges.len() ==> (#[trigger] edges[i]).id != (#[trigger] edges[j]).id
}

proof fn lemma_connect_distinct(state: UseDefState, ids: Seq<DataNodeId>, read: DataNode)
    requires
        have_distinct_ids(state.edges),
    ensures
        have_distinct_ids(connect_all(state, ids, read).edges),
    decreases ids.len(),
{
    if ids.len() > 0 {
        lemma_connect_distinct(state, ids.drop_last(), read);
    }
}

proof fn lemma_read_distinct(
    inputs: UseDefInputs,
    prepared: Prepared,
    variable: Variable,
    placement: Placement,
    state: UseDefState,
    read: DataNode,
)
    requires
        have_distinct_ids(state.edges),
    ensures
        have_distinct_ids(
            resolve_read(
                inputs,
                prepared,
                variable,
                placement.writes,
                placement.unplaced,
                state,
                read,
            ).edges,
        ),
{
    let paid = state.spend(
        crate::reaching_defs::at_least_one(variable.rows.len(), variable.definitions.len()),
    );
    let owners = owner_rows(inputs.cfg, variable.rows, read);
    let placeless = with_ids(Seq::empty(), placement.unplaced);
    let (begun, noted) = if owners.len() == 0 {
        (
            with_nodes(placeless, variable.definitions),
            paid.note(read.range, Notice::UseUnplaced),
        )
    } else {
        (placeless, paid)
    };
    let walked = walk_back(
        inputs.cfg,
        prepared.entered,
        prepared.first,
        placement.writes,
        read,
        read_places(prepared.entered, owners, read),
        Seq::empty(),
        begun,
        noted.work,
    );
    if walked is Some {
        let left = UseDefState { work: walked.unwrap().1, ..noted };
        lemma_connect_distinct(left, ordered_ids(walked.unwrap().0), read);
    }
}

proof fn lemma_reads_distinct(
    inputs: UseDefInputs,
    prepared: Prepared,
    variable: Variable,
    placement: Placement,
    reads: Seq<DataNode>,
)
    requires
        have_distinct_ids(placement.state.edges),
    ensures
        have_distinct_ids(resolve_reads(inputs, prepared, variable, placement, reads).edges),
    decreases reads.len(),
{
    if reads.len() > 0 {
        let fewer = reads.drop_last();
        lemma_reads_distinct(inputs, prepared, variable, placement, fewer);
        let before = resolve_reads(inputs, prepared, variable, placement, fewer);
        lemma_read_distinct(inputs, prepared, variable, placement, before, reads.last());
    }
}

proof fn lemma_groups_distinct(
    inputs: UseDefInputs,
    prepared: Prepared,
    state: UseDefState,
    groups: Seq<u64>,
)
    requires
        have_distinct_ids(state.edges),
    ensures
        have_distinct_ids(resolve_groups(inputs, prepared, state, groups).edges),
    decreases groups.len(),
{
    if groups.len() > 0 {
        lemma_groups_distinct(inputs, prepared, state, groups.drop_last());
        let before = resolve_groups(inputs, prepared, state, groups.drop_last());
        let nodes = group_nodes(inputs, groups.last(), inputs.nodes.len());
        let variable = variable_of(inputs, nodes);
        let count = variable.definitions.len();
        lemma_place_all_among(inputs, prepared, variable, before, count);
        lemma_reads_distinct(
            inputs,
            prepared,
            variable,
            place_all(inputs, prepared, variable, before, count),
            nodes.filter(|n: DataNode| uses(n.kind)),
        );
    }
}

/// The edges of a result have distinct identities: each pair of a definition and a use is
/// recorded once.
pub proof fn edges_have_distinct_ids(inputs: UseDefInputs, work: nat)
    ensures
        have_distinct_ids(use_def(inputs, work).edges),
{
    let start = UseDefState { edges: Seq::empty(), notes: Seq::empty(), work, exhausted: false };
    if work >= preparation_work(inputs) {
        let rows = enter_rows(
            inputs.cfg,
            entry_rows(inputs.cfg.nodes@),
            Set::empty(),
            (work - preparation_work(inputs)) as nat,
        );
        if rows is Some {
            let (entered, left) = rows.unwrap();
            lemma_groups_distinct(
                inputs,
                prepared_with(inputs, entered),
                UseDefState { work: left, ..start },
                ordered_groups(inputs),
            );
        }
    }
}

/// A state with more work left.
pub open spec fn with_more(state: UseDefState, extra: nat) -> UseDefState {
    UseDefState { work: state.work + extra, ..state }
}

proof fn lemma_enter_with_more(
    cfg: CfgResult,
    pending: Seq<usize>,
    entered: Set<usize>,
    work: nat,
    extra: nat,
)
    requires
        enter_rows(cfg, pending, entered, work) is Some,
    ensures
        enter_rows(cfg, pending, entered, work + extra) == Some(
            (
                enter_rows(cfg, pending, entered, work).unwrap().0,
                enter_rows(cfg, pending, entered, work).unwrap().1 + extra,
            ),
        ),
    decreases work,
{
    if pending.len() > 0 {
        let row = pending.last();
        let rest = pending.drop_last();
        let less = (work - 1) as nat;
        assert((work + extra - 1) as nat == less + extra);
        if entered.contains(row) {
            lemma_enter_with_more(cfg, rest, entered, less, extra);
        } else {
            lemma_enter_with_more(
                cfg,
                rest + crate::reaching_defs::rows_after(cfg.nodes@, cfg.edges@, row),
                entered.insert(row),
                less,
                extra,
            );
        }
    }
}

proof fn lemma_scan_with_more(
    read: DataNode,
    first: Seq<(DataNodeId, DataNodeId)>,
    entries: Seq<Write>,
    cutoff: u32,
    normal: bool,
    reaching: Seq<DataNodeId>,
    work: nat,
    extra: nat,
)
    requires
        scan_writes(read, first, entries, cutoff, normal, reaching, work) is Some,
    ensures
        ({
            let found = scan_writes(read, first, entries, cutoff, normal, reaching, work).unwrap();
            scan_writes(read, first, entries, cutoff, normal, reaching, work + extra) == Some(
                (found.0, found.1, found.2 + extra),
            ) && found.2 <= work
        }),
    decreases entries.len(),
{
    if entries.len() > 0 {
        let w = entries[0];
        let rest = entries.drop_first();
        let left = (work - 1) as nat;
        assert((work + extra - 1) as nat == left + extra);
        if cutoff == read.range.start_byte && first.contains((read.id, w.id)) {
            lemma_scan_with_more(read, first, rest, cutoff, normal, reaching, left, extra);
        } else if w.parameter || !w.definite || w.activation <= cutoff {
            if w.definite && normal && !w.parameter {
            } else {
                lemma_scan_with_more(
                    read,
                    first,
                    rest,
                    cutoff,
                    normal,
                    with_id(reaching, w.id),
                    left,
                    extra,
                );
            }
        } else {
            lemma_scan_with_more(read, first, rest, cutoff, normal, reaching, left, extra);
        }
    }
}

proof fn lemma_walk_with_more(
    cfg: CfgResult,
    entered: Set<usize>,
    first: Seq<(DataNodeId, DataNodeId)>,
    writes: Seq<Write>,
    read: DataNode,
    pending: Seq<(usize, u32, bool)>,
    visited: Seq<(usize, u32, bool)>,
    reaching: Seq<DataNodeId>,
    work: nat,
    extra: nat,
)
    requires
        walk_back(cfg, entered, first, writes, read, pending, visited, reaching, work) is Some,
    ensures
        ({
            let found = walk_back(
                cfg,
                entered,
                first,
                writes,
                read,
                pending,
                visited,
                reaching,
                work,
            ).unwrap();
            walk_back(
                cfg,
                entered,
                first,
                writes,
                read,
                pending,
                visited,
                reaching,
                work + extra,
            ) == Some((found.0, found.1 + extra))
        }),
    decreases work, pending.len(),
{
    if pending.len() > 0 {
        let place = pending.last();
        let rest = pending.drop_last();
        if visited.contains(place) {
            lemma_walk_with_more(
                cfg,
                entered,
                first,
                writes,
                read,
                rest,
                visited,
                reaching,
                work,
                extra,
            );
        } else {
            let here = writes_at(writes, place.0);
            let less = (work - 1) as nat;
            assert((work + extra - 1) as nat == less + extra);
            lemma_scan_with_more(read, first, here, place.1, place.2, reaching, less, extra);
            let (more, replaced, left) = scan_writes(
                read,
                first,
                here,
                place.1,
                place.2,
                reaching,
                less,
            ).unwrap();
            lemma_walk_with_more(
                cfg,
                entered,
                first,
                writes,
                read,
                if replaced {
                    rest
                } else {
                    rest + places_before(cfg, entered, place.0)
                },
                visited.push(place),
                more,
                left,
                extra,
            );
        }
    }
}

proof fn lemma_connect_with_more(
    state: UseDefState,
    ids: Seq<DataNodeId>,
    read: DataNode,
    extra: nat,
)
    ensures
        connect_all(with_more(state, extra), ids, read) == with_more(
            connect_all(state, ids, read),
            extra,
        ),
        connect_all(state, ids, read).exhausted == state.exhausted,
    decreases ids.len(),
{
    if ids.len() > 0 {
        lemma_connect_with_more(state, ids.drop_last(), read, extra);
    }
}

proof fn lemma_place_at_with_more(
    inputs: UseDefInputs,
    prepared: Prepared,
    variable: Variable,
    placement: Placement,
    node: DataNode,
    rows: Seq<usize>,
    extra: nat,
)
    ensures
        ({
            let placed = place_at(inputs, prepared, variable, placement, node, rows);
            place_at(
                inputs,
                prepared,
                variable,
                Placement { state: with_more(placement.state, extra), ..placement },
                node,
                rows,
            ) == (Placement { state: with_more(placed.state, extra), ..placed })
                && placed.state.exhausted == placement.state.exhausted
        }),
    decreases rows.len(),
{
    if rows.len() > 0 {
        lemma_place_at_with_more(
            inputs,
            prepared,
            variable,
            placement,
            node,
            rows.drop_last(),
            extra,
        );
    }
}

proof fn lemma_place_all_with_more(
    inputs: UseDefInputs,
    prepared: Prepared,
    variable: Variable,
    state: UseDefState,
    count: nat,
    extra: nat,
)
    requires
        !place_all(inputs, prepared, variable, state, count).state.exhausted,
    ensures
        ({
            let placed = place_all(inputs, prepared, variable, state, count);
            place_all(inputs, prepared, variable, with_more(state, extra), count) == (Placement {
                state: with_more(placed.state, extra),
                ..placed
            })
        }),
    decreases count,
{
    if count > 0 {
        let before = place_all(inputs, prepared, variable, state, (count - 1) as nat);
        lemma_place_all_with_more(inputs, prepared, variable, state, (count - 1) as nat, extra);
        let amount = crate::reaching_defs::at_least_one(variable.rows.len(), 0);
        let paid = before.state.spend(amount);
        assert(with_more(before.state, extra).spend(amount) == with_more(paid, extra));
        let node = variable.definitions[count - 1];
        let owners = owner_rows(inputs.cfg, variable.rows, node);
        if owners.len() > 0 {
            lemma_place_at_with_more(
                inputs,
                prepared,
                variable,
                Placement { state: paid, ..before },
                node,
                owners,
                extra,
            );
        }
    }
}

proof fn lemma_read_with_more(
    inputs: UseDefInputs,
    prepared: Prepared,
    variable: Variable,
    placement: Placement,
    state: UseDefState,
    read: DataNode,
    extra: nat,
)
    requires
        !resolve_read(
            inputs,
            prepared,
            variable,
            placement.writes,
            placement.unplaced,
            state,
            read,
        ).exhausted,
    ensures
        resolve_read(
            inputs,
            prepared,
            variable,
            placement.writes,
            placement.unplaced,
            with_more(state, extra),
            read,
        ) == with_more(
            resolve_read(
                inputs,
                prepared,
                variable,
                placement.writes,
                placement.unplaced,
                state,
                read,
            ),
            extra,
        ),
{
    let amount = crate::reaching_defs::at_least_one(
        variable.rows.len(),
        variable.definitions.len(),
    );
    let paid = state.spend(amount);
    assert(with_more(state, extra).spend(amount) == with_more(paid, extra));
    let owners = owner_rows(inputs.cfg, variable.rows, read);
    if owners.len() == 0 && read.kind == crate::facts::DataNodeKind::ParameterOutput {
    } else {
        let placeless = with_ids(Seq::empty(), placement.unplaced);
        let (begun, noted) = if owners.len() == 0 {
            (
                with_nodes(placeless, variable.definitions),
                paid.note(read.range, Notice::UseUnplaced),
            )
        } else {
            (placeless, paid)
        };
        let places = read_places(prepared.entered, owners, read);
        lemma_walk_with_more(
            inputs.cfg,
            prepared.entered,
            prepared.first,
            placement.writes,
            read,
            places,
            Seq::empty(),
            begun,
            noted.work,
            extra,
        );
        let (reaching, left) = walk_back(
            inputs.cfg,
            prepared.entered,
            prepared.first,
            placement.writes,
            read,
            places,
            Seq::empty(),
            begun,
            noted.work,
        ).unwrap();
        lemma_connect_with_more(
            UseDefState { work: left, ..noted },
            ordered_ids(reaching),
            read,
            extra,
        );
    }
}

proof fn lemma_reads_with_more(
    inputs: UseDefInputs,
    prepared: Prepared,
    variable: Variable,
    placement: Placement,
    reads: Seq<DataNode>,
    extra: nat,
)
    requires
        !resolve_reads(inputs, prepared, variable, placement, reads).exhausted,
    ensures
        resolve_reads(
            inputs,
            prepared,
            variable,
            Placement { state: with_more(placement.state, extra), ..placement },
            reads,
        ) == with_more(resolve_reads(inputs, prepared, variable, placement, reads), extra),
    decreases reads.len(),
{
    if reads.len() > 0 {
        let before = resolve_reads(inputs, prepared, variable, placement, reads.drop_last());
        lemma_reads_with_more(inputs, prepared, variable, placement, reads.drop_last(), extra);
        lemma_read_with_more(
            inputs,
            prepared,
            variable,
            placement,
            before,
            reads.last(),
            extra,
        );
    }
}

proof fn lemma_groups_with_more(
    inputs: UseDefInputs,
    prepared: Prepared,
    state: UseDefState,
    groups: Seq<u64>,
    extra: nat,
)
    requires
        !resolve_groups(inputs, prepared, state, groups).exhausted,
    ensures
        resolve_groups(inputs, prepared, with_more(state, extra), groups) == with_more(
            resolve_groups(inputs, prepared, state, groups),
            extra,
        ),
    decreases groups.len(),
{
    if groups.len() > 0 {
        let before = resolve_groups(inputs, prepared, state, groups.drop_last());
        lemma_groups_with_more(inputs, prepared, state, groups.drop_last(), extra);
        let nodes = group_nodes(inputs, groups.last(), inputs.nodes.len());
        let variable = variable_of(inputs, nodes);
        let reads = nodes.filter(|n: DataNode| uses(n.kind));
        if variable.definitions.len() > 0 && reads.len() > 0 {
            let count = variable.definitions.len();
            let placement = place_all(inputs, prepared, variable, before, count);
            lemma_place_all_with_more(inputs, prepared, variable, before, count, extra);
            lemma_reads_with_more(inputs, prepared, variable, placement, reads, extra);
        }
    }
}

/// Work is a bound and nothing else: where it sufficed, more of it gives the same edges and
/// the same notes, and what is left over is left over.
pub proof fn more_work_finds_the_same(inputs: UseDefInputs, work: nat, extra: nat)
    requires
        !use_def(inputs, work).exhausted,
    ensures
        use_def(inputs, work + extra) == with_more(use_def(inputs, work), extra),
{
    let start = UseDefState { edges: Seq::empty(), notes: Seq::empty(), work, exhausted: false };
    let behind = (work - preparation_work(inputs)) as nat;
    let entries = entry_rows(inputs.cfg.nodes@);
    assert((work + extra - preparation_work(inputs)) as nat == behind + extra);
    lemma_enter_with_more(inputs.cfg, entries, Set::empty(), behind, extra);
    let (entered, left) = enter_rows(inputs.cfg, entries, Set::empty(), behind).unwrap();
    lemma_groups_with_more(
        inputs,
        prepared_with(inputs, entered),
        UseDefState { work: left, ..start },
        ordered_groups(inputs),
        extra,
    );
}

/// Whether what one state holds begins what another holds.
spec fn begins(a: UseDefState, b: UseDefState) -> bool {
    a.edges.is_prefix_of(b.edges) && a.notes.is_prefix_of(b.notes)
}

proof fn lemma_begins_on(a: UseDefState, b: UseDefState, c: UseDefState)
    requires
        begins(a, b),
        begins(b, c),
    ensures
        begins(a, c),
{
    assert(a.edges =~= c.edges.take(a.edges.len() as int));
    assert(a.notes =~= c.notes.take(a.notes.len() as int));
}

proof fn lemma_connect_grows(state: UseDefState, ids: Seq<DataNodeId>, read: DataNode)
    ensures
        begins(state, connect_all(state, ids, read)),
    decreases ids.len(),
{
    if ids.len() > 0 {
        lemma_connect_grows(state, ids.drop_last(), read);
        let before = connect_all(state, ids.drop_last(), read);
        lemma_begins_on(state, before, before.connect(ids.last(), read));
    }
}

proof fn lemma_place_at_grows(
    inputs: UseDefInputs,
    prepared: Prepared,
    variable: Variable,
    placement: Placement,
    node: DataNode,
    rows: Seq<usize>,
)
    ensures
        begins(
            placement.state,
            place_at(inputs, prepared, variable, placement, node, rows).state,
        ),
    decreases rows.len(),
{
    if rows.len() > 0 {
        let fewer = rows.drop_last();
        lemma_place_at_grows(inputs, prepared, variable, placement, node, fewer);
        lemma_begins_on(
            placement.state,
            place_at(inputs, prepared, variable, placement, node, fewer).state,
            place_at(inputs, prepared, variable, placement, node, rows).state,
        );
    }
}

proof fn lemma_place_next_grows(
    inputs: UseDefInputs,
    prepared: Prepared,
    variable: Variable,
    state: UseDefState,
    count: nat,
)
    requires
        count > 0,
    ensures
        begins(
            place_all(inputs, prepared, variable, state, (count - 1) as nat).state,
            place_all(inputs, prepared, variable, state, count).state,
        ),
{
    let before = place_all(inputs, prepared, variable, state, (count - 1) as nat);
    let node = variable.definitions[count - 1];
    let paid = before.state.spend(
        crate::reaching_defs::at_least_one(variable.rows.len(), 0),
    );
    lemma_place_at_grows(
        inputs,
        prepared,
        variable,
        Placement { state: paid, ..before },
        node,
        owner_rows(inputs.cfg, variable.rows, node),
    );
}

proof fn lemma_place_all_grows(
    inputs: UseDefInputs,
    prepared: Prepared,
    variable: Variable,
    state: UseDefState,
    count: nat,
)
    ensures
        begins(state, place_all(inputs, prepared, variable, state, count).state),
    decreases count,
{
    if count > 0 {
        lemma_place_all_grows(inputs, prepared, variable, state, (count - 1) as nat);
        lemma_place_next_grows(inputs, prepared, variable, state, count);
        lemma_begins_on(
            state,
            place_all(inputs, prepared, variable, state, (count - 1) as nat).state,
            place_all(inputs, prepared, variable, state, count).state,
        );
    }
}

/// With more work, what the placement of definitions notes goes on where it stopped.
proof fn lemma_place_all_begins(
    inputs: UseDefInputs,
    prepared: Prepared,
    variable: Variable,
    state: UseDefState,
    count: nat,
    extra: nat,
)
    ensures
        begins(
            place_all(inputs, prepared, variable, state, count).state,
            place_all(inputs, prepared, variable, with_more(state, extra), count).state,
        ),
    decreases count,
{
    if count > 0 {
        let less = (count - 1) as nat;
        let more = with_more(state, extra);
        let before = place_all(inputs, prepared, variable, state, less);
        let after = place_all(inputs, prepared, variable, state, count);
        let longer = place_all(inputs, prepared, variable, more, less);
        lemma_place_next_grows(inputs, prepared, variable, more, count);
        if before.state.exhausted {
            lemma_place_all_begins(inputs, prepared, variable, state, less, extra);
            lemma_begins_on(
                before.state,
                longer.state,
                place_all(inputs, prepared, variable, more, count).state,
            );
        } else if !after.state.exhausted {
            lemma_place_all_with_more(inputs, prepared, variable, state, count, extra);
        } else {
            lemma_place_all_with_more(inputs, prepared, variable, state, less, extra);
            let amount = crate::reaching_defs::at_least_one(variable.rows.len(), 0);
            let paid = before.state.spend(amount);
            let node = variable.definitions[count - 1];
            let owners = owner_rows(inputs.cfg, variable.rows, node);
            lemma_place_at_with_more(
                inputs,
                prepared,
                variable,
                Placement { state: paid, ..before },
                node,
                owners,
                extra,
            );
            assert(after.state.edges == before.state.edges);
            assert(after.state.notes == before.state.notes);
        }
    }
}

proof fn lemma_read_grows(
    inputs: UseDefInputs,
    prepared: Prepared,
    variable: Variable,
    placement: Placement,
    state: UseDefState,
    read: DataNode,
)
    ensures
        begins(
            state,
            resolve_read(
                inputs,
                prepared,
                variable,
                placement.writes,
                placement.unplaced,
                state,
                read,
            ),
        ),
{
    lemma_read_begins(inputs, prepared, variable, placement, state, read, 0);
}

/// With more work, a read goes on where it stopped, and keeps what was found before it.
proof fn lemma_read_begins(
    inputs: UseDefInputs,
    prepared: Prepared,
    variable: Variable,
    placement: Placement,
    state: UseDefState,
    read: DataNode,
    extra: nat,
)
    ensures
        ({
            let less = resolve_read(
                inputs,
                prepared,
                variable,
                placement.writes,
                placement.unplaced,
                state,
                read,
            );
            let more = resolve_read(
                inputs,
                prepared,
                variable,
                placement.writes,
                placement.unplaced,
                with_more(state, extra),
                read,
            );
            begins(state, less) && begins(less, more)
        }),
{
    let amount = crate::reaching_defs::at_least_one(
        variable.rows.len(),
        variable.definitions.len(),
    );
    let richer = with_more(state, extra);
    let paid = state.spend(amount);
    let paid_more = richer.spend(amount);
    let owners = owner_rows(inputs.cfg, variable.rows, read);
    let less = resolve_read(
        inputs,
        prepared,
        variable,
        placement.writes,
        placement.unplaced,
        state,
        read,
    );
    let more = resolve_read(
        inputs,
        prepared,
        variable,
        placement.writes,
        placement.unplaced,
        richer,
        read,
    );
    assert(paid.edges == state.edges && paid.notes == state.notes);
    assert(paid_more.edges == state.edges && paid_more.notes == state.notes);
    let placeless = with_ids(Seq::empty(), placement.unplaced);
    let places = read_places(prepared.entered, owners, read);
    let begun = if owners.len() == 0 {
        with_nodes(placeless, variable.definitions)
    } else {
        placeless
    };
    let noted = if owners.len() == 0 {
        paid.note(read.range, Notice::UseUnplaced)
    } else {
        paid
    };
    let noted_more = if owners.len() == 0 {
        paid_more.note(read.range, Notice::UseUnplaced)
    } else {
        paid_more
    };
    assert(noted.edges == noted_more.edges && noted.notes == noted_more.notes);
    assert(begins(state, noted));
    let walked = walk_back(
        inputs.cfg,
        prepared.entered,
        prepared.first,
        placement.writes,
        read,
        places,
        Seq::empty(),
        begun,
        noted.work,
    );
    let walked_more = walk_back(
        inputs.cfg,
        prepared.entered,
        prepared.first,
        placement.writes,
        read,
        places,
        Seq::empty(),
        begun,
        noted_more.work,
    );
    if walked is Some {
        let left = UseDefState { work: walked.unwrap().1, ..noted };
        lemma_connect_grows(left, ordered_ids(walked.unwrap().0), read);
        lemma_begins_on(state, left, connect_all(left, ordered_ids(walked.unwrap().0), read));
        lemma_connect_with_more(left, ordered_ids(walked.unwrap().0), read, extra);
    }
    if walked_more is Some {
        let left = UseDefState { work: walked_more.unwrap().1, ..noted_more };
        lemma_connect_grows(left, ordered_ids(walked_more.unwrap().0), read);
        lemma_begins_on(
            state,
            left,
            connect_all(left, ordered_ids(walked_more.unwrap().0), read),
        );
    }
    if !less.exhausted {
        lemma_read_with_more(inputs, prepared, variable, placement, state, read, extra);
    }
}

proof fn lemma_reads_grow(
    inputs: UseDefInputs,
    prepared: Prepared,
    variable: Variable,
    placement: Placement,
    reads: Seq<DataNode>,
)
    ensures
        begins(placement.state, resolve_reads(inputs, prepared, variable, placement, reads)),
    decreases reads.len(),
{
    if reads.len() > 0 {
        let fewer = reads.drop_last();
        lemma_reads_grow(inputs, prepared, variable, placement, fewer);
        let before = resolve_reads(inputs, prepared, variable, placement, fewer);
        lemma_read_grows(inputs, prepared, variable, placement, before, reads.last());
        lemma_begins_on(
            placement.state,
            before,
            resolve_reads(inputs, prepared, variable, placement, reads),
        );
    }
}

proof fn lemma_reads_begin(
    inputs: UseDefInputs,
    prepared: Prepared,
    variable: Variable,
    placement: Placement,
    reads: Seq<DataNode>,
    extra: nat,
)
    ensures
        begins(
            resolve_reads(inputs, prepared, variable, placement, reads),
            resolve_reads(
                inputs,
                prepared,
                variable,
                Placement { state: with_more(placement.state, extra), ..placement },
                reads,
            ),
        ),
    decreases reads.len(),
{
    if reads.len() > 0 {
        let fewer = reads.drop_last();
        let richer = Placement { state: with_more(placement.state, extra), ..placement };
        let before = resolve_reads(inputs, prepared, variable, placement, fewer);
        let longer = resolve_reads(inputs, prepared, variable, richer, fewer);
        lemma_reads_begin(inputs, prepared, variable, placement, fewer, extra);
        if before.exhausted {
            lemma_read_grows(inputs, prepared, variable, richer, longer, reads.last());
            lemma_begins_on(
                before,
                longer,
                resolve_reads(inputs, prepared, variable, richer, reads),
            );
        } else {
            lemma_reads_with_more(inputs, prepared, variable, placement, fewer, extra);
            lemma_read_begins(
                inputs,
                prepared,
                variable,
                placement,
                before,
                reads.last(),
                extra,
            );
        }
    }
}

proof fn lemma_group_begins(
    inputs: UseDefInputs,
    prepared: Prepared,
    state: UseDefState,
    nodes: Seq<DataNode>,
    extra: nat,
)
    ensures
        begins(state, resolve_group(inputs, prepared, state, nodes)),
        begins(
            resolve_group(inputs, prepared, state, nodes),
            resolve_group(inputs, prepared, with_more(state, extra), nodes),
        ),
{
    let variable = variable_of(inputs, nodes);
    let reads = nodes.filter(|n: DataNode| uses(n.kind));
    if variable.definitions.len() > 0 && reads.len() > 0 {
        let count = variable.definitions.len();
        let richer = with_more(state, extra);
        let placement = place_all(inputs, prepared, variable, state, count);
        let longer = place_all(inputs, prepared, variable, richer, count);
        lemma_place_all_grows(inputs, prepared, variable, state, count);
        lemma_place_all_begins(inputs, prepared, variable, state, count, extra);
        lemma_reads_grow(inputs, prepared, variable, placement, reads);
        lemma_reads_grow(inputs, prepared, variable, longer, reads);
        lemma_begins_on(
            state,
            placement.state,
            resolve_reads(inputs, prepared, variable, placement, reads),
        );
        lemma_begins_on(
            placement.state,
            longer.state,
            resolve_reads(inputs, prepared, variable, longer, reads),
        );
        if !placement.state.exhausted {
            lemma_place_all_with_more(inputs, prepared, variable, state, count, extra);
            lemma_reads_begin(inputs, prepared, variable, placement, reads, extra);
        }
    }
}

proof fn lemma_groups_begin(
    inputs: UseDefInputs,
    prepared: Prepared,
    state: UseDefState,
    groups: Seq<u64>,
    extra: nat,
)
    ensures
        begins(
            resolve_groups(inputs, prepared, state, groups),
            resolve_groups(inputs, prepared, with_more(state, extra), groups),
        ),
    decreases groups.len(),
{
    if groups.len() > 0 {
        let fewer = groups.drop_last();
        let richer = with_more(state, extra);
        let before = resolve_groups(inputs, prepared, state, fewer);
        let longer = resolve_groups(inputs, prepared, richer, fewer);
        let nodes = group_nodes(inputs, groups.last(), inputs.nodes.len());
        lemma_groups_begin(inputs, prepared, state, fewer, extra);
        if before.exhausted {
            lemma_group_begins(inputs, prepared, longer, nodes, 0);
            lemma_begins_on(before, longer, resolve_groups(inputs, prepared, richer, groups));
        } else {
            lemma_groups_with_more(inputs, prepared, state, fewer, extra);
            lemma_group_begins(inputs, prepared, before, nodes, extra);
        }
    }
}

/// What is found with less work begins what is found with more: the edges and the notes
/// stand in the same order, and work that runs out cuts them off.
pub proof fn less_work_finds_a_beginning(inputs: UseDefInputs, less: nat, more: nat)
    requires
        less <= more,
    ensures
        use_def(inputs, less).edges.is_prefix_of(use_def(inputs, more).edges),
        use_def(inputs, less).notes.is_prefix_of(use_def(inputs, more).notes),
        !use_def(inputs, less).exhausted ==> use_def(inputs, less).edges == use_def(
            inputs,
            more,
        ).edges && diagnostics_of(use_def(inputs, less)) == diagnostics_of(use_def(inputs, more))
            && !use_def(inputs, more).exhausted,
{
    let extra = (more - less) as nat;
    if !use_def(inputs, less).exhausted {
        more_work_finds_the_same(inputs, less, extra);
    }
    if less >= preparation_work(inputs) {
        let start = UseDefState {
            edges: Seq::empty(),
            notes: Seq::empty(),
            work: less,
            exhausted: false,
        };
        let behind = (less - preparation_work(inputs)) as nat;
        let entries = entry_rows(inputs.cfg.nodes@);
        assert((more - preparation_work(inputs)) as nat == behind + extra);
        match enter_rows(inputs.cfg, entries, Set::empty(), behind) {
            None => {},
            Some((entered, left)) => {
                lemma_enter_with_more(inputs.cfg, entries, Set::empty(), behind, extra);
                lemma_groups_begin(
                    inputs,
                    prepared_with(inputs, entered),
                    UseDefState { work: left, ..start },
                    ordered_groups(inputs),
                    extra,
                );
            },
        }
    }
}

/// A result is cut off if and only if it says so: the report that the work did not
/// suffice is among its diagnostics.
pub proof fn exhaustion_is_reported(inputs: UseDefInputs, work: nat)
    ensures
        use_def(inputs, work).exhausted <==> diagnostics_of(use_def(inputs, work)).contains(
            budget_view(),
        ),
{
    let state = use_def(inputs, work);
    let all = diagnostics_of(state);
    if state.exhausted {
        assert(all[all.len() - 1] == budget_view());
    } else if all.contains(budget_view()) {
        let i = choose|i: int| 0 <= i < all.len() && all[i] == budget_view();
        assert(all[i] == note_view(state.notes[i]));
    }
}

/// Whether the edge from a definition to a use, which is named by its ends, is recorded.
pub open spec fn holds_edge(state: UseDefState, definition: DataNodeId, read: DataNode) -> bool {
    exists|i: int|
        0 <= i < state.edges.len() && (#[trigger] state.edges[i]).id == DataFlowEdgeId::generated(
            definition,
            read.id,
            DataFlowKind::Assign.name().spec_bytes(),
        )
}

/// Whether something is noted about a range.
pub open spec fn holds_note(state: UseDefState, range: TextRange) -> bool {
    exists|i: int| 0 <= i < state.notes.len() && (#[trigger] state.notes[i]).0.same_bytes(range)
}

proof fn lemma_keeps_edge(a: UseDefState, b: UseDefState, definition: DataNodeId, read: DataNode)
    requires
        begins(a, b),
        holds_edge(a, definition, read),
    ensures
        holds_edge(b, definition, read),
{
    let i = choose|i: int|
        0 <= i < a.edges.len() && (#[trigger] a.edges[i]).id == DataFlowEdgeId::generated(
            definition,
            read.id,
            DataFlowKind::Assign.name().spec_bytes(),
        );
    assert(b.edges[i] == a.edges[i]);
}

proof fn lemma_keeps_note(a: UseDefState, b: UseDefState, range: TextRange)
    requires
        begins(a, b),
        holds_note(a, range),
    ensures
        holds_note(b, range),
{
    let i = choose|i: int|
        0 <= i < a.notes.len() && (#[trigger] a.notes[i]).0.same_bytes(range);
    assert(b.notes[i] == a.notes[i]);
}

/// The writes of the first definitions of a variable, each at all its rows.
pub open spec fn written(
    inputs: UseDefInputs,
    prepared: Prepared,
    variable: Variable,
    count: nat,
) -> Seq<Write>
    decreases count,
{
    if count == 0 {
        Seq::empty()
    } else {
        let node = variable.definitions[count - 1];
        written(inputs, prepared, variable, (count - 1) as nat) + owner_rows(
            inputs.cfg,
            variable.rows,
            node,
        ).map_values(|row: usize| write_of(inputs, prepared, variable, node, row))
    }
}

/// Whether a definition of a variable may reach a use of it: the definition or the use
/// belongs to no row, so that nothing tells them apart, or the definition lies open on a
/// path to the use.
pub open spec fn may_reach(
    inputs: UseDefInputs,
    prepared: Prepared,
    variable: Variable,
    definition: DataNode,
    read: DataNode,
) -> bool {
    let owners = owner_rows(inputs.cfg, variable.rows, read);
    ||| owner_rows(inputs.cfg, variable.rows, definition).len() == 0 && owners.len() > 0
    ||| owners.len() == 0 && read.kind != DataNodeKind::ParameterOutput
    ||| lies_open(
        inputs.cfg,
        prepared.entered,
        prepared.first,
        written(inputs, prepared, variable, variable.definitions.len()),
        read,
        read_places(prepared.entered, owners, read),
        definition.id,
    )
}

proof fn lemma_placed_at(
    inputs: UseDefInputs,
    prepared: Prepared,
    variable: Variable,
    placement: Placement,
    node: DataNode,
    rows: Seq<usize>,
)
    ensures
        ({
            let placed = place_at(inputs, prepared, variable, placement, node, rows);
            &&& placed.writes =~= placement.writes + rows.map_values(
                |row: usize| write_of(inputs, prepared, variable, node, row),
            )
            &&& placed.unplaced == placement.unplaced
        }),
    decreases rows.len(),
{
    if rows.len() > 0 {
        let fewer = rows.drop_last();
        lemma_placed_at(inputs, prepared, variable, placement, node, fewer);
    }
}

proof fn lemma_placed(
    inputs: UseDefInputs,
    prepared: Prepared,
    variable: Variable,
    state: UseDefState,
    count: nat,
)
    requires
        count <= variable.definitions.len(),
        !place_all(inputs, prepared, variable, state, count).state.exhausted,
    ensures
        ({
            let placed = place_all(inputs, prepared, variable, state, count);
            &&& placed.writes == written(inputs, prepared, variable, count)
            &&& forall|k: int|
                0 <= k < count && owner_rows(
                    inputs.cfg,
                    variable.rows,
                    variable.definitions[k],
                ).len() == 0 ==> placed.unplaced.contains(
                    (#[trigger] variable.definitions[k]).id,
                )
        }),
    decreases count,
{
    if count > 0 {
        let before = place_all(inputs, prepared, variable, state, (count - 1) as nat);
        let placed = place_all(inputs, prepared, variable, state, count);
        if !before.state.exhausted {
            lemma_placed(inputs, prepared, variable, state, (count - 1) as nat);
            let node = variable.definitions[count - 1];
            let paid = before.state.spend(
                crate::reaching_defs::at_least_one(variable.rows.len(), 0),
            );
            let owners = owner_rows(inputs.cfg, variable.rows, node);
            if owners.len() == 0 {
                assert(placed.unplaced[before.unplaced.len() as int] == node.id);
                assert(placed.writes =~= written(inputs, prepared, variable, count));
            } else {
                lemma_placed_at(
                    inputs,
                    prepared,
                    variable,
                    Placement { state: paid, ..before },
                    node,
                    owners,
                );
            }
            assert forall|k: int|
                0 <= k < count && owner_rows(
                    inputs.cfg,
                    variable.rows,
                    variable.definitions[k],
                ).len() == 0 implies placed.unplaced.contains(
                (#[trigger] variable.definitions[k]).id,
            ) by {
                if k < count - 1 {
                    let id = variable.definitions[k].id;
                    assert(before.unplaced.contains(id));
                    let j = choose|j: int|
                        0 <= j < before.unplaced.len() && before.unplaced[j] == id;
                    assert(placed.unplaced[j] == id);
                }
            }
        }
    }
}

proof fn lemma_with_ids_holds(ids: Seq<DataNodeId>, more: Seq<DataNodeId>, id: DataNodeId)
    requires
        ids.contains(id) || more.contains(id),
    ensures
        with_ids(ids, more).contains(id),
    decreases more.len(),
{
    if more.len() > 0 {
        let fewer = more.drop_last();
        lemma_with_id(with_ids(ids, fewer), more.last());
        if more.last() != id {
            if !ids.contains(id) {
                let k = choose|k: int| 0 <= k < more.len() && more[k] == id;
                assert(fewer[k] == id);
            }
            lemma_with_ids_holds(ids, fewer, id);
        }
    }
}

proof fn lemma_with_nodes_holds(ids: Seq<DataNodeId>, more: Seq<DataNode>, id: DataNodeId)
    requires
        ids.contains(id) || is_among(more, id),
    ensures
        with_nodes(ids, more).contains(id),
    decreases more.len(),
{
    if more.len() > 0 {
        let fewer = more.drop_last();
        lemma_with_id(with_nodes(ids, fewer), more.last().id);
        if more.last().id != id {
            if !ids.contains(id) {
                let k = choose|k: int| 0 <= k < more.len() && (#[trigger] more[k]).id == id;
                assert(fewer[k].id == id);
            }
            lemma_with_nodes_holds(ids, fewer, id);
        }
    }
}

proof fn lemma_in_order_keeps<T>(rows: Seq<T>, keys: Seq<Seq<u128>>, row: T)
    requires
        rows.contains(row),
    ensures
        in_order(rows, keys).contains(row),
{
    ordered_rows_is_a_permutation(keys, rows.len());
    let order = crate::collections::ordered_rows(keys, rows.len());
    let i = choose|i: int| 0 <= i < rows.len() && rows[i] == row;
    assert(order.contains(i));
    let p = choose|p: int| 0 <= p < order.len() && order[p] == i;
    assert(in_order(rows, keys)[p] == row);
}

proof fn lemma_connected(
    state: UseDefState,
    ids: Seq<DataNodeId>,
    read: DataNode,
    id: DataNodeId,
)
    requires
        ids.contains(id),
    ensures
        holds_edge(connect_all(state, ids, read), id, read),
    decreases ids.len(),
{
    let fewer = ids.drop_last();
    let before = connect_all(state, fewer, read);
    let after = connect_all(state, ids, read);
    if ids.last() == id {
        let edge = DataFlowEdge::made(id, read.id, DataFlowKind::Assign, read.range, 85);
        if !exists|i: int|
            0 <= i < before.edges.len() && (#[trigger] before.edges[i]).id == edge.id {
            assert(after.edges[before.edges.len() as int] == edge);
        }
    } else {
        let k = choose|k: int| 0 <= k < ids.len() && ids[k] == id;
        assert(fewer[k] == id);
        lemma_connected(state, fewer, read, id);
        lemma_keeps_edge(before, after, id, read);
    }
}

proof fn lemma_noted(state: UseDefState, range: TextRange, notice: Notice)
    ensures
        holds_note(state.note(range, notice), range),
{
    let after = state.note(range, notice);
    if after != state {
        assert(after.notes[state.notes.len() as int].0.same_bytes(range));
    }
}

/// A read that is resolved gets an edge from every definition that may reach it, and a note
/// where it belongs to no row.
proof fn lemma_read_finds(
    inputs: UseDefInputs,
    prepared: Prepared,
    variable: Variable,
    placement: Placement,
    state: UseDefState,
    read: DataNode,
    d: int,
)
    requires
        0 <= d < variable.definitions.len(),
        placement.writes == written(
            inputs,
            prepared,
            variable,
            variable.definitions.len(),
        ),
        owner_rows(inputs.cfg, variable.rows, variable.definitions[d]).len() == 0
            ==> placement.unplaced.contains(variable.definitions[d].id),
    ensures
        ({
            let after = resolve_read(
                inputs,
                prepared,
                variable,
                placement.writes,
                placement.unplaced,
                state,
                read,
            );
            &&& !after.exhausted && may_reach(
                inputs,
                prepared,
                variable,
                variable.definitions[d],
                read,
            ) ==> holds_edge(after, variable.definitions[d].id, read)
            &&& !after.exhausted && owner_rows(inputs.cfg, variable.rows, read).len() == 0
                ==> holds_note(after, read.range)
        }),
{
    let after = resolve_read(
        inputs,
        prepared,
        variable,
        placement.writes,
        placement.unplaced,
        state,
        read,
    );
    let id = variable.definitions[d].id;
    let paid = state.spend(
        crate::reaching_defs::at_least_one(variable.rows.len(), variable.definitions.len()),
    );
    let owners = owner_rows(inputs.cfg, variable.rows, read);
    let places = read_places(prepared.entered, owners, read);
    if owners.len() == 0 {
        let keep = |row: usize| prepared.entered.contains(row);
        assert(owners.filter(keep).len() == 0) by {
            reveal(Seq::filter);
        }
        assert(places.len() == 0);
    }
    if after.exhausted {
    } else if owners.len() == 0 && read.kind == DataNodeKind::ParameterOutput {
        lemma_noted(paid, read.range, Notice::OutputUnplaced);
        if may_reach(inputs, prepared, variable, variable.definitions[d], read) {
            let trail = choose|trail: Seq<(usize, u32, bool)>| #[trigger]
                is_trail(
                    inputs.cfg,
                    prepared.entered,
                    prepared.first,
                    placement.writes,
                    read,
                    places,
                    trail,
                ) && taken_at(prepared.first, placement.writes, read, trail.last()).0.contains(id);
            assert(places.contains(trail[0]));
        }
    } else {
        let placeless = with_ids(Seq::empty(), placement.unplaced);
        let (begun, noted) = if owners.len() == 0 {
            (
                with_nodes(placeless, variable.definitions),
                paid.note(read.range, Notice::UseUnplaced),
            )
        } else {
            (placeless, paid)
        };
        let walked = walk_back(
            inputs.cfg,
            prepared.entered,
            prepared.first,
            placement.writes,
            read,
            places,
            Seq::empty(),
            begun,
            noted.work,
        );
        assert(walked is Some);
        let (reaching, left) = walked.unwrap();
        let ids = ordered_ids(reaching);
        let begin = UseDefState { work: left, ..noted };
        assert(after == connect_all(begin, ids, read));
        lemma_connect_grows(begin, ids, read);
        if owners.len() == 0 {
            lemma_noted(paid, read.range, Notice::UseUnplaced);
            assert(holds_note(begin, read.range));
            lemma_keeps_note(begin, after, read.range);
        }
        if may_reach(inputs, prepared, variable, variable.definitions[d], read) {
            walk_finds_what_lies_open(
                inputs.cfg,
                prepared.entered,
                prepared.first,
                placement.writes,
                read,
                places,
                begun,
                noted.work,
                id,
            );
            if owners.len() == 0 {
                assert(is_among(variable.definitions, id));
                lemma_with_nodes_holds(placeless, variable.definitions, id);
            } else if placement.unplaced.contains(id) {
                lemma_with_ids_holds(Seq::empty(), placement.unplaced, id);
            }
            assert(reaching.contains(id));
            lemma_in_order_keeps(
                reaching,
                reaching.map_values(|id: DataNodeId| seq![id.0.hi, id.0.lo]),
                id,
            );
            lemma_connected(begin, ids, read, id);
        }
    }
}

proof fn lemma_reads_find(
    inputs: UseDefInputs,
    prepared: Prepared,
    variable: Variable,
    placement: Placement,
    reads: Seq<DataNode>,
    read: DataNode,
    d: int,
)
    requires
        0 <= d < variable.definitions.len(),
        placement.writes == written(
            inputs,
            prepared,
            variable,
            variable.definitions.len(),
        ),
        owner_rows(inputs.cfg, variable.rows, variable.definitions[d]).len() == 0
            ==> placement.unplaced.contains(variable.definitions[d].id),
        reads.contains(read),
    ensures
        ({
            let after = resolve_reads(inputs, prepared, variable, placement, reads);
            &&& !after.exhausted && may_reach(
                inputs,
                prepared,
                variable,
                variable.definitions[d],
                read,
            ) ==> holds_edge(after, variable.definitions[d].id, read)
            &&& !after.exhausted && owner_rows(inputs.cfg, variable.rows, read).len() == 0
                ==> holds_note(after, read.range)
        }),
    decreases reads.len(),
{
    let fewer = reads.drop_last();
    let before = resolve_reads(inputs, prepared, variable, placement, fewer);
    let after = resolve_reads(inputs, prepared, variable, placement, reads);
    let id = variable.definitions[d].id;
    if before.exhausted {
    } else if reads.last() == read {
        lemma_read_finds(inputs, prepared, variable, placement, before, read, d);
    } else {
        let k = choose|k: int| 0 <= k < reads.len() && reads[k] == read;
        assert(fewer[k] == read);
        lemma_reads_find(inputs, prepared, variable, placement, fewer, read, d);
        lemma_read_grows(inputs, prepared, variable, placement, before, reads.last());
        if holds_edge(before, id, read) {
            lemma_keeps_edge(before, after, id, read);
        }
        if holds_note(before, read.range) {
            lemma_keeps_note(before, after, read.range);
        }
    }
}

proof fn lemma_groups_find(
    inputs: UseDefInputs,
    prepared: Prepared,
    state: UseDefState,
    groups: Seq<u64>,
    key: u64,
    definition: DataNode,
    read: DataNode,
)
    requires
        groups.contains(key),
        group_nodes(inputs, key, inputs.nodes.len()).contains(definition),
        group_nodes(inputs, key, inputs.nodes.len()).contains(read),
        defines(definition.kind),
        uses(read.kind),
    ensures
        ({
            let after = resolve_groups(inputs, prepared, state, groups);
            let variable = variable_of(inputs, group_nodes(inputs, key, inputs.nodes.len()));
            &&& !after.exhausted && may_reach(inputs, prepared, variable, definition, read)
                ==> holds_edge(after, definition.id, read)
            &&& !after.exhausted && owner_rows(inputs.cfg, variable.rows, read).len() == 0
                ==> holds_note(after, read.range)
        }),
    decreases groups.len(),
{
    let fewer = groups.drop_last();
    let before = resolve_groups(inputs, prepared, state, fewer);
    let after = resolve_groups(inputs, prepared, state, groups);
    let nodes = group_nodes(inputs, key, inputs.nodes.len());
    if before.exhausted {
    } else if groups.last() == key {
        let variable = variable_of(inputs, nodes);
        let is_definition = |n: DataNode| defines(n.kind);
        let is_use = |n: DataNode| uses(n.kind);
        let reads = nodes.filter(is_use);
        let i = choose|i: int| 0 <= i < nodes.len() && nodes[i] == definition;
        let j = choose|j: int| 0 <= j < nodes.len() && nodes[j] == read;
        nodes.lemma_filter_contains(is_definition, i);
        nodes.lemma_filter_contains(is_use, j);
        assert(variable.definitions == nodes.filter(is_definition));
        let d = choose|d: int|
            0 <= d < variable.definitions.len() && variable.definitions[d] == definition;
        let placement = place_all(
            inputs,
            prepared,
            variable,
            before,
            variable.definitions.len(),
        );
        if !placement.state.exhausted {
            lemma_placed(inputs, prepared, variable, before, variable.definitions.len());
            assert(owner_rows(inputs.cfg, variable.rows, variable.definitions[d]).len() == 0
                ==> placement.unplaced.contains(variable.definitions[d].id));
            lemma_reads_find(inputs, prepared, variable, placement, reads, read, d);
        }
    } else {
        let k = choose|k: int| 0 <= k < groups.len() && groups[k] == key;
        assert(fewer[k] == key);
        lemma_groups_find(inputs, prepared, state, fewer, key, definition, read);
        lemma_group_begins(
            inputs,
            prepared,
            before,
            group_nodes(inputs, groups.last(), inputs.nodes.len()),
            0,
        );
        if holds_edge(before, definition.id, read) {
            lemma_keeps_edge(before, after, definition.id, read);
        }
        if holds_note(before, read.range) {
            lemma_keeps_note(before, after, read.range);
        }
    }
}

proof fn lemma_in_group(inputs: UseDefInputs, key: u64, count: nat, i: int)
    requires
        0 <= i < count <= inputs.nodes.len(),
        inputs.keys[i] == Some(key),
        !is_behind_end(inputs.cfg, inputs.nodes[i]),
    ensures
        group_nodes(inputs, key, count).contains(inputs.nodes[i]),
    decreases count,
{
    let before = group_nodes(inputs, key, (count - 1) as nat);
    let now = group_nodes(inputs, key, count);
    if i == count - 1 {
        assert(now[before.len() as int] == inputs.nodes[i]);
    } else {
        lemma_in_group(inputs, key, (count - 1) as nat, i);
        let k = choose|k: int| 0 <= k < before.len() && before[k] == inputs.nodes[i];
        assert(now[k] == inputs.nodes[i]);
    }
}

/// Whether a node can define a variable and another can use it, and both are of one variable
/// and stand where control comes.
pub open spec fn are_definition_and_use(inputs: UseDefInputs, key: u64, d: int, u: int) -> bool {
    &&& 0 <= d < inputs.nodes.len()
    &&& 0 <= u < inputs.nodes.len()
    &&& inputs.keys[d] == Some(key)
    &&& inputs.keys[u] == Some(key)
    &&& !is_behind_end(inputs.cfg, inputs.nodes[d])
    &&& !is_behind_end(inputs.cfg, inputs.nodes[u])
    &&& (inputs.nodes[d].kind == DataNodeKind::Local || inputs.nodes[d].kind
        == DataNodeKind::Parameter || inputs.nodes[d].kind == DataNodeKind::CallOutput)
    &&& (inputs.nodes[u].kind == DataNodeKind::VariableUse || inputs.nodes[u].kind
        == DataNodeKind::ParameterOutput || inputs.nodes[u].kind == DataNodeKind::Receiver
        || inputs.nodes[u].kind == DataNodeKind::Expr || inputs.nodes[u].kind
        == DataNodeKind::CallArg || inputs.nodes[u].kind == DataNodeKind::Return)
}

/// The rows of the function of a variable.
pub open spec fn rows_of(inputs: UseDefInputs, key: u64) -> Seq<usize> {
    variable_of(inputs, group_nodes(inputs, key, inputs.nodes.len())).rows
}

/// Every definition that may reach a use is found: a local, a parameter or the output of a
/// call that lies open on a path to a use of the same variable, be it a variable, the output
/// of a parameter, a receiver, an expression, an argument or a returned value, has an edge to
/// it, unless the work did not suffice.
pub proof fn an_open_definition_has_an_edge_to_its_use(
    inputs: UseDefInputs,
    work: nat,
    key: u64,
    d: int,
    u: int,
    entered: Set<usize>,
    left: nat,
)
    requires
        are_definition_and_use(inputs, key, d, u),
        work >= preparation_work(inputs),
        enter_rows(
            inputs.cfg,
            entry_rows(inputs.cfg.nodes@),
            Set::empty(),
            (work - preparation_work(inputs)) as nat,
        ) == Some((entered, left)),
        may_reach(
            inputs,
            prepared_with(inputs, entered),
            variable_of(inputs, group_nodes(inputs, key, inputs.nodes.len())),
            inputs.nodes[d],
            inputs.nodes[u],
        ),
    ensures
        use_def(inputs, work).exhausted || holds_edge(
            use_def(inputs, work),
            inputs.nodes[d].id,
            inputs.nodes[u],
        ),
{
    lemma_found(inputs, work, key, d, u, entered, left);
}

/// A use that belongs to no row of its function is noted, unless the work did not suffice.
pub proof fn a_use_without_a_row_is_noted(
    inputs: UseDefInputs,
    work: nat,
    key: u64,
    d: int,
    u: int,
)
    requires
        are_definition_and_use(inputs, key, d, u),
        owner_rows(inputs.cfg, rows_of(inputs, key), inputs.nodes[u]).len() == 0,
    ensures
        use_def(inputs, work).exhausted || holds_note(
            use_def(inputs, work),
            inputs.nodes[u].range,
        ),
{
    if work >= preparation_work(inputs) {
        match enter_rows(
            inputs.cfg,
            entry_rows(inputs.cfg.nodes@),
            Set::empty(),
            (work - preparation_work(inputs)) as nat,
        ) {
            None => {},
            Some((entered, left)) => {
                lemma_found(inputs, work, key, d, u, entered, left);
            },
        }
    }
}

proof fn lemma_found(
    inputs: UseDefInputs,
    work: nat,
    key: u64,
    d: int,
    u: int,
    entered: Set<usize>,
    left: nat,
)
    requires
        are_definition_and_use(inputs, key, d, u),
        work >= preparation_work(inputs),
        enter_rows(
            inputs.cfg,
            entry_rows(inputs.cfg.nodes@),
            Set::empty(),
            (work - preparation_work(inputs)) as nat,
        ) == Some((entered, left)),
    ensures
        ({
            let after = use_def(inputs, work);
            let variable = variable_of(inputs, group_nodes(inputs, key, inputs.nodes.len()));
            let (definition, read) = (inputs.nodes[d], inputs.nodes[u]);
            &&& !after.exhausted && may_reach(
                inputs,
                prepared_with(inputs, entered),
                variable,
                definition,
                read,
            ) ==> holds_edge(after, definition.id, read)
            &&& !after.exhausted && owner_rows(inputs.cfg, variable.rows, read).len() == 0
                ==> holds_note(after, read.range)
        }),
{
    let count = inputs.nodes.len();
    let start = UseDefState { edges: Seq::empty(), notes: Seq::empty(), work, exhausted: false };
    lemma_in_group(inputs, key, count, d);
    lemma_in_group(inputs, key, count, u);
    lemma_group_holds(inputs, key, count);
    let keys = group_keys(inputs, count);
    lemma_in_order_keeps(
        keys,
        keys.map_values(|key: u64| first_key(group_nodes(inputs, key, inputs.nodes.len()))),
        key,
    );
    lemma_groups_find(
        inputs,
        prepared_with(inputs, entered),
        UseDefState { work: left, ..start },
        ordered_groups(inputs),
        key,
        inputs.nodes[d],
        inputs.nodes[u],
    );
}

/// Whether a row of the control flow comes after another in a function.
pub open spec fn comes_after(cfg: CfgResult, from: usize, to: usize) -> bool {
    exists|j: int|
        {
            &&& 0 <= j < cfg.edges@.len()
            &&& row_of(cfg.nodes@, (#[trigger] cfg.edges@[j]).source) == Some(from)
            &&& row_of(cfg.nodes@, cfg.edges@[j].target) == Some(to)
            &&& cfg.nodes@[from as int].function_id == cfg.nodes@[to as int].function_id
        }
}

/// Whether rows follow one another from the entry of a function on.
pub open spec fn is_way_from_entry(cfg: CfgResult, way: Seq<usize>) -> bool {
    &&& way.len() > 0
    &&& way[0] < cfg.nodes@.len()
    &&& cfg.nodes@[way[0] as int].kind == CfgNodeKind::Entry
    &&& forall|i: int| 0 < i < way.len() ==> comes_after(cfg, way[i - 1], #[trigger] way[i])
}

proof fn lemma_row_after(nodes: Seq<CfgNode>, edges: Seq<CfgEdge>, j: int)
    requires
        0 <= j < edges.len(),
        joined_rows(nodes, edges[j]) is Some,
    ensures
        ({
            let (from, to, normal) = joined_rows(nodes, edges[j]).unwrap();
            &&& rows_after(nodes, edges, from).contains(to)
            &&& rows_before(nodes, edges, to).contains((from, normal))
        }),
    decreases edges.len(),
{
    let (from, to, normal) = joined_rows(nodes, edges[j]).unwrap();
    let fewer = edges.drop_last();
    let after = rows_after(nodes, fewer, from);
    let before = rows_before(nodes, fewer, to);
    if j == edges.len() - 1 {
        assert(rows_after(nodes, edges, from)[after.len() as int] == to);
        assert(rows_before(nodes, edges, to)[before.len() as int] == (from, normal));
    } else {
        assert(fewer[j] == edges[j]);
        lemma_row_after(nodes, fewer, j);
        let a = choose|a: int| 0 <= a < after.len() && after[a] == to;
        let b = choose|b: int| 0 <= b < before.len() && before[b] == (from, normal);
        assert(rows_after(nodes, edges, from)[a] == to);
        assert(rows_before(nodes, edges, to)[b] == (from, normal));
    }
}

proof fn lemma_entry_row(nodes: Seq<CfgNode>, row: usize)
    requires
        row < nodes.len(),
        nodes[row as int].kind == CfgNodeKind::Entry,
    ensures
        entry_rows(nodes).contains(row),
    decreases nodes.len(),
{
    let fewer = nodes.drop_last();
    let before = entry_rows(fewer);
    if row == nodes.len() - 1 {
        assert(entry_rows(nodes)[before.len() as int] == row);
    } else {
        assert(fewer[row as int] == nodes[row as int]);
        lemma_entry_row(fewer, row);
        let k = choose|k: int| 0 <= k < before.len() && before[k] == row;
        assert(entry_rows(nodes)[k] == row);
    }
}

/// Whether every row that comes after one of a set is in it or pending.
spec fn is_closed(cfg: CfgResult, rows: Set<usize>, pending: Seq<usize>) -> bool {
    forall|from: usize, to: usize|
        rows.contains(from) && #[trigger] rows_after(cfg.nodes@, cfg.edges@, from).contains(to)
            ==> rows.contains(to) || pending.contains(to)
}

proof fn lemma_entered_is_closed(
    cfg: CfgResult,
    pending: Seq<usize>,
    entered: Set<usize>,
    work: nat,
)
    requires
        enter_rows(cfg, pending, entered, work) is Some,
        is_closed(cfg, entered, pending),
    ensures
        ({
            let (all, _) = enter_rows(cfg, pending, entered, work).unwrap();
            &&& entered.subset_of(all)
            &&& forall|row: usize| pending.contains(row) ==> #[trigger] all.contains(row)
            &&& is_closed(cfg, all, Seq::empty())
        }),
    decreases work,
{
    if pending.len() > 0 {
        let row = pending.last();
        let rest = pending.drop_last();
        let more = if entered.contains(row) {
            rest
        } else {
            rest + rows_after(cfg.nodes@, cfg.edges@, row)
        };
        let now = entered.insert(row);
        assert(entered.contains(row) ==> now =~= entered);
        assert forall|other: usize| pending.contains(other) implies now.contains(other)
            || #[trigger] more.contains(other) by {
            let k = choose|k: int| 0 <= k < pending.len() && pending[k] == other;
            if k < rest.len() {
                assert(more[k] == other);
            }
        }
        assert forall|from: usize, to: usize|
            now.contains(from) && #[trigger] rows_after(cfg.nodes@, cfg.edges@, from).contains(
                to,
            ) implies now.contains(to) || more.contains(to) by {
            if entered.contains(from) {
                assert(entered.contains(to) || pending.contains(to));
            } else {
                let after = rows_after(cfg.nodes@, cfg.edges@, row);
                let k = choose|k: int| 0 <= k < after.len() && after[k] == to;
                assert(more[rest.len() + k] == to);
            }
        }
        lemma_entered_is_closed(cfg, more, now, (work - 1) as nat);
        let (all, _) = enter_rows(cfg, pending, entered, work).unwrap();
        assert forall|other: usize| pending.contains(other) implies #[trigger] all.contains(
            other,
        ) by {
            assert(now.contains(other) || more.contains(other));
        }
    }
}

proof fn lemma_way_is_entered(cfg: CfgResult, way: Seq<usize>, entered: Set<usize>, i: int)
    requires
        is_way_from_entry(cfg, way),
        is_closed(cfg, entered, Seq::empty()),
        entered.contains(way[0]),
        0 <= i < way.len(),
    ensures
        entered.contains(way[i]),
    decreases i,
{
    if i > 0 {
        lemma_way_is_entered(cfg, way, entered, i - 1);
        assert(comes_after(cfg, way[i - 1], way[i]));
        let j = choose|j: int|
            {
                &&& 0 <= j < cfg.edges@.len()
                &&& row_of(cfg.nodes@, (#[trigger] cfg.edges@[j]).source) == Some(way[i - 1])
                &&& row_of(cfg.nodes@, cfg.edges@[j].target) == Some(way[i])
                &&& cfg.nodes@[way[i - 1] as int].function_id
                    == cfg.nodes@[way[i] as int].function_id
            };
        lemma_row_after(cfg.nodes@, cfg.edges@, j);
    }
}

proof fn lemma_place_before(cfg: CfgResult, entered: Set<usize>, from: usize, to: usize) -> (
    place: (usize, u32, bool))
    requires
        comes_after(cfg, from, to),
        entered.contains(from),
    ensures
        place.0 == from,
        place.1 == u32::MAX,
        places_before(cfg, entered, to).contains(place),
{
    let j = choose|j: int|
        {
            &&& 0 <= j < cfg.edges@.len()
            &&& row_of(cfg.nodes@, (#[trigger] cfg.edges@[j]).source) == Some(from)
            &&& row_of(cfg.nodes@, cfg.edges@[j].target) == Some(to)
            &&& cfg.nodes@[from as int].function_id == cfg.nodes@[to as int].function_id
        };
    lemma_row_after(cfg.nodes@, cfg.edges@, j);
    let (_, _, normal) = joined_rows(cfg.nodes@, cfg.edges@[j]).unwrap();
    let before = rows_before(cfg.nodes@, cfg.edges@, to);
    let keep = |p: (usize, bool)| entered.contains(p.0);
    let turn = |p: (usize, bool)| (p.0, u32::MAX, p.1);
    let b = choose|b: int| 0 <= b < before.len() && before[b] == (from, normal);
    before.lemma_filter_contains(keep, b);
    let kept = before.filter(keep);
    let k = choose|k: int| 0 <= k < kept.len() && kept[k] == (from, normal);
    assert(places_before(cfg, entered, to) == kept.map_values(turn));
    assert(kept.map_values(turn)[k] == (from, u32::MAX, normal));
    (from, u32::MAX, normal)
}

/// Whether a write is that of one of the first definitions at one of its rows.
spec fn is_written_by(
    inputs: UseDefInputs,
    variable: Variable,
    count: nat,
    w: Write,
    q: int,
) -> bool {
    &&& 0 <= q < count
    &&& w.id == variable.definitions[q].id
    &&& owner_rows(inputs.cfg, variable.rows, variable.definitions[q]).contains(w.row)
}

proof fn lemma_written_by(
    inputs: UseDefInputs,
    prepared: Prepared,
    variable: Variable,
    count: nat,
    i: int,
)
    requires
        count <= variable.definitions.len(),
        0 <= i < written(inputs, prepared, variable, count).len(),
    ensures
        exists|q: int| #[trigger]
            is_written_by(
                inputs,
                variable,
                count,
                written(inputs, prepared, variable, count)[i],
                q,
            ),
    decreases count,
{
    let before = written(inputs, prepared, variable, (count - 1) as nat);
    let w = written(inputs, prepared, variable, count)[i];
    let node = variable.definitions[count - 1];
    let owners = owner_rows(inputs.cfg, variable.rows, node);
    if i < before.len() {
        lemma_written_by(inputs, prepared, variable, (count - 1) as nat, i);
        let q = choose|q: int| #[trigger]
            is_written_by(inputs, variable, (count - 1) as nat, before[i], q);
        assert(is_written_by(inputs, variable, count, w, q));
    } else {
        assert(owners[i - before.len()] == w.row);
        assert(is_written_by(inputs, variable, count, w, count - 1));
    }
}

proof fn lemma_written_there(
    inputs: UseDefInputs,
    prepared: Prepared,
    variable: Variable,
    count: nat,
    q: int,
    row: usize,
) -> (i: int)
    requires
        0 <= q < count <= variable.definitions.len(),
        owner_rows(inputs.cfg, variable.rows, variable.definitions[q]).contains(row),
    ensures
        0 <= i < written(inputs, prepared, variable, count).len(),
        written(inputs, prepared, variable, count)[i].row == row,
        written(inputs, prepared, variable, count)[i].id == variable.definitions[q].id,
    decreases count,
{
    let before = written(inputs, prepared, variable, (count - 1) as nat);
    if q < count - 1 {
        lemma_written_there(inputs, prepared, variable, (count - 1) as nat, q, row)
    } else {
        let owners = owner_rows(inputs.cfg, variable.rows, variable.definitions[q]);
        let k = choose|k: int| 0 <= k < owners.len() && owners[k] == row;
        before.len() + k
    }
}

/// Whether the definitions of a variable that have a row all have an identity.
spec fn only_at(
    inputs: UseDefInputs,
    variable: Variable,
    row: usize,
    id: Option<DataNodeId>,
) -> bool {
    forall|q: int|
        0 <= q < variable.definitions.len() && owner_rows(
            inputs.cfg,
            variable.rows,
            variable.definitions[q],
        ).contains(row) ==> Some((#[trigger] variable.definitions[q]).id) == id
}

proof fn lemma_writes_only(
    inputs: UseDefInputs,
    prepared: Prepared,
    variable: Variable,
    row: usize,
    id: Option<DataNodeId>,
)
    requires
        only_at(inputs, variable, row, id),
    ensures
        forall|i: int|
            0 <= i < writes_at(
                written(inputs, prepared, variable, variable.definitions.len()),
                row,
            ).len() ==> Some(
                (#[trigger] writes_at(
                    written(inputs, prepared, variable, variable.definitions.len()),
                    row,
                )[i]).id,
            ) == id,
{
    let count = variable.definitions.len();
    let writes = written(inputs, prepared, variable, count);
    let keep = |w: Write| w.row == row;
    let here = writes.filter(keep);
    let keys = here.map_values(|w: Write| crate::reaching_defs::write_key(w));
    let ordered = writes_at(writes, row);
    assert(ordered == in_order(here, keys));
    assert forall|i: int| 0 <= i < ordered.len() implies Some((#[trigger] ordered[i]).id) == id by {
        lemma_in_order_member(here, keys, i);
        let k = choose|k: int| 0 <= k < here.len() && #[trigger] here[k] == ordered[i];
        writes.lemma_filter_pred(keep, k);
        assert(here.contains(here[k]));
        writes.lemma_filter_contains_rev(keep, here[k]);
        let n = choose|n: int| 0 <= n < writes.len() && writes[n] == here[k];
        lemma_written_by(inputs, prepared, variable, count, n);
        let q = choose|q: int| #[trigger] is_written_by(inputs, variable, count, writes[n], q);
        assert(Some(variable.definitions[q].id) == id);
    }
}

proof fn lemma_writes_some(writes: Seq<Write>, row: usize, i: int)
    requires
        0 <= i < writes.len(),
        writes[i].row == row,
    ensures
        writes_at(writes, row).len() > 0,
{
    let keep = |w: Write| w.row == row;
    let here = writes.filter(keep);
    writes.lemma_filter_contains(keep, i);
    let keys = here.map_values(|w: Write| crate::reaching_defs::write_key(w));
    ordered_rows_is_a_permutation(keys, here.len());
}

/// A definition that control passes reaches the use behind it: where control can come from
/// the entry of a function through a row of the definition to a row of the use, and no
/// definition of the variable stands in the rows in between, nor another with the definition
/// nor one with the use, there is an edge from the definition to the use, unless the work did
/// not suffice.
pub proof fn a_definition_reaches_the_use_behind_it(
    inputs: UseDefInputs,
    work: nat,
    key: u64,
    d: int,
    u: int,
    way: Seq<usize>,
    k: int,
)
    requires
        are_definition_and_use(inputs, key, d, u),
        inputs.nodes[u].range.start_byte < u32::MAX,
        is_way_from_entry(inputs.cfg, way),
        0 <= k < way.len() - 1,
        owner_rows(inputs.cfg, rows_of(inputs, key), inputs.nodes[d]).contains(way[k]),
        owner_rows(inputs.cfg, rows_of(inputs, key), inputs.nodes[u]).contains(way.last()),
        forall|i: int, j: int|
            k <= i < way.len() && 0 <= j < inputs.nodes.len() && inputs.keys[j] == Some(key) && (
            inputs.nodes[j].kind == DataNodeKind::Local || inputs.nodes[j].kind
                == DataNodeKind::Parameter || inputs.nodes[j].kind == DataNodeKind::CallOutput)
                && owner_rows(
                inputs.cfg,
                rows_of(inputs, key),
                #[trigger] inputs.nodes[j],
            ).contains(#[trigger] way[i]) ==> i == k && inputs.nodes[j].id == inputs.nodes[d].id,
    ensures
        use_def(inputs, work).exhausted || holds_edge(
            use_def(inputs, work),
            inputs.nodes[d].id,
            inputs.nodes[u],
        ),
{
    if work >= preparation_work(inputs) {
        let entries = entry_rows(inputs.cfg.nodes@);
        let behind = (work - preparation_work(inputs)) as nat;
        match enter_rows(inputs.cfg, entries, Set::empty(), behind) {
            None => {},
            Some((entered, left)) => {
                lemma_entered_is_closed(inputs.cfg, entries, Set::empty(), behind);
                lemma_entry_row(inputs.cfg.nodes@, way[0]);
                assert(entered.contains(way[0]));
                lemma_open_on_way(inputs, key, d, u, way, k, entered);
                lemma_found(inputs, work, key, d, u, entered, left);
            },
        }
    }
}

proof fn lemma_open_on_way(
    inputs: UseDefInputs,
    key: u64,
    d: int,
    u: int,
    way: Seq<usize>,
    k: int,
    entered: Set<usize>,
)
    requires
        are_definition_and_use(inputs, key, d, u),
        inputs.nodes[u].range.start_byte < u32::MAX,
        is_way_from_entry(inputs.cfg, way),
        is_closed(inputs.cfg, entered, Seq::empty()),
        entered.contains(way[0]),
        0 <= k < way.len() - 1,
        owner_rows(inputs.cfg, rows_of(inputs, key), inputs.nodes[d]).contains(way[k]),
        owner_rows(inputs.cfg, rows_of(inputs, key), inputs.nodes[u]).contains(way.last()),
        forall|i: int, j: int|
            k <= i < way.len() && 0 <= j < inputs.nodes.len() && inputs.keys[j] == Some(key) && (
            inputs.nodes[j].kind == DataNodeKind::Local || inputs.nodes[j].kind
                == DataNodeKind::Parameter || inputs.nodes[j].kind == DataNodeKind::CallOutput)
                && owner_rows(
                inputs.cfg,
                rows_of(inputs, key),
                #[trigger] inputs.nodes[j],
            ).contains(#[trigger] way[i]) ==> i == k && inputs.nodes[j].id == inputs.nodes[d].id,
    ensures
        may_reach(
            inputs,
            prepared_with(inputs, entered),
            variable_of(inputs, group_nodes(inputs, key, inputs.nodes.len())),
            inputs.nodes[d],
            inputs.nodes[u],
        ),
{
    let cfg = inputs.cfg;
    let read = inputs.nodes[u];
    let id = inputs.nodes[d].id;
    let nodes = group_nodes(inputs, key, inputs.nodes.len());
    let variable = variable_of(inputs, nodes);
    let prepared = prepared_with(inputs, entered);
    let writes = written(inputs, prepared, variable, variable.definitions.len());
    let is_definition = |n: DataNode| defines(n.kind);
    lemma_in_group(inputs, key, inputs.nodes.len(), d);
    lemma_group_of_variable(inputs, key, inputs.nodes.len());
    lemma_filtered_of_variable(inputs, key, nodes, is_definition);
    assert(variable.definitions == nodes.filter(is_definition));
    let g = choose|g: int| 0 <= g < nodes.len() && nodes[g] == inputs.nodes[d];
    nodes.lemma_filter_contains(is_definition, g);
    let q = choose|q: int|
        0 <= q < variable.definitions.len() && variable.definitions[q] == inputs.nodes[d];
    let end = way.len() - 1;
    assert forall|i: int| k <= i < way.len() implies only_at(
        inputs,
        variable,
        #[trigger] way[i],
        if i == k {
            Some(id)
        } else {
            None
        },
    ) by {
        assert forall|p: int|
            0 <= p < variable.definitions.len() && owner_rows(
                cfg,
                variable.rows,
                variable.definitions[p],
            ).contains(way[i]) implies Some((#[trigger] variable.definitions[p]).id) == (if i
            == k {
            Some(id)
        } else {
            None
        }) by {
            let node = variable.definitions[p];
            assert(is_of_variable(inputs, key, nodes.filter(is_definition)[p]));
            assert(is_definition(nodes.filter(is_definition)[p]));
            let j = choose|j: int|
                0 <= j < inputs.nodes.len() && inputs.keys[j] == Some(key)
                    && #[trigger] inputs.nodes[j] == node && !is_behind_end(cfg, node);
            assert(inputs.nodes[j] == node);
        }
    }
    let owners = owner_rows(cfg, variable.rows, read);
    let places = read_places(entered, owners, read);
    let cutoff = if read.kind == DataNodeKind::ParameterOutput {
        u32::MAX
    } else {
        read.range.start_byte
    };
    let first_place = (way[end], cutoff, true);
    let trail = Seq::new(
        (end - k + 1) as nat,
        |m: int|
            if m == 0 {
                first_place
            } else {
                choose|place: (usize, u32, bool)|
                    place.0 == way[end - m] && place.1 == u32::MAX && #[trigger] places_before(
                        cfg,
                        entered,
                        way[end - m + 1],
                    ).contains(place)
            },
    );
    assert forall|m: int| 0 < m < trail.len() implies (#[trigger] trail[m]).0 == way[end - m]
        && trail[m].1 == u32::MAX && places_before(cfg, entered, way[end - m + 1]).contains(
        trail[m],
    ) by {
        lemma_way_is_entered(cfg, way, entered, end - m);
        assert(comes_after(cfg, way[end - m + 1 - 1], way[end - m + 1]));
        let place = lemma_place_before(cfg, entered, way[end - m], way[end - m + 1]);
        assert(places_before(cfg, entered, way[end - m + 1]).contains(place));
    }
    assert(places.contains(trail[0])) by {
        let keep = |row: usize| entered.contains(row);
        let turn = |row: usize| (row, cutoff, true);
        lemma_way_is_entered(cfg, way, entered, end);
        let o = choose|o: int| 0 <= o < owners.len() && owners[o] == way[end];
        owners.lemma_filter_contains(keep, o);
        let kept = owners.filter(keep);
        let e = choose|e: int| 0 <= e < kept.len() && kept[e] == way[end];
        assert(places =~= kept.map_values(turn));
        assert(kept.map_values(turn)[e] == first_place);
    }
    assert forall|m: int| 0 <= m < trail.len() - 1 implies #[trigger] goes_on(
        cfg,
        entered,
        prepared.first,
        writes,
        read,
        trail,
        m,
    ) by {
        let row = way[end - m];
        assert(trail[m].0 == row);
        assert(only_at(inputs, variable, row, None));
        lemma_writes_only(inputs, prepared, variable, row, None);
        let here = writes_at(writes, row);
        if here.len() > 0 {
            assert(Some(here[0].id) == None::<DataNodeId>);
        }
        assert(trail[m + 1].0 == way[end - (m + 1)]);
    }
    assert(is_trail(cfg, entered, prepared.first, writes, read, places, trail));
    let last = trail.last();
    assert(last == trail[end - k]);
    assert(only_at(inputs, variable, way[k], Some(id)));
    lemma_writes_only(inputs, prepared, variable, way[k], Some(id));
    let i = lemma_written_there(
        inputs,
        prepared,
        variable,
        variable.definitions.len(),
        q,
        way[k],
    );
    lemma_writes_some(writes, way[k], i);
    let here = writes_at(writes, way[k]);
    assert(here[0].id == id);
    assert(taken_up(read, prepared.first, here, u32::MAX, last.2).0.contains(id));
    assert(taken_at(prepared.first, writes, read, last).0.contains(id));
}

/// Whether an edge leads from a definition to a use of one variable that it may reach.
pub open spec fn is_owed(
    inputs: UseDefInputs,
    prepared: Prepared,
    key: u64,
    d: int,
    u: int,
    edge: DataFlowEdge,
) -> bool {
    &&& are_definition_and_use(inputs, key, d, u)
    &&& inputs.nodes[d].id == edge.source
    &&& inputs.nodes[u].id == edge.target
    &&& may_reach(
        inputs,
        prepared,
        variable_of(inputs, group_nodes(inputs, key, inputs.nodes.len())),
        inputs.nodes[d],
        inputs.nodes[u],
    )
}

/// Whether the edges of a later state are those of an earlier one and such that are owed.
spec fn grows_by_owed(
    inputs: UseDefInputs,
    prepared: Prepared,
    before: UseDefState,
    after: UseDefState,
) -> bool {
    forall|i: int|
        0 <= i < after.edges.len() ==> before.edges.contains(#[trigger] after.edges[i]) || exists|
            key: u64,
            d: int,
            u: int,
        | #[trigger]
            is_owed(inputs, prepared, key, d, u, after.edges[i])
}

proof fn lemma_owed_add_up(
    inputs: UseDefInputs,
    prepared: Prepared,
    a: UseDefState,
    b: UseDefState,
    c: UseDefState,
)
    requires
        grows_by_owed(inputs, prepared, a, b),
        grows_by_owed(inputs, prepared, b, c),
    ensures
        grows_by_owed(inputs, prepared, a, c),
{
    assert forall|i: int| 0 <= i < c.edges.len() implies a.edges.contains(#[trigger] c.edges[i])
        || exists|key: u64, d: int, u: int| #[trigger]
        is_owed(inputs, prepared, key, d, u, c.edges[i]) by {
        if b.edges.contains(c.edges[i]) {
            let j = choose|j: int| 0 <= j < b.edges.len() && b.edges[j] == c.edges[i];
            assert(a.edges.contains(b.edges[j]) || exists|key: u64, d: int, u: int| #[trigger]
                is_owed(inputs, prepared, key, d, u, b.edges[j]));
        }
    }
}

proof fn lemma_nothing_owed(inputs: UseDefInputs, prepared: Prepared, a: UseDefState, b: UseDefState)
    requires
        a.edges == b.edges,
    ensures
        grows_by_owed(inputs, prepared, a, b),
{
    assert forall|i: int| 0 <= i < b.edges.len() implies a.edges.contains(
        #[trigger] b.edges[i],
    ) by {}
}

proof fn lemma_connects_owed(
    inputs: UseDefInputs,
    prepared: Prepared,
    state: UseDefState,
    ids: Seq<DataNodeId>,
    read: DataNode,
)
    requires
        forall|i: int|
            0 <= i < ids.len() ==> exists|key: u64, d: int, u: int| #[trigger]
                is_owed(
                    inputs,
                    prepared,
                    key,
                    d,
                    u,
                    DataFlowEdge::made(
                        #[trigger] ids[i],
                        read.id,
                        DataFlowKind::Assign,
                        read.range,
                        85,
                    ),
                ),
    ensures
        grows_by_owed(inputs, prepared, state, connect_all(state, ids, read)),
    decreases ids.len(),
{
    if ids.len() == 0 {
        lemma_nothing_owed(inputs, prepared, state, state);
    } else {
        let fewer = ids.drop_last();
        let before = connect_all(state, fewer, read);
        let after = connect_all(state, ids, read);
        assert forall|i: int| 0 <= i < fewer.len() implies exists|key: u64, d: int, u: int| #[trigger]
            is_owed(
                inputs,
                prepared,
                key,
                d,
                u,
                DataFlowEdge::made(
                    #[trigger] fewer[i],
                    read.id,
                    DataFlowKind::Assign,
                    read.range,
                    85,
                ),
            ) by {
            assert(fewer[i] == ids[i]);
        }
        lemma_connects_owed(inputs, prepared, state, fewer, read);
        assert(grows_by_owed(inputs, prepared, before, after)) by {
            assert forall|i: int| 0 <= i < after.edges.len() implies before.edges.contains(
                #[trigger] after.edges[i],
            ) || exists|key: u64, d: int, u: int| #[trigger]
                is_owed(inputs, prepared, key, d, u, after.edges[i]) by {
                if i < before.edges.len() {
                    assert(after.edges[i] == before.edges[i]);
                } else {
                    let last = ids[ids.len() - 1];
                    assert(after.edges[i] == DataFlowEdge::made(
                        last,
                        read.id,
                        DataFlowKind::Assign,
                        read.range,
                        85,
                    ));
                }
            }
        }
        lemma_owed_add_up(inputs, prepared, state, before, after);
    }
}

proof fn lemma_with_ids_from(ids: Seq<DataNodeId>, more: Seq<DataNodeId>, id: DataNodeId)
    requires
        with_ids(ids, more).contains(id),
    ensures
        ids.contains(id) || more.contains(id),
    decreases more.len(),
{
    if more.len() > 0 {
        let fewer = more.drop_last();
        lemma_with_id(with_ids(ids, fewer), more.last());
        if more.last() == id {
            assert(more[more.len() - 1] == id);
        } else {
            lemma_with_ids_from(ids, fewer, id);
            if fewer.contains(id) {
                let k = choose|k: int| 0 <= k < fewer.len() && fewer[k] == id;
                assert(more[k] == id);
            }
        }
    }
}

/// Whether an identity is that of a definition without a row.
spec fn is_without_row(inputs: UseDefInputs, variable: Variable, id: DataNodeId, q: int) -> bool {
    &&& 0 <= q < variable.definitions.len()
    &&& variable.definitions[q].id == id
    &&& owner_rows(inputs.cfg, variable.rows, variable.definitions[q]).len() == 0
}

/// Whether an identity is that of some definition without a row.
spec fn has_no_row(inputs: UseDefInputs, variable: Variable, id: DataNodeId) -> bool {
    exists|q: int| #[trigger] is_without_row(inputs, variable, id, q)
}

/// Whether a placement holds all writes of a variable, and besides them the definitions
/// without a row.
spec fn is_laid_out(
    inputs: UseDefInputs,
    prepared: Prepared,
    variable: Variable,
    placement: Placement,
) -> bool {
    &&& placement.writes == written(inputs, prepared, variable, variable.definitions.len())
    &&& all_writes_among(placement.writes, variable.definitions)
    &&& all_among(placement.unplaced, variable.definitions)
    &&& forall|i: int|
        0 <= i < placement.unplaced.len() ==> has_no_row(
            inputs,
            variable,
            #[trigger] placement.unplaced[i],
        )
}

proof fn lemma_unplaced_without_row(
    inputs: UseDefInputs,
    prepared: Prepared,
    variable: Variable,
    state: UseDefState,
    count: nat,
    i: int,
)
    requires
        count <= variable.definitions.len(),
        0 <= i < place_all(inputs, prepared, variable, state, count).unplaced.len(),
    ensures
        has_no_row(
            inputs,
            variable,
            place_all(inputs, prepared, variable, state, count).unplaced[i],
        ),
    decreases count,
{
    if count > 0 {
        let before = place_all(inputs, prepared, variable, state, (count - 1) as nat);
        let placed = place_all(inputs, prepared, variable, state, count);
        let node = variable.definitions[count - 1];
        let paid = before.state.spend(
            crate::reaching_defs::at_least_one(variable.rows.len(), 0),
        );
        let owners = owner_rows(inputs.cfg, variable.rows, node);
        lemma_placed_at(
            inputs,
            prepared,
            variable,
            Placement { state: paid, ..before },
            node,
            owners,
        );
        if i < before.unplaced.len() {
            lemma_unplaced_without_row(
                inputs,
                prepared,
                variable,
                state,
                (count - 1) as nat,
                i,
            );
            assert(placed.unplaced[i] == before.unplaced[i]);
        } else {
            assert(is_without_row(inputs, variable, placed.unplaced[i], count - 1));
        }
    }
}

proof fn lemma_read_owes(
    inputs: UseDefInputs,
    prepared: Prepared,
    key: u64,
    placement: Placement,
    state: UseDefState,
    read: DataNode,
)
    requires
        is_laid_out(
            inputs,
            prepared,
            variable_of(inputs, group_nodes(inputs, key, inputs.nodes.len())),
            placement,
        ),
        uses(read.kind),
        is_of_variable(inputs, key, read),
    ensures
        grows_by_owed(
            inputs,
            prepared,
            state,
            resolve_read(
                inputs,
                prepared,
                variable_of(inputs, group_nodes(inputs, key, inputs.nodes.len())),
                placement.writes,
                placement.unplaced,
                state,
                read,
            ),
        ),
{
    let nodes = group_nodes(inputs, key, inputs.nodes.len());
    let variable = variable_of(inputs, nodes);
    let is_definition = |n: DataNode| defines(n.kind);
    lemma_group_of_variable(inputs, key, inputs.nodes.len());
    lemma_filtered_of_variable(inputs, key, nodes, is_definition);
    assert(variable.definitions == nodes.filter(is_definition));
    let after = resolve_read(
        inputs,
        prepared,
        variable,
        placement.writes,
        placement.unplaced,
        state,
        read,
    );
    let paid = state.spend(
        crate::reaching_defs::at_least_one(variable.rows.len(), variable.definitions.len()),
    );
    let owners = owner_rows(inputs.cfg, variable.rows, read);
    let places = read_places(prepared.entered, owners, read);
    let placeless = with_ids(Seq::empty(), placement.unplaced);
    let (begun, noted) = if owners.len() == 0 {
        (with_nodes(placeless, variable.definitions), paid.note(read.range, Notice::UseUnplaced))
    } else {
        (placeless, paid)
    };
    let walked = walk_back(
        inputs.cfg,
        prepared.entered,
        prepared.first,
        placement.writes,
        read,
        places,
        Seq::empty(),
        begun,
        noted.work,
    );
    if paid.exhausted || (owners.len() == 0 && read.kind == DataNodeKind::ParameterOutput)
        || walked is None {
        assert(after.edges == state.edges);
        lemma_nothing_owed(inputs, prepared, state, after);
    } else {
        let (reaching, left) = walked.unwrap();
        let ids = ordered_ids(reaching);
        let begin = UseDefState { work: left, ..noted };
        lemma_with_ids_among(Seq::empty(), placement.unplaced, variable.definitions);
        assert forall|i: int| 0 <= i < variable.definitions.len() implies is_among(
            variable.definitions,
            (#[trigger] variable.definitions[i]).id,
        ) by {}
        lemma_with_nodes_among(placeless, variable.definitions, variable.definitions);
        lemma_walk_among(
            inputs.cfg,
            prepared.entered,
            prepared.first,
            placement.writes,
            read,
            places,
            begun,
            noted.work,
            variable.definitions,
        );
        assert forall|i: int| 0 <= i < ids.len() implies exists|key: u64, d: int, u: int| #[trigger]
            is_owed(
                inputs,
                prepared,
                key,
                d,
                u,
                DataFlowEdge::made(
                    #[trigger] ids[i],
                    read.id,
                    DataFlowKind::Assign,
                    read.range,
                    85,
                ),
            ) by {
            let id = ids[i];
            let edge = DataFlowEdge::made(id, read.id, DataFlowKind::Assign, read.range, 85);
            lemma_in_order_member(
                reaching,
                reaching.map_values(|id: DataNodeId| seq![id.0.hi, id.0.lo]),
                i,
            );
            let m = choose|m: int| 0 <= m < reaching.len() && #[trigger] reaching[m] == id;
            assert(reaching.contains(id));
            assert(is_among(variable.definitions, reaching[m]));
            walk_finds_what_lies_open(
                inputs.cfg,
                prepared.entered,
                prepared.first,
                placement.writes,
                read,
                places,
                begun,
                noted.work,
                id,
            );
            let q = if owners.len() > 0 && begun.contains(id) {
                lemma_with_ids_from(Seq::empty(), placement.unplaced, id);
                let k = choose|k: int|
                    0 <= k < placement.unplaced.len() && placement.unplaced[k] == id;
                assert(has_no_row(inputs, variable, placement.unplaced[k]));
                choose|q: int| #[trigger]
                    is_without_row(inputs, variable, placement.unplaced[k], q)
            } else {
                choose|q: int|
                    0 <= q < variable.definitions.len() && (#[trigger] variable.definitions[q]).id
                        == id
            };
            assert(may_reach(inputs, prepared, variable, variable.definitions[q], read));
            assert(is_of_variable(inputs, key, nodes.filter(is_definition)[q]));
            assert(is_definition(nodes.filter(is_definition)[q]));
            let d = choose|d: int|
                0 <= d < inputs.nodes.len() && inputs.keys[d] == Some(key)
                    && #[trigger] inputs.nodes[d] == variable.definitions[q] && !is_behind_end(
                    inputs.cfg,
                    variable.definitions[q],
                );
            let u = choose|u: int|
                0 <= u < inputs.nodes.len() && inputs.keys[u] == Some(key)
                    && #[trigger] inputs.nodes[u] == read && !is_behind_end(inputs.cfg, read);
            assert(is_owed(inputs, prepared, key, d, u, edge));
        }
        lemma_connects_owed(inputs, prepared, begin, ids, read);
        lemma_nothing_owed(inputs, prepared, state, begin);
        lemma_owed_add_up(inputs, prepared, state, begin, after);
    }
}

proof fn lemma_reads_owe(
    inputs: UseDefInputs,
    prepared: Prepared,
    key: u64,
    placement: Placement,
    reads: Seq<DataNode>,
)
    requires
        is_laid_out(
            inputs,
            prepared,
            variable_of(inputs, group_nodes(inputs, key, inputs.nodes.len())),
            placement,
        ),
        forall|i: int| 0 <= i < reads.len() ==> uses((#[trigger] reads[i]).kind),
        all_of_variable(inputs, key, reads),
    ensures
        grows_by_owed(
            inputs,
            prepared,
            placement.state,
            resolve_reads(
                inputs,
                prepared,
                variable_of(inputs, group_nodes(inputs, key, inputs.nodes.len())),
                placement,
                reads,
            ),
        ),
    decreases reads.len(),
{
    let variable = variable_of(inputs, group_nodes(inputs, key, inputs.nodes.len()));
    let after = resolve_reads(inputs, prepared, variable, placement, reads);
    if reads.len() == 0 {
        lemma_nothing_owed(inputs, prepared, placement.state, after);
    } else {
        let fewer = reads.drop_last();
        let before = resolve_reads(inputs, prepared, variable, placement, fewer);
        assert(all_of_variable(inputs, key, fewer)) by {
            assert forall|i: int| 0 <= i < fewer.len() implies is_of_variable(
                inputs,
                key,
                #[trigger] fewer[i],
            ) by {
                assert(is_of_variable(inputs, key, reads[i]));
            }
        }
        assert forall|i: int| 0 <= i < fewer.len() implies uses((#[trigger] fewer[i]).kind) by {
            assert(uses(reads[i].kind));
        }
        lemma_reads_owe(inputs, prepared, key, placement, fewer);
        if !before.exhausted {
            assert(uses(reads[reads.len() - 1].kind));
            assert(is_of_variable(inputs, key, reads[reads.len() - 1]));
            lemma_read_owes(inputs, prepared, key, placement, before, reads.last());
            lemma_owed_add_up(inputs, prepared, placement.state, before, after);
        }
    }
}

proof fn lemma_groups_owe(
    inputs: UseDefInputs,
    prepared: Prepared,
    state: UseDefState,
    groups: Seq<u64>,
)
    ensures
        grows_by_owed(
            inputs,
            prepared,
            state,
            resolve_groups(inputs, prepared, state, groups),
        ),
    decreases groups.len(),
{
    if groups.len() == 0 {
        lemma_nothing_owed(inputs, prepared, state, state);
    } else {
        let fewer = groups.drop_last();
        let before = resolve_groups(inputs, prepared, state, fewer);
        let after = resolve_groups(inputs, prepared, state, groups);
        lemma_groups_owe(inputs, prepared, state, fewer);
        if !before.exhausted {
            let key = groups.last();
            let nodes = group_nodes(inputs, key, inputs.nodes.len());
            let variable = variable_of(inputs, nodes);
            let is_use = |n: DataNode| uses(n.kind);
            let reads = nodes.filter(is_use);
            let count = variable.definitions.len();
            let placement = place_all(inputs, prepared, variable, before, count);
            lemma_group_of_variable(inputs, key, inputs.nodes.len());
            lemma_filtered_of_variable(inputs, key, nodes, is_use);
            lemma_place_all_among(inputs, prepared, variable, before, count);
            if count == 0 || reads.len() == 0 || placement.state.exhausted {
                assert(after.edges == before.edges);
                lemma_nothing_owed(inputs, prepared, before, after);
            } else {
                lemma_placed(inputs, prepared, variable, before, count);
                assert forall|i: int| 0 <= i < placement.unplaced.len() implies has_no_row(
                    inputs,
                    variable,
                    #[trigger] placement.unplaced[i],
                ) by {
                    lemma_unplaced_without_row(inputs, prepared, variable, before, count, i);
                }
                assert forall|i: int| 0 <= i < reads.len() implies uses(
                    (#[trigger] reads[i]).kind,
                ) by {
                    assert(is_use(nodes.filter(is_use)[i]));
                }
                lemma_reads_owe(inputs, prepared, key, placement, reads);
                lemma_nothing_owed(inputs, prepared, before, placement.state);
                lemma_owed_add_up(inputs, prepared, before, placement.state, after);
            }
            lemma_owed_add_up(inputs, prepared, state, before, after);
        }
    }
}

/// Nothing else is found: every edge of a result leads from a definition to a use of the same
/// variable that it may reach.
pub proof fn every_edge_leads_from_an_open_definition(
    inputs: UseDefInputs,
    work: nat,
    i: int,
    entered: Set<usize>,
    left: nat,
)
    requires
        0 <= i < use_def(inputs, work).edges.len(),
        work >= preparation_work(inputs),
        enter_rows(
            inputs.cfg,
            entry_rows(inputs.cfg.nodes@),
            Set::empty(),
            (work - preparation_work(inputs)) as nat,
        ) == Some((entered, left)),
    ensures
        exists|key: u64, d: int, u: int| #[trigger]
            is_owed(
                inputs,
                prepared_with(inputs, entered),
                key,
                d,
                u,
                use_def(inputs, work).edges[i],
            ),
{
    let start = UseDefState { edges: Seq::empty(), notes: Seq::empty(), work, exhausted: false };
    lemma_groups_owe(
        inputs,
        prepared_with(inputs, entered),
        UseDefState { work: left, ..start },
        ordered_groups(inputs),
    );
    assert(!start.edges.contains(use_def(inputs, work).edges[i]));
}

proof fn lemma_shortest(nodes: Seq<CfgNode>, rows: Seq<usize>)
    requires
        rows.len() > 0,
    ensures
        forall|i: int|
            0 <= i < rows.len() ==> shortest(nodes, rows) <= statement_len(
                nodes[#[trigger] rows[i] as int],
            ),
        exists|i: int|
            0 <= i < rows.len() && shortest(nodes, rows) == statement_len(
                nodes[#[trigger] rows[i] as int],
            ),
    decreases rows.len(),
{
    if rows.len() == 1 {
        assert(shortest(nodes, rows) == statement_len(nodes[rows[0] as int]));
    } else {
        let fewer = rows.drop_last();
        lemma_shortest(nodes, fewer);
        assert forall|i: int| 0 <= i < rows.len() implies shortest(nodes, rows) <= statement_len(
            nodes[#[trigger] rows[i] as int],
        ) by {
            if i < fewer.len() {
                assert(fewer[i] == rows[i]);
            }
        }
        let last = statement_len(nodes[rows.last() as int]);
        if last < shortest(nodes, fewer) {
            assert(shortest(nodes, rows) == statement_len(nodes[rows[rows.len() - 1] as int]));
        } else {
            let i = choose|i: int|
                0 <= i < fewer.len() && shortest(nodes, fewer) == statement_len(
                    nodes[#[trigger] fewer[i] as int],
                );
            assert(shortest(nodes, rows) == statement_len(nodes[rows[i] as int]));
        }
    }
}

/// Whether a row is a statement that holds a node, and none of the others that do is shorter.
pub open spec fn is_smallest_statement(
    cfg: CfgResult,
    rows: Seq<usize>,
    node: DataNode,
    row: usize,
) -> bool {
    &&& is_statement_around(cfg, node, row)
    &&& forall|other: usize|
        rows.contains(other) && #[trigger] is_statement_around(cfg, node, other)
            ==> cfg.nodes@[row as int].stmt_range.end_byte
            - cfg.nodes@[row as int].stmt_range.start_byte
            <= cfg.nodes@[other as int].stmt_range.end_byte
            - cfg.nodes@[other as int].stmt_range.start_byte
}

/// Whether a row is a statement of its own, with some text, that holds a node.
pub open spec fn is_statement_around(cfg: CfgResult, node: DataNode, row: usize) -> bool {
    let at = cfg.nodes@[row as int];
    &&& at.kind != CfgNodeKind::Entry
    &&& at.kind != CfgNodeKind::Exit
    &&& at.kind != CfgNodeKind::BlockExit
    &&& at.stmt_range.covers(node.range)
    &&& at.stmt_range.start_byte < at.stmt_range.end_byte
}

proof fn lemma_filter_holds(rows: Seq<usize>, keep: spec_fn(usize) -> bool, row: usize)
    ensures
        rows.filter(keep).contains(row) <==> rows.contains(row) && keep(row),
{
    let kept = rows.filter(keep);
    if kept.contains(row) {
        let k = choose|k: int| 0 <= k < kept.len() && kept[k] == row;
        rows.lemma_filter_pred(keep, k);
        rows.lemma_filter_contains_rev(keep, row);
    }
    if rows.contains(row) && keep(row) {
        let k = choose|k: int| 0 <= k < rows.len() && rows[k] == row;
        rows.lemma_filter_contains(keep, k);
    }
}

/// A parameter takes effect where its function is entered, and any other node in the smallest
/// statements that hold it, wherever they stand in the control flow.
pub proof fn a_node_takes_effect_in_its_smallest_statements(
    cfg: CfgResult,
    rows: Seq<usize>,
    node: DataNode,
    row: usize,
)
    requires
        node.kind != DataNodeKind::ParameterOutput,
    ensures
        owner_rows(cfg, rows, node).contains(row) <==> rows.contains(row) && if node.kind
            == DataNodeKind::Parameter {
            cfg.nodes@[row as int].kind == CfgNodeKind::Entry
        } else {
            is_smallest_statement(cfg, rows, node, row)
        },
{
    if node.kind == DataNodeKind::Parameter {
        lemma_filter_holds(rows, |i: usize| cfg.nodes@[i as int].kind == CfgNodeKind::Entry, row);
    } else {
        let around = |i: usize| holds_node(cfg.nodes@[i as int], node);
        let holding = rows.filter(around);
        let small = |i: usize|
            statement_len(cfg.nodes@[i as int]) == shortest(cfg.nodes@, holding);
        assert(owner_rows(cfg, rows, node) == holding.filter(small));
        lemma_filter_holds(rows, around, row);
        lemma_filter_holds(holding, small, row);
        if holding.len() > 0 {
            lemma_shortest(cfg.nodes@, holding);
            assert forall|other: usize|
                rows.contains(other) && #[trigger] is_statement_around(
                    cfg,
                    node,
                    other,
                ) implies shortest(cfg.nodes@, holding) <= statement_len(
                cfg.nodes@[other as int],
            ) by {
                lemma_filter_holds(rows, around, other);
                let k = choose|k: int| 0 <= k < holding.len() && holding[k] == other;
                assert(holding[k] == other);
            }
            let m = choose|m: int|
                0 <= m < holding.len() && shortest(cfg.nodes@, holding) == statement_len(
                    cfg.nodes@[#[trigger] holding[m] as int],
                );
            assert(holding.contains(holding[m]));
            lemma_filter_holds(rows, around, holding[m]);
            assert(is_statement_around(cfg, node, holding[m]));
        }
    }
}

proof fn lemma_replaces(
    read: DataNode,
    first: Seq<(DataNodeId, DataNodeId)>,
    entries: Seq<Write>,
    i: int,
)
    requires
        read.range.start_byte < u32::MAX,
        0 <= i < entries.len(),
        entries[i].definite,
        !entries[i].parameter,
    ensures
        taken_up(read, first, entries, u32::MAX, true).1,
    decreases entries.len(),
{
    if i > 0 {
        assert(entries.drop_first()[i - 1] == entries[i]);
        lemma_replaces(read, first, entries.drop_first(), i - 1);
    }
}

proof fn lemma_written_as(
    inputs: UseDefInputs,
    prepared: Prepared,
    variable: Variable,
    count: nat,
    q: int,
    row: usize,
)
    requires
        0 <= q < count <= variable.definitions.len(),
        owner_rows(inputs.cfg, variable.rows, variable.definitions[q]).contains(row),
    ensures
        written(inputs, prepared, variable, count).contains(
            write_of(inputs, prepared, variable, variable.definitions[q], row),
        ),
    decreases count,
{
    let before = written(inputs, prepared, variable, (count - 1) as nat);
    let now = written(inputs, prepared, variable, count);
    let write = write_of(inputs, prepared, variable, variable.definitions[q], row);
    if q < count - 1 {
        lemma_written_as(inputs, prepared, variable, (count - 1) as nat, q, row);
        let k = choose|k: int| 0 <= k < before.len() && before[k] == write;
        assert(now[k] == write);
    } else {
        let owners = owner_rows(inputs.cfg, variable.rows, variable.definitions[q]);
        let k = choose|k: int| 0 <= k < owners.len() && owners[k] == row;
        assert(now[before.len() + k] == write);
    }
}

proof fn lemma_row_before(nodes: Seq<CfgNode>, edges: Seq<CfgEdge>, row: usize, i: int)
    requires
        0 <= i < rows_before(nodes, edges, row).len(),
    ensures
        exists|j: int|
            0 <= j < edges.len() && joined_rows(nodes, #[trigger] edges[j]) == Some(
                (rows_before(nodes, edges, row)[i].0, row, rows_before(nodes, edges, row)[i].1),
            ),
    decreases edges.len(),
{
    if edges.len() > 0 {
        let fewer = edges.drop_last();
        let before = rows_before(nodes, fewer, row);
        if i < before.len() {
            lemma_row_before(nodes, fewer, row, i);
            let j = choose|j: int|
                0 <= j < fewer.len() && joined_rows(nodes, #[trigger] fewer[j]) == Some(
                    (before[i].0, row, before[i].1),
                );
            assert(edges[j] == fewer[j]);
        } else {
            assert(edges[edges.len() - 1] == edges.last());
        }
    }
}

/// Whether a row comes only after another that completed, and not out of an exception.
pub open spec fn comes_only_after(cfg: CfgResult, at: usize, before: usize) -> bool {
    forall|j: int|
        0 <= j < cfg.edges@.len() && row_of(
            cfg.nodes@,
            (#[trigger] cfg.edges@[j]).target,
        ) == Some(at) ==> row_of(cfg.nodes@, cfg.edges@[j].source) == Some(before)
            && cfg.edges@[j].kind != CfgEdgeKind::Exception
}

/// What is overwritten is not found: where control comes to the only row of a use from one
/// row alone, whose completion certainly writes the variable anew, and nothing writes it in
/// the row of the use, no edge leads to the use from a definition in another place.
pub proof fn an_overwritten_definition_does_not_reach(
    inputs: UseDefInputs,
    work: nat,
    key: u64,
    d: int,
    u: int,
    over: int,
    at: usize,
    before: usize,
    i: int,
)
    requires
        are_definition_and_use(inputs, key, d, u),
        are_definition_and_use(inputs, key, over, u),
        inputs.nodes[u].range.start_byte < u32::MAX,
        forall|j: int|
            0 <= j < inputs.nodes.len() && (#[trigger] inputs.nodes[j]).id == inputs.nodes[d].id
                ==> j == d,
        forall|j: int|
            0 <= j < inputs.nodes.len() && (#[trigger] inputs.nodes[j]).id == inputs.nodes[u].id
                ==> j == u,
        owner_rows(inputs.cfg, rows_of(inputs, key), inputs.nodes[u]) == seq![at],
        owner_rows(inputs.cfg, rows_of(inputs, key), inputs.nodes[d]).len() > 0,
        !owner_rows(inputs.cfg, rows_of(inputs, key), inputs.nodes[d]).contains(before),
        forall|j: int|
            0 <= j < inputs.nodes.len() && inputs.keys[j] == Some(key) && (inputs.nodes[j].kind
                == DataNodeKind::Local || inputs.nodes[j].kind == DataNodeKind::Parameter
                || inputs.nodes[j].kind == DataNodeKind::CallOutput) ==> !owner_rows(
                inputs.cfg,
                rows_of(inputs, key),
                #[trigger] inputs.nodes[j],
            ).contains(at),
        comes_only_after(inputs.cfg, at, before),
        owner_rows(inputs.cfg, rows_of(inputs, key), inputs.nodes[over]).contains(before),
        inputs.nodes[over].kind != DataNodeKind::Parameter,
        is_definite(
            inputs,
            variable_of(inputs, group_nodes(inputs, key, inputs.nodes.len())),
            inputs.nodes[over],
            before,
        ),
        0 <= i < use_def(inputs, work).edges.len(),
    ensures
        !(use_def(inputs, work).edges[i].source == inputs.nodes[d].id && use_def(
            inputs,
            work,
        ).edges[i].target == inputs.nodes[u].id),
{
    let edge = use_def(inputs, work).edges[i];
    if edge.source == inputs.nodes[d].id && edge.target == inputs.nodes[u].id {
        assert(work >= preparation_work(inputs));
        let rows = enter_rows(
            inputs.cfg,
            entry_rows(inputs.cfg.nodes@),
            Set::empty(),
            (work - preparation_work(inputs)) as nat,
        );
        assert(rows is Some);
        let (entered, left) = rows.unwrap();
        let prepared = prepared_with(inputs, entered);
        every_edge_leads_from_an_open_definition(inputs, work, i, entered, left);
        let (k2, d2, u2) = choose|k2: u64, d2: int, u2: int| #[trigger]
            is_owed(inputs, prepared, k2, d2, u2, edge);
        assert(inputs.nodes[d2].id == inputs.nodes[d].id);
        assert(inputs.nodes[u2].id == inputs.nodes[u].id);
        assert(d2 == d && u2 == u && k2 == key);
        lemma_overwritten(inputs, prepared, key, d, u, over, at, before);
    }
}

proof fn lemma_overwritten(
    inputs: UseDefInputs,
    prepared: Prepared,
    key: u64,
    d: int,
    u: int,
    over: int,
    at: usize,
    before: usize,
)
    requires
        are_definition_and_use(inputs, key, d, u),
        are_definition_and_use(inputs, key, over, u),
        inputs.nodes[u].range.start_byte < u32::MAX,
        forall|j: int|
            0 <= j < inputs.nodes.len() && (#[trigger] inputs.nodes[j]).id == inputs.nodes[d].id
                ==> j == d,
        owner_rows(inputs.cfg, rows_of(inputs, key), inputs.nodes[u]) == seq![at],
        owner_rows(inputs.cfg, rows_of(inputs, key), inputs.nodes[d]).len() > 0,
        !owner_rows(inputs.cfg, rows_of(inputs, key), inputs.nodes[d]).contains(before),
        forall|j: int|
            0 <= j < inputs.nodes.len() && inputs.keys[j] == Some(key) && (inputs.nodes[j].kind
                == DataNodeKind::Local || inputs.nodes[j].kind == DataNodeKind::Parameter
                || inputs.nodes[j].kind == DataNodeKind::CallOutput) ==> !owner_rows(
                inputs.cfg,
                rows_of(inputs, key),
                #[trigger] inputs.nodes[j],
            ).contains(at),
        comes_only_after(inputs.cfg, at, before),
        owner_rows(inputs.cfg, rows_of(inputs, key), inputs.nodes[over]).contains(before),
        inputs.nodes[over].kind != DataNodeKind::Parameter,
        is_definite(
            inputs,
            variable_of(inputs, group_nodes(inputs, key, inputs.nodes.len())),
            inputs.nodes[over],
            before,
        ),
    ensures
        !may_reach(
            inputs,
            prepared,
            variable_of(inputs, group_nodes(inputs, key, inputs.nodes.len())),
            inputs.nodes[d],
            inputs.nodes[u],
        ),
{
    let cfg = inputs.cfg;
    let read = inputs.nodes[u];
    let id = inputs.nodes[d].id;
    let nodes = group_nodes(inputs, key, inputs.nodes.len());
    let variable = variable_of(inputs, nodes);
    let count = variable.definitions.len();
    let writes = written(inputs, prepared, variable, count);
    let owners = owner_rows(cfg, variable.rows, read);
    let places = read_places(prepared.entered, owners, read);
    let is_definition = |n: DataNode| defines(n.kind);
    lemma_group_of_variable(inputs, key, inputs.nodes.len());
    lemma_filtered_of_variable(inputs, key, nodes, is_definition);
    assert(variable.definitions == nodes.filter(is_definition));
    assert(owners.len() == 1);
    if may_reach(inputs, prepared, variable, inputs.nodes[d], read) {
        let trail = choose|trail: Seq<(usize, u32, bool)>| #[trigger]
            is_trail(cfg, prepared.entered, prepared.first, writes, read, places, trail)
                && taken_at(prepared.first, writes, read, trail.last()).0.contains(id);
        assert(trail[0].0 == at) by {
            assert(places.contains(trail[0]));
            let p = choose|p: int| 0 <= p < places.len() && places[p] == trail[0];
            let keep = |row: usize| prepared.entered.contains(row);
            let kept = owners.filter(keep);
            assert(kept[p] == trail[0].0);
            assert(kept.contains(kept[p]));
            owners.lemma_filter_contains_rev(keep, kept[p]);
            assert(owners.contains(kept[p]));
        }
        assert(only_at(inputs, variable, at, None)) by {
            assert forall|q: int|
                0 <= q < variable.definitions.len() && owner_rows(
                    cfg,
                    variable.rows,
                    variable.definitions[q],
                ).contains(at) implies Some((#[trigger] variable.definitions[q]).id)
                == None::<DataNodeId> by {
                assert(is_of_variable(inputs, key, nodes.filter(is_definition)[q]));
                assert(is_definition(nodes.filter(is_definition)[q]));
                let j = choose|j: int|
                    0 <= j < inputs.nodes.len() && inputs.keys[j] == Some(key)
                        && #[trigger] inputs.nodes[j] == variable.definitions[q];
                assert(inputs.nodes[j] == variable.definitions[q]);
            }
        }
        lemma_writes_only(inputs, prepared, variable, at, None);
        let here = writes_at(writes, at);
        if here.len() > 0 {
            assert(Some(here[0].id) == None::<DataNodeId>);
        }
        assert(here.len() == 0);
        assert(trail.len() > 1) by {
            if trail.len() == 1 {
                assert(trail.last() == trail[0]);
            }
        }
        assert(goes_on(cfg, prepared.entered, prepared.first, writes, read, trail, 0));
        let second = trail[1];
        assert(second == (before, u32::MAX, true)) by {
            let all = rows_before(cfg.nodes@, cfg.edges@, at);
            let keep = |p: (usize, bool)| prepared.entered.contains(p.0);
            let turn = |p: (usize, bool)| (p.0, u32::MAX, p.1);
            let kept = all.filter(keep);
            assert(places_before(cfg, prepared.entered, at) == kept.map_values(turn));
            let p = choose|p: int| 0 <= p < kept.len() && kept.map_values(turn)[p] == second;
            assert(kept.contains(kept[p]));
            all.lemma_filter_contains_rev(keep, kept[p]);
            let b = choose|b: int| 0 <= b < all.len() && all[b] == kept[p];
            lemma_row_before(cfg.nodes@, cfg.edges@, at, b);
            let j = choose|j: int|
                0 <= j < cfg.edges@.len() && joined_rows(cfg.nodes@, #[trigger] cfg.edges@[j])
                    == Some((all[b].0, at, all[b].1));
            assert(row_of(cfg.nodes@, cfg.edges@[j].target) == Some(at));
        }
        lemma_in_group(inputs, key, inputs.nodes.len(), over);
        let g = choose|g: int| 0 <= g < nodes.len() && nodes[g] == inputs.nodes[over];
        nodes.lemma_filter_contains(is_definition, g);
        let q = choose|q: int|
            0 <= q < variable.definitions.len() && variable.definitions[q] == inputs.nodes[over];
        lemma_written_as(inputs, prepared, variable, count, q, before);
        let write = write_of(inputs, prepared, variable, inputs.nodes[over], before);
        let row_is = |w: Write| w.row == before;
        let there = writes.filter(row_is);
        let keys = there.map_values(|w: Write| crate::reaching_defs::write_key(w));
        let w = choose|w: int| 0 <= w < writes.len() && writes[w] == write;
        writes.lemma_filter_contains(row_is, w);
        lemma_in_order_keeps(there, keys, write);
        let entries = writes_at(writes, before);
        assert(entries == in_order(there, keys));
        let e = choose|e: int| 0 <= e < entries.len() && entries[e] == write;
        lemma_replaces(read, prepared.first, entries, e);
        assert(taken_at(prepared.first, writes, read, second).1);
        if trail.len() > 2 {
            assert(goes_on(cfg, prepared.entered, prepared.first, writes, read, trail, 1));
        }
        assert(trail.last() == second);
        lemma_taken_is_written(read, prepared.first, entries, u32::MAX, true, id);
        let x = choose|x: int| 0 <= x < entries.len() && (#[trigger] entries[x]).id == id;
        lemma_in_order_member(there, keys, x);
        let y = choose|y: int| 0 <= y < there.len() && #[trigger] there[y] == entries[x];
        writes.lemma_filter_pred(row_is, y);
        assert(there.contains(there[y]));
        writes.lemma_filter_contains_rev(row_is, there[y]);
        let z = choose|z: int| 0 <= z < writes.len() && writes[z] == there[y];
        lemma_written_by(inputs, prepared, variable, count, z);
        let v = choose|v: int| #[trigger] is_written_by(inputs, variable, count, writes[z], v);
        assert(is_of_variable(inputs, key, nodes.filter(is_definition)[v]));
        let j = choose|j: int|
            0 <= j < inputs.nodes.len() && inputs.keys[j] == Some(key) && #[trigger] inputs.nodes[j]
                == variable.definitions[v];
        assert(inputs.nodes[j].id == id);
        assert(j == d);
    }
}

} // verus!
