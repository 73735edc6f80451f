//! An adjacency-list view of a function's control-flow graph.
//!
//! Built from node and edge slices. Gives traversal in both directions, the set
//! of nodes that the function can enter, and the branch edges that every path to
//! a selection has to take.

use crate::collections::{in_order, key_views, ordered_rows, ordered_rows_is_a_permutation};
use crate::collections::{lemma_filter_step, stable_order, IdMap, IdSet};
use crate::facts::{CfgEdge, CfgEdgeKind, CfgNode, CfgNodeKind};
use crate::ids::{CfgEdgeId, CfgNodeId};
use vstd::prelude::*;

verus! {

/// Boolean edges that are needed to reach any selected occurrence in a graph.
/// This describes the supplied graph, not feasibility or complete program
/// behavior.
#[derive(Debug)]
pub struct RequiredBranches {
    pub edges: Vec<CfgEdge>,
    pub target_reachable: bool,
    pub truncated: bool,
}

/// An adjacency-list view of a function's control-flow graph.
#[derive(Debug)]
pub struct CfgGraph {
    pub nodes: IdMap<CfgNodeId, CfgNode>,
    /// Outgoing edges from each node.
    pub successors: IdMap<CfgNodeId, Vec<CfgEdge>>,
    /// Incoming edges to each node.
    pub predecessors: IdMap<CfgNodeId, Vec<CfgEdge>>,
    /// The only entry node.
    pub entry: CfgNodeId,
    /// The only exit node.
    pub exit: CfgNodeId,
}

/// Why nodes and edges do not make a graph.
#[derive(Clone, Copy, PartialEq, Eq, Structural, Debug)]
pub enum CfgGraphError {
    /// An edge leaves a node that is not there.
    SourceMissing(CfgNodeId),
    /// An edge enters a node that is not there.
    TargetMissing(CfgNodeId),
    /// There is no entry node.
    NoEntry,
    /// There are several entry nodes.
    ManyEntries,
    /// There is no exit node.
    NoExit,
    /// There are several exit nodes.
    ManyExits,
}

/// The analysis was stopped by its caller.
#[derive(Clone, Copy, PartialEq, Eq, Structural, Debug)]
pub struct Canceled;

/// The lists of a map, by value.
pub open spec fn lists<K, T>(map: Map<K, Vec<T>>) -> Map<K, Seq<T>> {
    map.map_values(|list: Vec<T>| list@)
}

/// The list of a key; an absent key has no items.
pub open spec fn list_at<K, T>(map: Map<K, Vec<T>>, key: K) -> Seq<T> {
    if map.dom().contains(key) {
        map[key]@
    } else {
        Seq::empty()
    }
}

/// The nodes by identity; a later node takes the place of an earlier one.
pub open spec fn node_map(nodes: Seq<CfgNode>) -> Map<CfgNodeId, CfgNode>
    decreases nodes.len(),
{
    if nodes.len() == 0 {
        Map::empty()
    } else {
        node_map(nodes.drop_last()).insert(nodes.last().id, nodes.last())
    }
}

/// Whether a node has this identity.
pub open spec fn has_node(nodes: Seq<CfgNode>, id: CfgNodeId) -> bool {
    exists|i: int| 0 <= i < nodes.len() && (#[trigger] nodes[i]).id == id
}

/// Whether there is a node of a kind.
pub open spec fn has_kind(nodes: Seq<CfgNode>, kind: CfgNodeKind) -> bool {
    exists|i: int| 0 <= i < nodes.len() && (#[trigger] nodes[i]).kind == kind
}

/// Whether there are several nodes of a kind.
pub open spec fn has_several(nodes: Seq<CfgNode>, kind: CfgNodeKind) -> bool {
    exists|i: int, j: int|
        0 <= i < j < nodes.len() && (#[trigger] nodes[i]).kind == kind && (
        #[trigger] nodes[j]).kind == kind
}

/// Whether a node is the only one of a kind.
pub open spec fn is_only(nodes: Seq<CfgNode>, kind: CfgNodeKind, i: int) -> bool {
    &&& 0 <= i < nodes.len()
    &&& nodes[i].kind == kind
    &&& forall|j: int| 0 <= j < nodes.len() && (#[trigger] nodes[j]).kind == kind ==> j == i
}

/// Whether exactly one node has a kind, and this identity.
pub open spec fn has_only(nodes: Seq<CfgNode>, kind: CfgNodeKind, id: CfgNodeId) -> bool {
    exists|i: int| #[trigger] is_only(nodes, kind, i) && nodes[i].id == id
}

/// What is wrong with the first edge that leaves or enters a missing node.
pub open spec fn first_dangling(nodes: Seq<CfgNode>, edges: Seq<CfgEdge>) -> Option<CfgGraphError>
    decreases edges.len(),
{
    if edges.len() == 0 {
        None
    } else if !has_node(nodes, edges[0].source) {
        Some(CfgGraphError::SourceMissing(edges[0].source))
    } else if !has_node(nodes, edges[0].target) {
        Some(CfgGraphError::TargetMissing(edges[0].target))
    } else {
        first_dangling(nodes, edges.drop_first())
    }
}

/// Why these nodes and edges do not make a graph.
pub open spec fn build_error(nodes: Seq<CfgNode>, edges: Seq<CfgEdge>) -> Option<CfgGraphError> {
    match first_dangling(nodes, edges) {
        Some(error) => Some(error),
        None => if !has_kind(nodes, CfgNodeKind::Entry) {
            Some(CfgGraphError::NoEntry)
        } else if has_several(nodes, CfgNodeKind::Entry) {
            Some(CfgGraphError::ManyEntries)
        } else if !has_kind(nodes, CfgNodeKind::Exit) {
            Some(CfgGraphError::NoExit)
        } else if has_several(nodes, CfgNodeKind::Exit) {
            Some(CfgGraphError::ManyExits)
        } else {
            None
        },
    }
}

/// The edges that leave a node, in the order in which they were given.
pub open spec fn leaving(edges: Seq<CfgEdge>, id: CfgNodeId) -> Seq<CfgEdge> {
    edges.filter(|e: CfgEdge| e.source == id)
}

/// The edges that enter a node, in the order in which they were given.
pub open spec fn entering(edges: Seq<CfgEdge>, id: CfgNodeId) -> Seq<CfgEdge> {
    edges.filter(|e: CfgEdge| e.target == id)
}

/// Whether an edge is one side of a branch.
pub open spec fn is_branch(edge: CfgEdge) -> bool {
    edge.kind == CfgEdgeKind::TrueBranch || edge.kind == CfgEdgeKind::FalseBranch
}

proof fn lemma_node_map(nodes: Seq<CfgNode>)
    ensures
        forall|id: CfgNodeId| #[trigger]
            node_map(nodes).dom().contains(id) <==> has_node(nodes, id),
    decreases nodes.len(),
{
    if nodes.len() > 0 {
        let shorter = nodes.drop_last();
        lemma_node_map(shorter);
        assert forall|id: CfgNodeId| #[trigger]
            node_map(nodes).dom().contains(id) <==> has_node(nodes, id) by {
            if has_node(shorter, id) {
                let i = choose|i: int| 0 <= i < shorter.len() && (#[trigger] shorter[i]).id == id;
                assert(nodes[i].id == id);
            }
            assert(nodes[nodes.len() - 1] == nodes.last());
            assert(node_map(shorter).dom().contains(id) <==> has_node(shorter, id));
            if has_node(nodes, id) && id != nodes.last().id {
                let i = choose|i: int| 0 <= i < nodes.len() && (#[trigger] nodes[i]).id == id;
                assert(shorter[i].id == id);
            }
            if id == nodes.last().id {
                assert(nodes[nodes.len() - 1].id == id);
            }
        }
    }
}

/// Add an item to the list of a key.
fn push_item<T>(map: &mut IdMap<CfgNodeId, Vec<T>>, key: CfgNodeId, item: T) where T: Copy
    ensures
        lists(final(map)@) == lists(old(map)@).insert(key, list_at(old(map)@, key).push(item)),
        final(map).order() == if old(map)@.dom().contains(key) {
            old(map).order()
        } else {
            old(map).order().push(key)
        },
{
    let mut list: Vec<T> = Vec::new();
    let ghost before = map@;
    match map.get(&key) {
        None => {},
        Some(held) => {
            let mut i: usize = 0;
            while i < held.len()
                invariant
                    i <= held@.len(),
                    list@ == held@.take(i as int),
                decreases held@.len() - i,
            {
                list.push(held[i]);
                assert(held@.take(i + 1) =~= held@.take(i as int).push(held@[i as int]));
                i += 1;
            }
            assert(held@.take(i as int) =~= held@);
        },
    }
    list.push(item);
    map.insert(key, list);
    assert(lists(map@) =~= lists(before).insert(key, list_at(before, key).push(item)));
}

/// What a search for the only node of a kind finds.
enum Only {
    Nothing,
    One(CfgNodeId),
    Several,
}

fn find_only(nodes: &[CfgNode], kind: CfgNodeKind) -> (r: Only)
    ensures
        match r {
            Only::Nothing => !has_kind(nodes@, kind),
            Only::One(id) => {
                &&& has_kind(nodes@, kind)
                &&& !has_several(nodes@, kind)
                &&& has_only(nodes@, kind, id)
            },
            Only::Several => has_kind(nodes@, kind) && has_several(nodes@, kind),
        },
{
    let mut found: Option<usize> = None;
    let mut i: usize = 0;
    while i < nodes.len()
        invariant
            i <= nodes@.len(),
            match found {
                None => forall|k: int| 0 <= k < i ==> (#[trigger] nodes@[k]).kind != kind,
                Some(at) => at < i && nodes@[at as int].kind == kind && forall|k: int|
                    0 <= k < i && (#[trigger] nodes@[k]).kind == kind ==> k == at,
            },
        decreases nodes@.len() - i,
    {
        if nodes[i].kind == kind {
            if let Some(at) = found {
                assert(nodes@[at as int].kind == kind && nodes@[i as int].kind == kind);
                return Only::Several;
            }
            found = Some(i);
        }
        i += 1;
    }
    match found {
        None => Only::Nothing,
        Some(at) => {
            assert(is_only(nodes@, kind, at as int));
            Only::One(nodes[at].id)
        },
    }
}

impl CfgGraph {
    /// Every outgoing edge leaves a node of the graph.
    pub open spec fn wf(&self) -> bool {
        forall|id: CfgNodeId, i: int|
            0 <= i < self.out(id).len() ==> self.nodes@.dom().contains(
                (#[trigger] self.out(id)[i]).source,
            )
    }

    /// The outgoing edges of a node.
    pub open spec fn out(&self, id: CfgNodeId) -> Seq<CfgEdge> {
        list_at(self.successors@, id)
    }

    /// The nodes that can follow a node when one edge is left out.
    pub open spec fn next(&self, id: CfgNodeId, omitted: Option<CfgEdgeId>) -> Seq<CfgNodeId> {
        self.out(id).filter(|e: CfgEdge| Some(e.id) != omitted).map_values(|e: CfgEdge| e.target)
    }

    /// Whether the nodes of a path follow one another when one edge is left out.
    pub open spec fn is_path(&self, path: Seq<CfgNodeId>, omitted: Option<CfgEdgeId>) -> bool {
        &&& path.len() > 0
        &&& forall|i: int|
            0 < i < path.len() ==> self.next(path[i - 1], omitted).contains(#[trigger] path[i])
    }

    /// Whether a path that does not take the omitted edge leads from the entry to
    /// a node.
    pub open spec fn reaches(&self, id: CfgNodeId, omitted: Option<CfgEdgeId>) -> bool {
        exists|path: Seq<CfgNodeId>| #[trigger]
            self.is_path(path, omitted) && path[0] == self.entry && path.last() == id
    }

    /// Whether a path that does not take the omitted edge leads from the entry to
    /// a member of a set.
    pub open spec fn reaches_set(
        &self,
        targets: Set<CfgNodeId>,
        omitted: Option<CfgEdgeId>,
    ) -> bool {
        exists|id: CfgNodeId| targets.contains(id) && #[trigger] self.reaches(id, omitted)
    }

    /// A breadth-first search with a bound on the nodes taken up: whether it
    /// meets a target, `None` where the bound ends it, and what is left of the
    /// bound.
    pub open spec fn search(
        &self,
        targets: Set<CfgNodeId>,
        omitted: Option<CfgEdgeId>,
        pending: Seq<CfgNodeId>,
        visited: Set<CfgNodeId>,
        remaining: nat,
    ) -> (Option<bool>, nat)
        decreases remaining,
    {
        if pending.len() == 0 {
            (Some(false), remaining)
        } else if remaining == 0 {
            (None, 0)
        } else {
            let id = pending[0];
            let rest = pending.drop_first();
            let left = (remaining - 1) as nat;
            if visited.contains(id) {
                self.search(targets, omitted, rest, visited, left)
            } else if targets.contains(id) {
                (Some(true), left)
            } else {
                self.search(
                    targets,
                    omitted,
                    rest + self.next(id, omitted),
                    visited.insert(id),
                    left,
                )
            }
        }
    }

    /// The search that starts at the entry.
    pub open spec fn search_from_entry(
        &self,
        targets: Set<CfgNodeId>,
        omitted: Option<CfgEdgeId>,
        remaining: nat,
    ) -> (Option<bool>, nat) {
        self.search(targets, omitted, seq![self.entry], Set::empty(), remaining)
    }

    /// The branch edges of some nodes.
    pub open spec fn branches_of(&self, ids: Seq<CfgNodeId>) -> Seq<CfgEdge>
        decreases ids.len(),
    {
        if ids.len() == 0 {
            Seq::empty()
        } else {
            self.branches_of(ids.drop_last()) + self.out(ids.last()).filter(
                |e: CfgEdge| is_branch(e),
            )
        }
    }

    /// Branch edges come in the order of where their node starts, then of their
    /// identity.
    pub open spec fn branch_key(&self, edge: CfgEdge) -> Seq<u128> {
        seq![
            self.nodes@[edge.source].stmt_range.start_byte as u128,
            edge.id.0.hi,
            edge.id.0.lo,
        ]
    }

    /// The branch edges of the graph in their order.
    pub open spec fn sorted_branches(&self) -> Seq<CfgEdge> {
        let all = self.branches_of(self.successors.order());
        in_order(all, all.map_values(|e: CfgEdge| self.branch_key(e)))
    }

    /// The branches without which no target is met, tried one after the other on
    /// one bound, and whether the bound ended the trial.
    pub open spec fn required(
        &self,
        targets: Set<CfgNodeId>,
        branches: Seq<CfgEdge>,
        remaining: nat,
    ) -> (Seq<CfgEdge>, bool)
        decreases branches.len(),
    {
        if branches.len() == 0 {
            (Seq::empty(), false)
        } else {
            let (met, left) = self.search_from_entry(targets, Some(branches[0].id), remaining);
            match met {
                None => (Seq::empty(), true),
                Some(found) => {
                    let (rest, truncated) = self.required(targets, branches.drop_first(), left);
                    (
                        if found {
                            rest
                        } else {
                            seq![branches[0]] + rest
                        },
                        truncated,
                    )
                },
            }
        }
    }

    /// What the analysis of required branches finds: the edges, whether a target
    /// is reachable, and whether the bound ended it.
    pub open spec fn required_branches_spec(
        &self,
        targets: Set<CfgNodeId>,
        unexamined: Set<CfgNodeId>,
        max_visits: nat,
    ) -> (Seq<CfgEdge>, bool, bool) {
        let (met, left) = self.search_from_entry(targets, None, max_visits);
        match met {
            None => (Seq::empty(), false, true),
            Some(false) => (Seq::empty(), false, false),
            Some(true) => {
                let (edges, truncated) = self.required(
                    targets.union(unexamined),
                    self.sorted_branches(),
                    left,
                );
                (edges, true, truncated)
            },
        }
    }

    /// The number of edges that the unvisited nodes still have to offer.
    pub open spec fn open_edges(
        &self,
        ids: Seq<CfgNodeId>,
        visited: Set<CfgNodeId>,
        omitted: Option<CfgEdgeId>,
    ) -> nat
        decreases ids.len(),
    {
        if ids.len() == 0 {
            0
        } else {
            self.open_edges(ids.drop_last(), visited, omitted) + if visited.contains(ids.last()) {
                0
            } else {
                self.next(ids.last(), omitted).len()
            }
        }
    }

    proof fn lemma_open_edges(
        &self,
        ids: Seq<CfgNodeId>,
        visited: Set<CfgNodeId>,
        omitted: Option<CfgEdgeId>,
        id: CfgNodeId,
    )
        requires
            ids.no_duplicates(),
            !visited.contains(id),
        ensures
            self.open_edges(ids, visited, omitted) == self.open_edges(
                ids,
                visited.insert(id),
                omitted,
            ) + if ids.contains(id) {
                self.next(id, omitted).len()
            } else {
                0
            },
        decreases ids.len(),
    {
        if ids.len() > 0 {
            let shorter = ids.drop_last();
            self.lemma_open_edges(shorter, visited, omitted, id);
            if ids.last() == id {
                assert(ids[ids.len() - 1] == id);
                assert(!shorter.contains(id)) by {
                    if shorter.contains(id) {
                        let i = choose|i: int| 0 <= i < shorter.len() && shorter[i] == id;
                        assert(ids[i] == id);
                    }
                }
            } else {
                assert(ids.contains(id) <==> shorter.contains(id)) by {
                    if ids.contains(id) {
                        let i = choose|i: int| 0 <= i < ids.len() && ids[i] == id;
                        assert(shorter[i] == id);
                    }
                    if shorter.contains(id) {
                        let i = choose|i: int| 0 <= i < shorter.len() && shorter[i] == id;
                        assert(ids[i] == id);
                    }
                }
            }
        }
    }

    proof fn lemma_next_of_unknown(&self, id: CfgNodeId, omitted: Option<CfgEdgeId>)
        requires
            !self.successors@.dom().contains(id),
        ensures
            self.next(id, omitted).len() == 0,
    {
        reveal(Seq::filter);
    }

    proof fn lemma_reaches_step(&self, from: CfgNodeId, to: CfgNodeId, omitted: Option<CfgEdgeId>)
        requires
            self.reaches(from, omitted),
            self.next(from, omitted).contains(to),
        ensures
            self.reaches(to, omitted),
    {
        let path = choose|path: Seq<CfgNodeId>| #[trigger]
            self.is_path(path, omitted) && path[0] == self.entry && path.last() == from;
        let longer = path.push(to);
        assert forall|i: int| 0 < i < longer.len() implies self.next(
            longer[i - 1],
            omitted,
        ).contains(#[trigger] longer[i]) by {
            if i < path.len() {
                assert(self.next(path[i - 1], omitted).contains(path[i]));
            }
        }
        assert(self.is_path(longer, omitted));
    }

    proof fn lemma_reaches_entry(&self, omitted: Option<CfgEdgeId>)
        ensures
            self.reaches(self.entry, omitted),
    {
        let path = seq![self.entry];
        assert(self.is_path(path, omitted));
    }

    /// What holds while a search runs: what it has seen is reachable and closed up
    /// to what is pending, and no target is among it.
    pub open spec fn searching(
        &self,
        targets: Set<CfgNodeId>,
        omitted: Option<CfgEdgeId>,
        pending: Seq<CfgNodeId>,
        visited: Set<CfgNodeId>,
    ) -> bool {
        &&& visited.contains(self.entry) || pending.contains(self.entry)
        &&& forall|id: CfgNodeId| #[trigger]
            visited.contains(id) ==> !targets.contains(id) && self.reaches(id, omitted)
        &&& forall|id: CfgNodeId| #[trigger] pending.contains(id) ==> self.reaches(id, omitted)
        &&& forall|id: CfgNodeId, to: CfgNodeId|
            visited.contains(id) && #[trigger] self.next(id, omitted).contains(to)
                ==> visited.contains(to) || pending.contains(to)
    }

    proof fn lemma_closed(
        &self,
        omitted: Option<CfgEdgeId>,
        visited: Set<CfgNodeId>,
        path: Seq<CfgNodeId>,
    )
        requires
            visited.contains(self.entry),
            forall|id: CfgNodeId, to: CfgNodeId|
                visited.contains(id) && #[trigger] self.next(id, omitted).contains(to)
                    ==> visited.contains(to),
            self.is_path(path, omitted),
            path[0] == self.entry,
        ensures
            visited.contains(path.last()),
        decreases path.len(),
    {
        if path.len() > 1 {
            let shorter = path.drop_last();
            assert forall|i: int| 0 < i < shorter.len() implies self.next(
                shorter[i - 1],
                omitted,
            ).contains(#[trigger] shorter[i]) by {
                assert(self.next(path[i - 1], omitted).contains(path[i]));
            }
            self.lemma_closed(omitted, visited, shorter);
            assert(self.next(path[path.len() - 2], omitted).contains(path[path.len() - 1]));
        }
    }

    proof fn lemma_searching_step(
        &self,
        targets: Set<CfgNodeId>,
        omitted: Option<CfgEdgeId>,
        pending: Seq<CfgNodeId>,
        visited: Set<CfgNodeId>,
    )
        requires
            self.searching(targets, omitted, pending, visited),
            pending.len() > 0,
        ensures
            self.reaches(pending[0], omitted),
            visited.contains(pending[0]) ==> self.searching(
                targets,
                omitted,
                pending.drop_first(),
                visited,
            ),
            !visited.contains(pending[0]) && !targets.contains(pending[0]) ==> self.searching(
                targets,
                omitted,
                pending.drop_first() + self.next(pending[0], omitted),
                visited.insert(pending[0]),
            ),
    {
        let id = pending[0];
        assert(pending.contains(id));
        let rest = pending.drop_first();
        assert forall|other: CfgNodeId| #[trigger] pending.contains(other) implies other == id
            || rest.contains(other) by {
            let i = choose|i: int| 0 <= i < pending.len() && pending[i] == other;
            if i > 0 {
                assert(rest[i - 1] == other);
            }
        }
        assert forall|other: CfgNodeId| #[trigger] rest.contains(other) implies pending.contains(
            other,
        ) by {
            let i = choose|i: int| 0 <= i < rest.len() && rest[i] == other;
            assert(pending[i + 1] == other);
        }
        if !visited.contains(id) && !targets.contains(id) {
            let following = self.next(id, omitted);
            let longer = rest + following;
            assert forall|other: CfgNodeId| #[trigger] longer.contains(other) implies rest.contains(
                other,
            ) || following.contains(other) by {
                let i = choose|i: int| 0 <= i < longer.len() && longer[i] == other;
                if i < rest.len() {
                    assert(rest[i] == other);
                } else {
                    assert(following[i - rest.len()] == other);
                }
            }
            assert forall|other: CfgNodeId|
                rest.contains(other) || following.contains(other) implies #[trigger] longer.contains(
                other,
            ) by {
                if rest.contains(other) {
                    let i = choose|i: int| 0 <= i < rest.len() && rest[i] == other;
                    assert(longer[i] == other);
                } else {
                    let i = choose|i: int| 0 <= i < following.len() && following[i] == other;
                    assert(longer[rest.len() + i] == other);
                }
            }
            assert forall|other: CfgNodeId| #[trigger] longer.contains(other) implies self.reaches(
                other,
                omitted,
            ) by {
                if following.contains(other) {
                    self.lemma_reaches_step(id, other, omitted);
                }
            }
        }
    }

    proof fn lemma_search(
        &self,
        targets: Set<CfgNodeId>,
        omitted: Option<CfgEdgeId>,
        pending: Seq<CfgNodeId>,
        visited: Set<CfgNodeId>,
        remaining: nat,
    )
        requires
            self.searching(targets, omitted, pending, visited),
        ensures
            match self.search(targets, omitted, pending, visited, remaining).0 {
                None => self.search(targets, omitted, pending, visited, remaining).1 == 0,
                Some(found) => found == self.reaches_set(targets, omitted),
            },
        decreases remaining,
    {
        if pending.len() == 0 {
            assert forall|id: CfgNodeId| targets.contains(id) implies !#[trigger] self.reaches(
                id,
                omitted,
            ) by {
                if self.reaches(id, omitted) {
                    let path = choose|path: Seq<CfgNodeId>| #[trigger]
                        self.is_path(path, omitted) && path[0] == self.entry && path.last() == id;
                    self.lemma_closed(omitted, visited, path);
                }
            }
        } else if remaining > 0 {
            self.lemma_searching_step(targets, omitted, pending, visited);
            let id = pending[0];
            let rest = pending.drop_first();
            let left = (remaining - 1) as nat;
            if visited.contains(id) {
                self.lemma_search(targets, omitted, rest, visited, left);
            } else if !targets.contains(id) {
                self.lemma_search(
                    targets,
                    omitted,
                    rest + self.next(id, omitted),
                    visited.insert(id),
                    left,
                );
            }
        }
    }

    proof fn lemma_search_bound(
        &self,
        targets: Set<CfgNodeId>,
        omitted: Option<CfgEdgeId>,
        pending: Seq<CfgNodeId>,
        visited: Set<CfgNodeId>,
        remaining: nat,
        ids: Seq<CfgNodeId>,
    )
        requires
            ids.no_duplicates(),
            ids.to_set() == self.successors@.dom(),
            remaining >= pending.len() + self.open_edges(ids, visited, omitted),
        ensures
            self.search(targets, omitted, pending, visited, remaining).0 is Some,
        decreases remaining,
    {
        if pending.len() > 0 {
            let id = pending[0];
            let rest = pending.drop_first();
            let left = (remaining - 1) as nat;
            if visited.contains(id) {
                self.lemma_search_bound(targets, omitted, rest, visited, left, ids);
            } else if !targets.contains(id) {
                self.lemma_open_edges(ids, visited, omitted, id);
                if !ids.contains(id) {
                    assert(!ids.to_set().contains(id));
                    self.lemma_next_of_unknown(id, omitted);
                }
                self.lemma_search_bound(
                    targets,
                    omitted,
                    rest + self.next(id, omitted),
                    visited.insert(id),
                    left,
                    ids,
                );
            }
        }
    }

    proof fn lemma_starts(&self, targets: Set<CfgNodeId>, omitted: Option<CfgEdgeId>)
        ensures
            self.searching(targets, omitted, seq![self.entry], Set::empty()),
    {
        let pending = seq![self.entry];
        assert(pending[0] == self.entry);
        self.lemma_reaches_entry(omitted);
    }

    /// A search that its bound does not end says whether a target is reachable.
    pub proof fn search_decides_reachability(
        &self,
        targets: Set<CfgNodeId>,
        omitted: Option<CfgEdgeId>,
        remaining: nat,
    )
        ensures
            match self.search_from_entry(targets, omitted, remaining).0 {
                None => self.search_from_entry(targets, omitted, remaining).1 == 0,
                Some(found) => found == self.reaches_set(targets, omitted),
            },
    {
        self.lemma_starts(targets, omitted);
        self.lemma_search(targets, omitted, seq![self.entry], Set::empty(), remaining);
    }

    /// A bound of one visit for the entry and one for each edge never ends a
    /// search.
    pub proof fn search_is_complete_within_its_edges(
        &self,
        targets: Set<CfgNodeId>,
        omitted: Option<CfgEdgeId>,
        remaining: nat,
        ids: Seq<CfgNodeId>,
    )
        requires
            ids.no_duplicates(),
            ids.to_set() == self.successors@.dom(),
            remaining >= 1 + self.open_edges(ids, Set::empty(), omitted),
        ensures
            self.search_from_entry(targets, omitted, remaining).0 == Some(
                self.reaches_set(targets, omitted),
            ),
    {
        self.lemma_search_bound(
            targets,
            omitted,
            seq![self.entry],
            Set::empty(),
            remaining,
            ids,
        );
        self.search_decides_reachability(targets, omitted, remaining);
    }

    proof fn lemma_required(
        &self,
        targets: Set<CfgNodeId>,
        branches: Seq<CfgEdge>,
        remaining: nat,
    )
        ensures
            forall|e: CfgEdge| #[trigger]
                self.required(targets, branches, remaining).0.contains(e) ==> branches.contains(e)
                    && !self.reaches_set(targets, Some(e.id)),
            !self.required(targets, branches, remaining).1 ==> forall|e: CfgEdge| #[trigger]
                branches.contains(e) && !self.reaches_set(targets, Some(e.id)) ==> self.required(
                    targets,
                    branches,
                    remaining,
                ).0.contains(e),
        decreases branches.len(),
    {
        let result = self.required(targets, branches, remaining);
        if branches.len() > 0 {
            let (met, left) = self.search_from_entry(targets, Some(branches[0].id), remaining);
            self.search_decides_reachability(targets, Some(branches[0].id), remaining);
            if met is Some {
                let rest = branches.drop_first();
                self.lemma_required(targets, rest, left);
                let (tail, truncated) = self.required(targets, rest, left);
                assert forall|e: CfgEdge| #[trigger] result.0.contains(e) implies branches.contains(
                    e,
                ) && !self.reaches_set(targets, Some(e.id)) by {
                    let i = choose|i: int| 0 <= i < result.0.len() && result.0[i] == e;
                    if met == Some(true) {
                        assert(tail.contains(e));
                    } else if i == 0 {
                        assert(branches[0] == e);
                    } else {
                        assert(tail[i - 1] == e);
                        assert(tail.contains(e));
                    }
                    if tail.contains(e) {
                        let j = choose|j: int| 0 <= j < rest.len() && rest[j] == e;
                        assert(branches[j + 1] == e);
                    }
                }
                if !truncated {
                    assert forall|e: CfgEdge| #[trigger]
                        branches.contains(e) && !self.reaches_set(
                            targets,
                            Some(e.id),
                        ) implies result.0.contains(e) by {
                        let j = choose|j: int| 0 <= j < branches.len() && branches[j] == e;
                        if j == 0 {
                            assert(result.0[0] == e);
                        } else {
                            assert(rest[j - 1] == e);
                            assert(rest.contains(e));
                            let i = choose|i: int| 0 <= i < tail.len() && tail[i] == e;
                            if met == Some(true) {
                                assert(result.0[i] == e);
                            } else {
                                assert(result.0[i + 1] == e);
                            }
                        }
                    }
                }
            }
        }
    }

    proof fn lemma_branches_of(&self, ids: Seq<CfgNodeId>)
        ensures
            forall|e: CfgEdge| #[trigger]
                self.branches_of(ids).contains(e) <==> is_branch(e) && exists|id: CfgNodeId|
                    ids.contains(id) && #[trigger] self.out(id).contains(e),
        decreases ids.len(),
    {
        broadcast use vstd::seq_lib::group_filter_ensures;

        if ids.len() > 0 {
            let shorter = ids.drop_last();
            self.lemma_branches_of(shorter);
            let kept = self.out(ids.last()).filter(|e: CfgEdge| is_branch(e));
            let before = self.branches_of(shorter);
            let all = self.branches_of(ids);
            assert forall|e: CfgEdge| #[trigger]
                self.branches_of(ids).contains(e) <==> is_branch(e) && exists|id: CfgNodeId|
                    ids.contains(id) && #[trigger] self.out(id).contains(e) by {
                if all.contains(e) {
                    let i = choose|i: int| 0 <= i < all.len() && all[i] == e;
                    if i < before.len() {
                        assert(before[i] == e);
                        assert(before.contains(e));
                        let id = choose|id: CfgNodeId|
                            shorter.contains(id) && #[trigger] self.out(id).contains(e);
                        let j = choose|j: int| 0 <= j < shorter.len() && shorter[j] == id;
                        assert(ids[j] == id);
                    } else {
                        assert(kept[i - before.len()] == e);
                        assert(kept.contains(e));
                        self.out(ids.last()).lemma_filter_contains_rev(|e: CfgEdge| is_branch(e), e);
                        assert(ids[ids.len() - 1] == ids.last());
                        assert(self.out(ids.last()).contains(e));
                    }
                }
                if is_branch(e) && exists|id: CfgNodeId|
                    ids.contains(id) && #[trigger] self.out(id).contains(e) {
                    let id = choose|id: CfgNodeId|
                        ids.contains(id) && #[trigger] self.out(id).contains(e);
                    let j = choose|j: int| 0 <= j < ids.len() && ids[j] == id;
                    if j < shorter.len() {
                        assert(shorter[j] == id);
                        assert(before.contains(e));
                        let i = choose|i: int| 0 <= i < before.len() && before[i] == e;
                        assert(all[i] == e);
                    } else {
                        let p = choose|p: int|
                            0 <= p < self.out(id).len() && self.out(id)[p] == e;
                        assert(kept.contains(e));
                        let i = choose|i: int| 0 <= i < kept.len() && kept[i] == e;
                        assert(all[before.len() + i] == e);
                    }
                }
            }
        }
    }

    proof fn lemma_sorted_branches(&self)
        ensures
            forall|e: CfgEdge| #[trigger]
                self.sorted_branches().contains(e) <==> self.branches_of(
                    self.successors.order(),
                ).contains(e),
    {
        let all = self.branches_of(self.successors.order());
        let keys = all.map_values(|e: CfgEdge| self.branch_key(e));
        ordered_rows_is_a_permutation(keys, all.len());
        let rows = ordered_rows(keys, all.len());
        let sorted = self.sorted_branches();
        assert forall|e: CfgEdge| #[trigger] sorted.contains(e) <==> all.contains(e) by {
            if sorted.contains(e) {
                let i = choose|i: int| 0 <= i < sorted.len() && sorted[i] == e;
                assert(all[rows[i]] == e);
            }
            if all.contains(e) {
                let i = choose|i: int| 0 <= i < all.len() && all[i] == e;
                assert(rows.contains(i));
                let p = choose|p: int| 0 <= p < rows.len() && rows[p] == i;
                assert(sorted[p] == e);
            }
        }
    }

    /// A branch edge is required exactly when leaving it out disconnects the entry
    /// from every selected occurrence and every unexamined region. Reaching an
    /// unexamined region allows a bypass to any selection, so missing control flow
    /// never makes a branch required. A bound that ends the analysis only leaves
    /// edges out.
    pub proof fn required_means_disconnecting(
        &self,
        targets: Set<CfgNodeId>,
        unexamined: Set<CfgNodeId>,
        max_visits: nat,
    )
        requires
            self.successors.order().to_set() == self.successors@.dom(),
        ensures
            ({
                let (edges, reachable, truncated) = self.required_branches_spec(
                    targets,
                    unexamined,
                    max_visits,
                );
                let everything = targets.union(unexamined);
                &&& reachable ==> self.reaches_set(targets, None)
                &&& !truncated ==> reachable == self.reaches_set(targets, None)
                &&& forall|e: CfgEdge| #[trigger]
                    edges.contains(e) ==> is_branch(e) && (exists|id: CfgNodeId| #[trigger]
                        self.out(id).contains(e)) && !self.reaches_set(everything, Some(e.id))
                &&& !truncated && reachable ==> forall|e: CfgEdge, id: CfgNodeId|
                    is_branch(e) && #[trigger] self.out(id).contains(e) && !self.reaches_set(
                        everything,
                        Some(e.id),
                    ) ==> edges.contains(e)
            }),
    {
        let (met, left) = self.search_from_entry(targets, None, max_visits);
        self.search_decides_reachability(targets, None, max_visits);
        if met == Some(true) {
            let everything = targets.union(unexamined);
            let branches = self.sorted_branches();
            let ids = self.successors.order();
            self.lemma_required(everything, branches, left);
            self.lemma_branches_of(ids);
            self.lemma_sorted_branches();
            let (edges, truncated) = self.required(everything, branches, left);
            assert forall|e: CfgEdge| #[trigger] edges.contains(e) implies is_branch(e) && (exists|
                id: CfgNodeId,
            | #[trigger]
                self.out(id).contains(e)) && !self.reaches_set(everything, Some(e.id)) by {
                assert(branches.contains(e));
                assert(self.branches_of(ids).contains(e));
            }
            if !truncated {
                assert forall|e: CfgEdge, id: CfgNodeId|
                    is_branch(e) && #[trigger] self.out(id).contains(e) && !self.reaches_set(
                        everything,
                        Some(e.id),
                    ) implies edges.contains(e) by {
                    assert(self.successors@.dom().contains(id));
                    assert(ids.to_set().contains(id));
                    assert(ids.contains(id));
                    assert(self.branches_of(ids).contains(e));
                    assert(branches.contains(e));
                }
            }
        }
    }

    /// The branch edges that are needed to reach any of `targets`, tried in the
    /// order of where they start. Each edge is left out in turn; it is needed where
    /// no target and no unexamined node can then be reached. `max_visits` bounds
    /// the nodes taken up by all the searches together.
    pub fn required_branches<F: Fn() -> bool>(
        &self,
        targets: &IdSet<CfgNodeId>,
        unexamined: &IdSet<CfgNodeId>,
        max_visits: usize,
        cancelled: &F,
    ) -> (r: Result<RequiredBranches, Canceled>)
        requires
            self.wf(),
            call_requires(*cancelled, ()),
        ensures
            match r {
                Err(_) => call_ensures(*cancelled, (), true),
                Ok(found) => {
                    &&& (found.edges@, found.target_reachable, found.truncated)
                        == self.required_branches_spec(targets@, unexamined@, max_visits as nat)
                    &&& call_ensures(*cancelled, (), false)
                },
            },
    {
        let mut remaining: usize = max_visits;
        let mut result = RequiredBranches {
            edges: Vec::new(),
            target_reachable: false,
            truncated: false,
        };
        match self.reaches_any(targets, None, &mut remaining, cancelled) {
            Err(stop) => {
                return Err(stop);
            },
            Ok(None) => {
                result.truncated = true;
                return Ok(result);
            },
            Ok(Some(false)) => {
                return Ok(result);
            },
            Ok(Some(true)) => {
                result.target_reachable = true;
            },
        }
        let mut possible = IdSet::of(targets.as_slice());
        let more = unexamined.as_slice();
        let mut i: usize = 0;
        while i < more.len()
            invariant
                i <= more@.len(),
                more@ == unexamined.order(),
                possible@ == targets@.union(more@.take(i as int).to_set()),
            decreases more@.len() - i,
        {
            possible.insert(more[i]);
            assert(possible@ =~= targets@.union(more@.take(i + 1).to_set())) by {
                let shorter = more@.take(i as int);
                let longer = more@.take(i + 1);
                assert(longer =~= shorter.push(more@[i as int]));
                assert forall|k: CfgNodeId| #[trigger]
                    longer.to_set().contains(k) <==> shorter.to_set().contains(k) || k
                        == more@[i as int] by {
                    if longer.contains(k) {
                        let at = choose|at: int| 0 <= at < longer.len() && longer[at] == k;
                        if at < i {
                            assert(shorter[at] == k);
                        }
                    }
                    if shorter.contains(k) {
                        let at = choose|at: int| 0 <= at < shorter.len() && shorter[at] == k;
                        assert(longer[at] == k);
                    }
                    assert(longer[i as int] == more@[i as int]);
                }
            }
            i += 1;
        }
        assert(more@.take(i as int) =~= more@);
        assert(possible@ =~= targets@.union(unexamined@));
        let branches = self.sorted();
        let ghost all = branches@;
        let ghost found = self.required(possible@, all, remaining as nat);
        assert(all.skip(0) =~= all);
        assert(result.edges@ + found.0 =~= found.0);
        let mut i: usize = 0;
        while i < branches.len()
            invariant_except_break
                !result.truncated,
                self.required(possible@, all.skip(i as int), remaining as nat).1 == found.1,
                result.edges@ + self.required(possible@, all.skip(i as int), remaining as nat).0
                    == found.0,
            invariant
                result.target_reachable,
                i <= branches@.len(),
                branches@ == all,
                call_requires(*cancelled, ()),
                call_ensures(*cancelled, (), false),
            ensures
                result.edges@ == found.0,
                result.truncated == found.1,
            decreases branches@.len() - i,
        {
            assert(all.skip(i as int).drop_first() =~= all.skip(i + 1));
            let edge = branches[i];
            match self.reaches_any(&possible, Some(edge.id), &mut remaining, cancelled) {
                Err(stop) => {
                    return Err(stop);
                },
                Ok(Some(true)) => {},
                Ok(Some(false)) => {
                    let ghost before = result.edges@;
                    result.edges.push(edge);
                    proof {
                        let rest = self.required(possible@, all.skip(i + 1), remaining as nat).0;
                        assert(before + (seq![edge] + rest) =~= before.push(edge) + rest);
                    }
                },
                Ok(None) => {
                    result.truncated = true;
                    assert(result.edges@ + Seq::<CfgEdge>::empty() =~= result.edges@);
                    break;
                },
            }
            i += 1;
            proof {
                if i == branches@.len() {
                    assert(all.skip(i as int) =~= Seq::empty());
                    assert(result.edges@ + Seq::<CfgEdge>::empty() =~= result.edges@);
                }
            }
        }
        Ok(result)
    }

    /// The branch edges in their order.
    fn sorted(&self) -> (r: Vec<CfgEdge>)
        requires
            self.wf(),
        ensures
            r@ == self.sorted_branches(),
    {
        let ids = self.successors.keys();
        let mut all: Vec<CfgEdge> = Vec::new();
        let mut keys: Vec<Vec<u128>> = Vec::new();
        let mut i: usize = 0;
        while i < ids.len()
            invariant
                i <= ids@.len(),
                ids@ == self.successors.order(),
                ids@.to_set() == self.successors@.dom(),
                self.wf(),
                all@ == self.branches_of(ids@.take(i as int)),
                key_views(keys@) == all@.map_values(|e: CfgEdge| self.branch_key(e)),
            decreases ids@.len() - i,
        {
            let ghost before = all@;
            assert(ids@.to_set().contains(ids@[i as int]));
            let ghost out = self.out(ids@[i as int]);
            match self.successors.get(&ids[i]) {
                None => {},
                Some(list) => {
                    let mut j: usize = 0;
                    while j < list.len()
                        invariant
                            j <= list@.len(),
                            list@ == out,
                            out == self.out(ids@[i as int]),
                            i < ids@.len(),
                            self.wf(),
                            all@ == before + out.take(j as int).filter(|e: CfgEdge| is_branch(e)),
                            key_views(keys@) == all@.map_values(|e: CfgEdge| self.branch_key(e)),
                        decreases list@.len() - j,
                    {
                        let edge = list[j];
                        proof {
                            lemma_filter_step(out, |e: CfgEdge| is_branch(e), j as int);
                            assert(self.out(ids@[i as int])[j as int] == edge);
                        }
                        if matches!(edge.kind, CfgEdgeKind::TrueBranch | CfgEdgeKind::FalseBranch) {
                            match self.nodes.get(&edge.source) {
                                None => {},
                                Some(node) => {
                                    let ghost shown = all@;
                                    let ghost kept = key_views(keys@);
                                    let mut key: Vec<u128> = Vec::new();
                                    key.push(node.stmt_range.start_byte as u128);
                                    key.push(edge.id.0.hi);
                                    key.push(edge.id.0.lo);
                                    assert(key@ =~= self.branch_key(edge));
                                    keys.push(key);
                                    all.push(edge);
                                    assert(key_views(keys@) =~= kept.push(key@));
                                    assert(all@.map_values(|e: CfgEdge| self.branch_key(e))
                                        =~= shown.map_values(
                                        |e: CfgEdge| self.branch_key(e),
                                    ).push(self.branch_key(edge)));
                                    assert(all@ =~= before + out.take(j + 1).filter(
                                        |e: CfgEdge| is_branch(e),
                                    ));
                                },
                            }
                        }
                        j += 1;
                    }
                    assert(out.take(j as int) =~= out);
                },
            }
            assert(ids@.take(i + 1).drop_last() =~= ids@.take(i as int));
            i += 1;
        }
        assert(ids@.take(i as int) =~= ids@);
        let rows = stable_order(keys.as_slice());
        let mut sorted: Vec<CfgEdge> = Vec::new();
        let ghost numbers = rows@.map_values(|k: usize| k as int);
        assert(key_views(keys@).len() == keys@.len());
        let mut k: usize = 0;
        while k < rows.len()
            invariant
                k <= rows@.len(),
                numbers == rows@.map_values(|k: usize| k as int),
                forall|m: int| 0 <= m < rows@.len() ==> (#[trigger] rows@[m]) < all@.len(),
                sorted@ == numbers.take(k as int).map_values(|m: int| all@[m]),
            decreases rows@.len() - k,
        {
            sorted.push(all[rows[k]]);
            assert(numbers.take(k + 1) =~= numbers.take(k as int).push(rows@[k as int] as int));
            assert(sorted@ =~= numbers.take(k + 1).map_values(|m: int| all@[m]));
            k += 1;
        }
        assert(numbers.take(k as int) =~= numbers);
        sorted
    }

    fn reaches_any<F: Fn() -> bool>(
        &self,
        targets: &IdSet<CfgNodeId>,
        omitted: Option<CfgEdgeId>,
        remaining: &mut usize,
        cancelled: &F,
    ) -> (r: Result<Option<bool>, Canceled>)
        requires
            call_requires(*cancelled, ()),
        ensures
            match r {
                Err(_) => call_ensures(*cancelled, (), true),
                Ok(found) => {
                    &&& (found, *final(remaining) as nat) == self.search_from_entry(
                        targets@,
                        omitted,
                        *old(remaining) as nat,
                    )
                    &&& call_ensures(*cancelled, (), false)
                },
            },
    {
        let mut pending: Vec<CfgNodeId> = Vec::new();
        pending.push(self.entry);
        let mut head: usize = 0;
        let mut visited: IdSet<CfgNodeId> = IdSet::new();
        let ghost outcome = self.search_from_entry(targets@, omitted, *remaining as nat);
        assert(pending@.skip(0) =~= seq![self.entry]);
        while head < pending.len()
            invariant
                head <= pending@.len(),
                call_requires(*cancelled, ()),
                head > 0 ==> call_ensures(*cancelled, (), false),
                head == 0 ==> pending@.len() == 1,
                outcome == self.search_from_entry(targets@, omitted, *old(remaining) as nat),
                outcome == self.search(
                    targets@,
                    omitted,
                    pending@.skip(head as int),
                    visited@,
                    *remaining as nat,
                ),
            decreases *remaining, pending@.len() - head,
        {
            if cancelled() {
                return Err(Canceled);
            }
            if *remaining == 0 {
                return Ok(None);
            }
            *remaining -= 1;
            let id = pending[head];
            assert(pending@.skip(head as int).drop_first() =~= pending@.skip(head + 1));
            head += 1;
            if visited.contains(&id) {
                continue;
            }
            if targets.contains(&id) {
                return Ok(Some(true));
            }
            visited.insert(id);
            self.push_next(&id, omitted, &mut pending, head);
        }
        assert(pending@.skip(head as int) =~= Seq::empty());
        Ok(Some(false))
    }

    /// Put what can follow a node behind what is pending.
    fn push_next(
        &self,
        id: &CfgNodeId,
        omitted: Option<CfgEdgeId>,
        pending: &mut Vec<CfgNodeId>,
        head: usize,
    )
        requires
            head <= old(pending)@.len(),
        ensures
            final(pending)@ == old(pending)@ + self.next(*id, omitted),
            final(pending)@.skip(head as int) == old(pending)@.skip(head as int) + self.next(
                *id,
                omitted,
            ),
    {
        let ghost before = pending@;
        let ghost out = self.out(*id);
        let ghost keep = |e: CfgEdge| Some(e.id) != omitted;
        let ghost target = |e: CfgEdge| e.target;
        match self.successors.get(id) {
            None => {
                proof {
                    reveal(Seq::filter);
                    assert(self.next(*id, omitted) =~= Seq::empty());
                }
            },
            Some(list) => {
                let mut j: usize = 0;
                assert(out.take(0).filter(keep).map_values(target) =~= Seq::empty()) by {
                    reveal(Seq::filter);
                }
                while j < list.len()
                    invariant
                        j <= list@.len(),
                        list@ == out,
                        keep == (|e: CfgEdge| Some(e.id) != omitted),
                        target == (|e: CfgEdge| e.target),
                        pending@ == before + out.take(j as int).filter(keep).map_values(target),
                    decreases list@.len() - j,
                {
                    let edge = list[j];
                    proof {
                        lemma_filter_step(out, keep, j as int);
                    }
                    if omitted.is_none() || omitted.unwrap() != edge.id {
                        pending.push(edge.target);
                        assert(out.take(j + 1).filter(keep).map_values(target) =~= out.take(
                            j as int,
                        ).filter(keep).map_values(target).push(edge.target));
                    }
                    j += 1;
                }
                assert(out.take(j as int) =~= out);
            },
        }
        assert(pending@ =~= before + self.next(*id, omitted));
        assert(pending@.skip(head as int) =~= before.skip(head as int) + self.next(*id, omitted));
    }

    /// Build a graph. Every edge has to leave and enter a node that is there, and
    /// there have to be exactly one entry and one exit.
    pub fn build(nodes: &[CfgNode], edges: &[CfgEdge]) -> (r: Result<Self, CfgGraphError>)
        ensures
            match r {
                Err(error) => build_error(nodes@, edges@) == Some(error),
                Ok(graph) => {
                    &&& build_error(nodes@, edges@) is None
                    &&& graph.wf()
                    &&& graph.successors.order().to_set() == graph.successors@.dom()
                    &&& graph.nodes@ == node_map(nodes@)
                    &&& forall|id: CfgNodeId| #[trigger]
                        graph.successors@.dom().contains(id) <==> has_node(nodes@, id)
                    &&& forall|id: CfgNodeId| #[trigger]
                        graph.predecessors@.dom().contains(id) <==> has_node(nodes@, id)
                    &&& forall|id: CfgNodeId| #[trigger]
                        list_at(graph.successors@, id) == leaving(edges@, id)
                    &&& forall|id: CfgNodeId| #[trigger]
                        list_at(graph.predecessors@, id) == entering(edges@, id)
                    &&& has_only(nodes@, CfgNodeKind::Entry, graph.entry)
                    &&& has_only(nodes@, CfgNodeKind::Exit, graph.exit)
                },
            },
    {
        let mut node_table: IdMap<CfgNodeId, CfgNode> = IdMap::new();
        let mut succ: IdMap<CfgNodeId, Vec<CfgEdge>> = IdMap::new();
        let mut pred: IdMap<CfgNodeId, Vec<CfgEdge>> = IdMap::new();
        let mut i: usize = 0;
        while i < nodes.len()
            invariant
                i <= nodes@.len(),
                node_table@ == node_map(nodes@.take(i as int)),
                succ@.dom() == node_table@.dom(),
                pred@.dom() == node_table@.dom(),
                forall|id: CfgNodeId| #[trigger] list_at(succ@, id).len() == 0,
                forall|id: CfgNodeId| #[trigger] list_at(pred@, id).len() == 0,
            decreases nodes@.len() - i,
        {
            let node = nodes[i];
            let ghost before = succ@;
            let ghost earlier = pred@;
            node_table.insert(node.id, node);
            succ.insert(node.id, Vec::new());
            pred.insert(node.id, Vec::new());
            assert(nodes@.take(i + 1).drop_last() =~= nodes@.take(i as int));
            assert(succ@.dom() =~= node_table@.dom());
            assert(pred@.dom() =~= node_table@.dom());
            assert forall|id: CfgNodeId| #[trigger] list_at(succ@, id).len() == 0 by {
                assert(list_at(before, id).len() == 0);
            }
            assert forall|id: CfgNodeId| #[trigger] list_at(pred@, id).len() == 0 by {
                assert(list_at(earlier, id).len() == 0);
            }
            i += 1;
        }
        assert(nodes@.take(i as int) =~= nodes@);
        proof {
            lemma_node_map(nodes@);
        }
        let mut i: usize = 0;
        assert(edges@.skip(0) =~= edges@);
        while i < edges.len()
            invariant
                i <= edges@.len(),
                node_table@ == node_map(nodes@),
                forall|id: CfgNodeId| #[trigger]
                    node_map(nodes@).dom().contains(id) <==> has_node(nodes@, id),
                first_dangling(nodes@, edges@) == first_dangling(nodes@, edges@.skip(i as int)),
                forall|k: int|
                    0 <= k < i ==> has_node(nodes@, (#[trigger] edges@[k]).source) && has_node(
                        nodes@,
                        edges@[k].target,
                    ),
            decreases edges@.len() - i,
        {
            assert(edges@.skip(i as int).drop_first() =~= edges@.skip(i + 1));
            if !node_table.contains_key(&edges[i].source) {
                return Err(CfgGraphError::SourceMissing(edges[i].source));
            }
            if !node_table.contains_key(&edges[i].target) {
                return Err(CfgGraphError::TargetMissing(edges[i].target));
            }
            i += 1;
        }
        assert(edges@.skip(i as int) =~= Seq::empty());
        proof {
            reveal(Seq::filter);
        }
        let mut i: usize = 0;
        while i < edges.len()
            invariant
                i <= edges@.len(),
                succ@.dom() == node_map(nodes@).dom(),
                pred@.dom() == node_map(nodes@).dom(),
                forall|id: CfgNodeId| #[trigger]
                    node_map(nodes@).dom().contains(id) <==> has_node(nodes@, id),
                forall|k: int|
                    0 <= k < edges@.len() ==> has_node(nodes@, (#[trigger] edges@[k]).source)
                        && has_node(nodes@, edges@[k].target),
                forall|id: CfgNodeId| #[trigger]
                    list_at(succ@, id) == leaving(edges@.take(i as int), id),
                forall|id: CfgNodeId| #[trigger]
                    list_at(pred@, id) == entering(edges@.take(i as int), id),
            decreases edges@.len() - i,
        {
            let edge = edges[i];
            let ghost before = succ@;
            let ghost earlier = pred@;
            push_item(&mut succ, edge.source, edge);
            push_item(&mut pred, edge.target, edge);
            assert(lists(succ@).dom() =~= succ@.dom());
            assert(lists(pred@).dom() =~= pred@.dom());
            assert(succ@.dom() =~= before.dom());
            assert(pred@.dom() =~= earlier.dom());
            assert forall|id: CfgNodeId| #[trigger] list_at(succ@, id) == leaving(
                edges@.take(i + 1),
                id,
            ) by {
                lemma_filter_step(edges@, |e: CfgEdge| e.source == id, i as int);
                assert(list_at(before, id) == leaving(edges@.take(i as int), id));
                if succ@.dom().contains(id) {
                    assert(lists(succ@)[id] == succ@[id]@);
                    if id != edge.source {
                        assert(lists(before)[id] == before[id]@);
                    }
                }
            }
            assert forall|id: CfgNodeId| #[trigger] list_at(pred@, id) == entering(
                edges@.take(i + 1),
                id,
            ) by {
                lemma_filter_step(edges@, |e: CfgEdge| e.target == id, i as int);
                assert(list_at(earlier, id) == entering(edges@.take(i as int), id));
                if pred@.dom().contains(id) {
                    assert(lists(pred@)[id] == pred@[id]@);
                    if id != edge.target {
                        assert(lists(earlier)[id] == earlier[id]@);
                    }
                }
            }
            i += 1;
        }
        assert(edges@.take(i as int) =~= edges@);
        let entry = match find_only(nodes, CfgNodeKind::Entry) {
            Only::Nothing => {
                return Err(CfgGraphError::NoEntry);
            },
            Only::Several => {
                return Err(CfgGraphError::ManyEntries);
            },
            Only::One(id) => id,
        };
        let exit = match find_only(nodes, CfgNodeKind::Exit) {
            Only::Nothing => {
                return Err(CfgGraphError::NoExit);
            },
            Only::Several => {
                return Err(CfgGraphError::ManyExits);
            },
            Only::One(id) => id,
        };
        let ids = succ.keys();
        let ghost order = ids@;
        let graph = CfgGraph {
            nodes: node_table,
            successors: succ,
            predecessors: pred,
            entry,
            exit,
        };
        assert(graph.wf()) by {
            broadcast use vstd::seq_lib::group_filter_ensures;

            assert forall|id: CfgNodeId, i: int|
                0 <= i < graph.out(id).len() implies graph.nodes@.dom().contains(
                (#[trigger] graph.out(id)[i]).source,
            ) by {
                let list = leaving(edges@, id);
                assert(list_at(graph.successors@, id) == list);
                assert(list.contains(list[i]));
                edges@.lemma_filter_contains_rev(|e: CfgEdge| e.source == id, list[i]);
                let k = choose|k: int| 0 <= k < edges@.len() && edges@[k] == list[i];
                assert(has_node(nodes@, edges@[k].source));
            }
        }
        Ok(graph)
    }

    /// The outgoing edges of a node that have a kind.
    pub fn successors_by_kind(&self, node_id: &CfgNodeId, kind: CfgEdgeKind) -> (r: Vec<&CfgEdge>)
        ensures
            r@.map_values(|e: &CfgEdge| *e) == self.out(*node_id).filter(
                |e: CfgEdge| e.kind == kind,
            ),
    {
        let mut found: Vec<&CfgEdge> = Vec::new();
        let ghost out = self.out(*node_id);
        let ghost keep = |e: CfgEdge| e.kind == kind;
        match self.successors.get(node_id) {
            None => {
                proof {
                    reveal(Seq::filter);
                }
            },
            Some(list) => {
                let mut i: usize = 0;
                assert(out.take(0).filter(keep) =~= Seq::empty()) by {
                    reveal(Seq::filter);
                }
                while i < list.len()
                    invariant
                        i <= list@.len(),
                        list@ == out,
                        keep == (|e: CfgEdge| e.kind == kind),
                        found@.map_values(|e: &CfgEdge| *e) == out.take(i as int).filter(keep),
                    decreases list@.len() - i,
                {
                    proof {
                        lemma_filter_step(out, keep, i as int);
                    }
                    if list[i].kind == kind {
                        let ghost before = found@;
                        found.push(&list[i]);
                        assert(found@.map_values(|e: &CfgEdge| *e) =~= before.map_values(
                            |e: &CfgEdge| *e,
                        ).push(list@[i as int]));
                    }
                    i += 1;
                }
                assert(out.take(i as int) =~= out);
            },
        }
        assert(found@.map_values(|e: &CfgEdge| *e) =~= out.filter(keep));
        found
    }

    /// The nodes that a path from the entry reaches. Extraction may keep
    /// disconnected syntax; what enumerates nodes uses this set to leave it out.
    pub fn reachable_from_entry(&self) -> (r: IdSet<CfgNodeId>)
        ensures
            forall|id: CfgNodeId| #[trigger] r@.contains(id) <==> self.reaches(id, None),
    {
        let mut reachable: IdSet<CfgNodeId> = IdSet::new();
        let mut pending: Vec<CfgNodeId> = Vec::new();
        pending.push(self.entry);
        let mut head: usize = 0;
        let ids = self.successors.keys();
        let ghost nothing = Set::<CfgNodeId>::empty();
        proof {
            self.lemma_starts(nothing, None);
            assert(pending@.skip(0) =~= seq![self.entry]);
        }
        while head < pending.len()
            invariant
                head <= pending@.len(),
                ids@.no_duplicates(),
                ids@.to_set() == self.successors@.dom(),
                nothing == Set::<CfgNodeId>::empty(),
                self.searching(nothing, None, pending@.skip(head as int), reachable@),
            decreases pending@.len() - head + self.open_edges(ids@, reachable@, None),
        {
            let ghost before = pending@.skip(head as int);
            let ghost seen = reachable@;
            proof {
                self.lemma_searching_step(nothing, None, before, seen);
                assert(before.drop_first() =~= pending@.skip(head + 1));
            }
            let id = pending[head];
            head += 1;
            if !reachable.insert(id) {
                assert(reachable@ =~= seen);
                continue;
            }
            proof {
                self.lemma_open_edges(ids@, seen, None, id);
                if !ids@.contains(id) {
                    assert(!ids@.to_set().contains(id));
                    self.lemma_next_of_unknown(id, None);
                }
            }
            self.push_next(&id, None, &mut pending, head);
        }
        proof {
            assert(pending@.skip(head as int) =~= Seq::empty());
            assert forall|id: CfgNodeId| self.reaches(id, None) implies #[trigger]
                reachable@.contains(id) by {
                let path = choose|path: Seq<CfgNodeId>| #[trigger]
                    self.is_path(path, None) && path[0] == self.entry && path.last() == id;
                self.lemma_closed(None, reachable@, path);
            }
        }
        reachable
    }
}

proof fn lemma_dangling(nodes: Seq<CfgNode>, edges: Seq<CfgEdge>)
    ensures
        first_dangling(nodes, edges) is None <==> forall|i: int|
            0 <= i < edges.len() ==> has_node(nodes, (#[trigger] edges[i]).source) && has_node(
                nodes,
                edges[i].target,
            ),
    decreases edges.len(),
{
    if edges.len() > 0 {
        let rest = edges.drop_first();
        lemma_dangling(nodes, rest);
        if first_dangling(nodes, edges) is None {
            assert forall|i: int| 0 <= i < edges.len() implies has_node(
                nodes,
                (#[trigger] edges[i]).source,
            ) && has_node(nodes, edges[i].target) by {
                if i > 0 {
                    assert(rest[i - 1] == edges[i]);
                }
            }
        } else if has_node(nodes, edges[0].source) && has_node(nodes, edges[0].target) {
            let i = choose|i: int|
                0 <= i < rest.len() && !(has_node(nodes, (#[trigger] rest[i]).source) && has_node(
                    nodes,
                    rest[i].target,
                ));
            assert(edges[i + 1] == rest[i]);
        }
    }
}

/// Nodes and edges make a graph if and only if both ends of every edge are there and
/// exactly one node is an entry and exactly one is an exit.
pub proof fn a_graph_has_one_entry_and_one_exit(nodes: Seq<CfgNode>, edges: Seq<CfgEdge>)
    ensures
        build_error(nodes, edges) is None <==> {
            &&& forall|i: int|
                0 <= i < edges.len() ==> has_node(nodes, (#[trigger] edges[i]).source) && has_node(
                    nodes,
                    edges[i].target,
                )
            &&& exists|i: int| is_only(nodes, CfgNodeKind::Entry, i)
            &&& exists|i: int| is_only(nodes, CfgNodeKind::Exit, i)
        },
{
    lemma_dangling(nodes, edges);
    lemma_only(nodes, CfgNodeKind::Entry);
    lemma_only(nodes, CfgNodeKind::Exit);
}

proof fn lemma_only(nodes: Seq<CfgNode>, kind: CfgNodeKind)
    ensures
        (has_kind(nodes, kind) && !has_several(nodes, kind)) <==> exists|i: int|
            is_only(nodes, kind, i),
{
    if has_kind(nodes, kind) && !has_several(nodes, kind) {
        let i = choose|i: int| 0 <= i < nodes.len() && (#[trigger] nodes[i]).kind == kind;
        assert(is_only(nodes, kind, i));
    }
}

/// Where control stands in a graph after the first edges of a way from its entry.
pub open spec fn stands_at(graph: CfgGraph, way: Seq<CfgEdge>, count: int) -> CfgNodeId {
    if count <= 0 {
        graph.entry
    } else {
        way[count - 1].target
    }
}

/// Whether edges lead one after the other from the entry of a graph to a node.
pub open spec fn is_way(graph: CfgGraph, way: Seq<CfgEdge>, to: CfgNodeId) -> bool {
    &&& forall|i: int|
        0 <= i < way.len() ==> graph.out(stands_at(graph, way, i)).contains(#[trigger] way[i])
    &&& stands_at(graph, way, way.len() as int) == to
}

/// Whether one of the edges of a way has an identity.
pub open spec fn takes(way: Seq<CfgEdge>, id: CfgEdgeId) -> bool {
    exists|i: int| 0 <= i < way.len() && (#[trigger] way[i]).id == id
}

/// Whether every way from the entry of a graph to a member of a set takes an edge.
pub open spec fn every_way_takes(graph: CfgGraph, to: Set<CfgNodeId>, id: CfgEdgeId) -> bool {
    forall|way: Seq<CfgEdge>, node: CfgNodeId| #[trigger]
        is_way(graph, way, node) && to.contains(node) ==> takes(way, id)
}

proof fn lemma_next_has_edge(
    graph: CfgGraph,
    from: CfgNodeId,
    to: CfgNodeId,
    omitted: Option<CfgEdgeId>,
)
    ensures
        graph.next(from, omitted).contains(to) <==> exists|e: CfgEdge| #[trigger]
            graph.out(from).contains(e) && e.target == to && Some(e.id) != omitted,
{
    let keep = |e: CfgEdge| Some(e.id) != omitted;
    let target = |e: CfgEdge| e.target;
    let out = graph.out(from);
    let kept = out.filter(keep);
    assert(graph.next(from, omitted) == kept.map_values(target));
    if graph.next(from, omitted).contains(to) {
        let i = choose|i: int| 0 <= i < kept.len() && kept.map_values(target)[i] == to;
        out.lemma_filter_pred(keep, i);
        assert(kept.contains(kept[i]));
        out.lemma_filter_contains_rev(keep, kept[i]);
        assert(graph.out(from).contains(kept[i]));
    }
    if exists|e: CfgEdge| #[trigger]
        graph.out(from).contains(e) && e.target == to && Some(e.id) != omitted {
        let e = choose|e: CfgEdge| #[trigger]
            graph.out(from).contains(e) && e.target == to && Some(e.id) != omitted;
        let j = choose|j: int| 0 <= j < out.len() && out[j] == e;
        out.lemma_filter_contains(keep, j);
        let i = choose|i: int| 0 <= i < kept.len() && kept[i] == e;
        assert(kept.map_values(target)[i] == to);
    }
}

/// A node is reached where a way leads to it that does not take the omitted edge.
proof fn lemma_reached_by_way(graph: CfgGraph, to: CfgNodeId, omitted: Option<CfgEdgeId>)
    ensures
        graph.reaches(to, omitted) <==> exists|way: Seq<CfgEdge>| #[trigger]
            is_way(graph, way, to) && (omitted is Some ==> !takes(way, omitted->0)),
{
    if graph.reaches(to, omitted) {
        let path = choose|path: Seq<CfgNodeId>| #[trigger]
            graph.is_path(path, omitted) && path[0] == graph.entry && path.last() == to;
        let way = Seq::new(
            (path.len() - 1) as nat,
            |i: int|
                choose|e: CfgEdge| #[trigger]
                    graph.out(path[i]).contains(e) && e.target == path[i + 1] && Some(e.id)
                        != omitted,
        );
        assert forall|i: int| 0 <= i < way.len() implies graph.out(path[i]).contains(
            #[trigger] way[i],
        ) && way[i].target == path[i + 1] && Some(way[i].id) != omitted by {
            assert(graph.next(path[i + 1 - 1], omitted).contains(path[i + 1]));
            lemma_next_has_edge(graph, path[i], path[i + 1], omitted);
        }
        assert forall|i: int| 0 <= i < way.len() implies graph.out(
            stands_at(graph, way, i),
        ).contains(#[trigger] way[i]) by {
            if i > 0 {
                assert(way[i - 1].target == path[i]);
            }
        }
        assert(stands_at(graph, way, way.len() as int) == to) by {
            if way.len() > 0 {
                assert(way[way.len() - 1].target == path[path.len() - 1]);
            }
        }
        assert(is_way(graph, way, to));
    }
    if exists|way: Seq<CfgEdge>| #[trigger]
        is_way(graph, way, to) && (omitted is Some ==> !takes(way, omitted->0)) {
        let way = choose|way: Seq<CfgEdge>| #[trigger]
            is_way(graph, way, to) && (omitted is Some ==> !takes(way, omitted->0));
        let path = Seq::new(way.len() + 1, |i: int| stands_at(graph, way, i));
        assert forall|i: int| 0 < i < path.len() implies graph.next(path[i - 1], omitted).contains(
            #[trigger] path[i],
        ) by {
            assert(graph.out(path[i - 1]).contains(way[i - 1]));
            lemma_next_has_edge(graph, path[i - 1], path[i], omitted);
        }
        assert(graph.is_path(path, omitted));
    }
}

/// A branch is required where there is no way around it: unless the bound ended the
/// analysis, and where a target is reachable, an edge that is taken where a condition holds
/// or where it does not is among the required ones if and only if every way from the entry
/// to a target or to an unexamined node takes it.
pub proof fn a_branch_is_required_where_no_way_is_around_it(
    graph: CfgGraph,
    targets: Set<CfgNodeId>,
    unexamined: Set<CfgNodeId>,
    max_visits: nat,
    from: CfgNodeId,
    edge: CfgEdge,
)
    requires
        graph.successors.order().to_set() == graph.successors@.dom(),
        graph.out(from).contains(edge),
        edge.kind == CfgEdgeKind::TrueBranch || edge.kind == CfgEdgeKind::FalseBranch,
    ensures
        ({
            let (edges, reachable, truncated) = graph.required_branches_spec(
                targets,
                unexamined,
                max_visits,
            );
            !truncated && reachable ==> (edges.contains(edge) <==> every_way_takes(
                graph,
                targets.union(unexamined),
                edge.id,
            ))
        }),
{
    let everything = targets.union(unexamined);
    graph.required_means_disconnecting(targets, unexamined, max_visits);
    if graph.reaches_set(everything, Some(edge.id)) {
        let id = choose|id: CfgNodeId|
            everything.contains(id) && #[trigger] graph.reaches(id, Some(edge.id));
        lemma_reached_by_way(graph, id, Some(edge.id));
    } else {
        assert forall|way: Seq<CfgEdge>, node: CfgNodeId| #[trigger]
            is_way(graph, way, node) && everything.contains(node) implies takes(way, edge.id) by {
            lemma_reached_by_way(graph, node, Some(edge.id));
            assert(!graph.reaches(node, Some(edge.id)));
        }
    }
}

/// Nothing but branches is required, and none that a way goes around, even where the bound
/// ended the analysis.
pub proof fn only_branches_are_required(
    graph: CfgGraph,
    targets: Set<CfgNodeId>,
    unexamined: Set<CfgNodeId>,
    max_visits: nat,
    edge: CfgEdge,
)
    requires
        graph.successors.order().to_set() == graph.successors@.dom(),
        graph.required_branches_spec(targets, unexamined, max_visits).0.contains(edge),
    ensures
        edge.kind == CfgEdgeKind::TrueBranch || edge.kind == CfgEdgeKind::FalseBranch,
        every_way_takes(graph, targets.union(unexamined), edge.id),
{
    let everything = targets.union(unexamined);
    graph.required_means_disconnecting(targets, unexamined, max_visits);
    assert forall|way: Seq<CfgEdge>, node: CfgNodeId| #[trigger]
        is_way(graph, way, node) && everything.contains(node) implies takes(way, edge.id) by {
        lemma_reached_by_way(graph, node, Some(edge.id));
        assert(!graph.reaches(node, Some(edge.id)));
    }
}

/// A target is reachable where a way leads to one, unless the bound ended the analysis.
pub proof fn a_target_is_reachable_where_a_way_leads_to_it(
    graph: CfgGraph,
    targets: Set<CfgNodeId>,
    unexamined: Set<CfgNodeId>,
    max_visits: nat,
)
    requires
        graph.successors.order().to_set() == graph.successors@.dom(),
    ensures
        ({
            let (_, reachable, truncated) = graph.required_branches_spec(
                targets,
                unexamined,
                max_visits,
            );
            !truncated ==> (reachable <==> exists|way: Seq<CfgEdge>, node: CfgNodeId| #[trigger]
                is_way(graph, way, node) && targets.contains(node))
        }),
{
    graph.required_means_disconnecting(targets, unexamined, max_visits);
    if graph.reaches_set(targets, None) {
        let id = choose|id: CfgNodeId|
            targets.contains(id) && #[trigger] graph.reaches(id, None);
        lemma_reached_by_way(graph, id, None);
    }
    if exists|way: Seq<CfgEdge>, node: CfgNodeId| #[trigger]
        is_way(graph, way, node) && targets.contains(node) {
        let (way, node) = choose|way: Seq<CfgEdge>, node: CfgNodeId| #[trigger]
            is_way(graph, way, node) && targets.contains(node);
        lemma_reached_by_way(graph, node, None);
        assert(graph.reaches(node, None));
    }
}

} // verus!
