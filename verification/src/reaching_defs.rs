//! May-reaching definitions of recorded local writes over the control flow.
//!
//! This computes which definitions may reach a use, not value equality, alias
//! effects, path feasibility or flow between functions. A definite local write
//! replaces earlier definitions only on paths that complete it normally.

use crate::call_outputs::{call_range, call_range_at, parameter_output_id, parameter_output_id_of};
use crate::collections::{
    arrange, at_most, holds, in_order, key_at_most, key_views, lemma_filter_step, ordered_rows,
    stable_order, IdMap,
};
use crate::extraction_ctx::ExtractionCtx;
use crate::facts::{
    CfgEdge, CfgEdgeKind, CfgNode, CfgNodeKind, CfgResult, DataFlowEdge, DataFlowKind, DataNode,
    DataNodeKind, DiagnosticLevel, ExtractDiagnostic, ExtractDiagnosticView, Language, TextRange,
};
use crate::ids::{CfgNodeId, DataNodeId, SymbolId};
use crate::syntax::{Field, Kind, SyntaxTree};
use crate::text::{byte_views, same_bytes, split_words, words_of, Text};
use vstd::prelude::*;
use vstd::string::StringSliceAdditionalSpecFns;

verus! {

broadcast use {SyntaxTree::parent_comes_first, SyntaxTree::children_come_later};

/// Which definitions may reach which uses, and what could not be established.
#[derive(Debug)]
pub struct UseDefResult {
    pub edges: Vec<DataFlowEdge>,
    pub diagnostics: Vec<ExtractDiagnostic>,
    pub truncated: bool,
}

/// What could not be established of a definition or a use.
#[derive(Clone, Copy, PartialEq, Eq, Structural, Debug)]
pub enum Notice {
    /// A definition has no place in the control flow.
    DefinitionUnplaced,
    /// A write may or may not replace what was there.
    WriteUnordered,
    /// A reference output has no exit in the control flow.
    OutputUnplaced,
    /// A use has no place in the control flow.
    UseUnplaced,
}

impl Notice {
    /// What the notice says.
    pub open spec fn message(self) -> &'static str {
        match self {
            Notice::DefinitionUnplaced => "use_def_cfg_unavailable: recorded definition has no corresponding CFG region; its possible uses remain unordered",
            Notice::WriteUnordered => "use_def_write_order_unmodeled: this write's overwrite semantics or execution/order is not established within its CFG region; prior definitions are retained",
            Notice::OutputUnplaced => "use_def_cfg_unavailable: reference output has no recorded CFG exit; normal-exit definitions remain unavailable",
            Notice::UseUnplaced => "use_def_cfg_unavailable: use has no corresponding CFG region; recorded definitions remain unordered",
        }
    }

    /// What the notice says.
    pub fn text(&self) -> (r: &'static str)
        ensures
            r == self.message(),
    {
        match self {
            Notice::DefinitionUnplaced => "use_def_cfg_unavailable: recorded definition has no corresponding CFG region; its possible uses remain unordered",
            Notice::WriteUnordered => "use_def_write_order_unmodeled: this write's overwrite semantics or execution/order is not established within its CFG region; prior definitions are retained",
            Notice::OutputUnplaced => "use_def_cfg_unavailable: reference output has no recorded CFG exit; normal-exit definitions remain unavailable",
            Notice::UseUnplaced => "use_def_cfg_unavailable: use has no corresponding CFG region; recorded definitions remain unordered",
        }
    }
}

/// What the computation reads. The keys say which variable each node defines or
/// uses.
pub struct UseDefInputs {
    pub nodes: Seq<DataNode>,
    pub keys: Seq<Option<u64>>,
    pub existing: Seq<DataFlowEdge>,
    pub cfg: CfgResult,
    pub ctx: ExtractionCtx,
}

/// The last node with an identity.
pub open spec fn last_node(nodes: Seq<DataNode>, id: DataNodeId) -> Option<DataNode>
    decreases nodes.len(),
{
    if nodes.len() == 0 {
        None
    } else if nodes.last().id == id {
        Some(nodes.last())
    } else {
        last_node(nodes.drop_last(), id)
    }
}

fn find_last_node<'a>(nodes: &'a [DataNode], id: &DataNodeId) -> (r: Option<&'a DataNode>)
    ensures
        match r {
            None => last_node(nodes@, *id) is None,
            Some(node) => last_node(nodes@, *id) == Some(*node),
        },
{
    let mut i: usize = nodes.len();
    assert(nodes@.take(i as int) =~= nodes@);
    while i > 0
        invariant
            i <= nodes@.len(),
            last_node(nodes@, *id) == last_node(nodes@.take(i as int), *id),
        decreases i,
    {
        assert(nodes@.take(i as int).drop_last() =~= nodes@.take(i - 1));
        i -= 1;
        if nodes[i].id == *id {
            return Some(&nodes[i]);
        }
    }
    None
}

/// Where a write takes effect: at first the end of its node.
pub open spec fn written_at(nodes: Seq<DataNode>) -> Map<DataNodeId, u32>
    decreases nodes.len(),
{
    if nodes.len() == 0 {
        Map::empty()
    } else {
        written_at(nodes.drop_last()).insert(nodes.last().id, nodes.last().range.end_byte)
    }
}

/// Where the value of an assignment ends.
pub open spec fn value_end(nodes: Seq<DataNode>, edge: DataFlowEdge) -> u32 {
    match last_node(nodes, edge.source) {
        None => edge.location.end_byte,
        Some(node) => node.range.end_byte,
    }
}

/// Where a write takes effect once the first assignments are seen: not before the
/// value that is assigned ends.
pub open spec fn assigned_at(
    nodes: Seq<DataNode>,
    existing: Seq<DataFlowEdge>,
) -> Map<DataNodeId, u32>
    decreases existing.len(),
{
    if existing.len() == 0 {
        written_at(nodes)
    } else {
        let before = assigned_at(nodes, existing.drop_last());
        let edge = existing.last();
        if edge.kind == DataFlowKind::Assign && before.dom().contains(edge.target) {
            let end = value_end(nodes, edge);
            before.insert(
                edge.target,
                if end > before[edge.target] {
                    end
                } else {
                    before[edge.target]
                },
            )
        } else {
            before
        }
    }
}

/// Where a write takes effect: what a call leaves, not before the call ends.
pub open spec fn effective_at(inputs: UseDefInputs, count: nat) -> Map<DataNodeId, u32>
    decreases count,
{
    if count == 0 {
        assigned_at(inputs.nodes, inputs.existing)
    } else {
        let before = effective_at(inputs, (count - 1) as nat);
        let node = inputs.nodes[count - 1];
        match call_range_at(inputs.ctx.tree, node.range) {
            Some(call) if node.kind == DataNodeKind::CallOutput => before.insert(
                node.id,
                call.end_byte,
            ),
            _ => before,
        }
    }
}

/// The operand that a value reads, as the value and the operand.
pub open spec fn operand_of(
    nodes: Seq<DataNode>,
    edge: DataFlowEdge,
) -> Option<(DataNodeId, DataNodeId)> {
    if edge.kind != DataFlowKind::Read {
        None
    } else {
        match (last_node(nodes, edge.source), last_node(nodes, edge.target)) {
            (Some(input), Some(value)) => if input.kind == DataNodeKind::VariableUse && value.kind
                == DataNodeKind::Expr && input.function_id == value.function_id
                && value.range.covers(input.range) {
                Some((value.id, input.id))
            } else {
                None
            },
            _ => None,
        }
    }
}

/// The operands that values read, in the order of the edges.
pub open spec fn operands(
    nodes: Seq<DataNode>,
    existing: Seq<DataFlowEdge>,
) -> Seq<(DataNodeId, DataNodeId)>
    decreases existing.len(),
{
    if existing.len() == 0 {
        Seq::empty()
    } else {
        let before = operands(nodes, existing.drop_last());
        match operand_of(nodes, existing.last()) {
            None => before,
            Some(pair) => before.push(pair),
        }
    }
}

/// The number of reads.
pub open spec fn read_count(existing: Seq<DataFlowEdge>) -> nat
    decreases existing.len(),
{
    if existing.len() == 0 {
        0
    } else {
        read_count(existing.drop_last()) + if existing.last().kind == DataFlowKind::Read {
            1nat
        } else {
            0nat
        }
    }
}

/// Whether two nodes use one binding of one function.
pub open spec fn same_binding(a: DataNode, b: DataNode) -> bool {
    a.binding_id is Some && a.binding_id == b.binding_id && a.function_id == b.function_id
}

/// Of the first nodes those that a call's own output cannot feed: the uses of the
/// output's binding inside the call.
pub open spec fn fed_by_call(
    nodes: Seq<DataNode>,
    output: DataNode,
    call: TextRange,
) -> Seq<(DataNodeId, DataNodeId)>
    decreases nodes.len(),
{
    if nodes.len() == 0 {
        Seq::empty()
    } else {
        let before = fed_by_call(nodes.drop_last(), output, call);
        let input = nodes.last();
        if same_binding(input, output) && call.covers(input.range) {
            before.push((input.id, output.id))
        } else {
            before
        }
    }
}

/// The number of nodes that use a binding.
pub open spec fn binding_count(nodes: Seq<DataNode>, output: DataNode) -> nat
    decreases nodes.len(),
{
    if nodes.len() == 0 {
        0
    } else {
        binding_count(nodes.drop_last(), output) + if same_binding(nodes.last(), output) {
            1nat
        } else {
            0nat
        }
    }
}

/// What a call's argument evaluation reads before the call can write, for the calls
/// among the first nodes, and the work that finding it takes.
pub open spec fn read_before_call(
    inputs: UseDefInputs,
    count: nat,
) -> (Seq<(DataNodeId, DataNodeId)>, nat)
    decreases count,
{
    if count == 0 {
        (Seq::empty(), 0)
    } else {
        let (before, work) = read_before_call(inputs, (count - 1) as nat);
        let node = inputs.nodes[count - 1];
        match call_range_at(inputs.ctx.tree, node.range) {
            Some(call) if node.kind == DataNodeKind::CallOutput => (
                before + fed_by_call(inputs.nodes, node, call),
                work + binding_count(inputs.nodes, node),
            ),
            _ => (before, work),
        }
    }
}

/// The operands of a value, each with the node that the value is assigned to.
pub open spec fn operands_of_value(
    pairs: Seq<(DataNodeId, DataNodeId)>,
    value: DataNodeId,
    target: DataNodeId,
) -> Seq<(DataNodeId, DataNodeId)>
    decreases pairs.len(),
{
    if pairs.len() == 0 {
        Seq::empty()
    } else {
        let before = operands_of_value(pairs.drop_last(), value, target);
        if pairs.last().0 == value {
            before.push((pairs.last().1, target))
        } else {
            before
        }
    }
}

/// Whether an assignment writes a local.
pub open spec fn assigns_local(nodes: Seq<DataNode>, edge: DataFlowEdge) -> bool {
    edge.kind == DataFlowKind::Assign && (match last_node(nodes, edge.target) {
        None => false,
        Some(target) => target.kind == DataNodeKind::Local,
    })
}

/// What is read before it is written: operands of a value are consumed before the
/// value is assigned.
pub open spec fn read_before_assignment(
    nodes: Seq<DataNode>,
    pairs: Seq<(DataNodeId, DataNodeId)>,
    existing: Seq<DataFlowEdge>,
) -> Seq<(DataNodeId, DataNodeId)>
    decreases existing.len(),
{
    if existing.len() == 0 {
        Seq::empty()
    } else {
        let before = read_before_assignment(nodes, pairs, existing.drop_last());
        let edge = existing.last();
        if assigns_local(nodes, edge) {
            before + operands_of_value(pairs, edge.source, edge.target)
        } else {
            before
        }
    }
}

/// Pairs of a use and a definition: the definition cannot reach the use in one
/// evaluation of their statement, because the use is read first.
pub open spec fn read_before_write(inputs: UseDefInputs) -> Seq<(DataNodeId, DataNodeId)> {
    read_before_call(inputs, inputs.nodes.len()).0 + read_before_assignment(
        inputs.nodes,
        operands(inputs.nodes, inputs.existing),
        inputs.existing,
    )
}

/// The work that finding those pairs takes.
pub open spec fn preparation_work(inputs: UseDefInputs) -> nat {
    read_count(inputs.existing) + read_before_call(inputs, inputs.nodes.len()).1
        + read_before_assignment(
        inputs.nodes,
        operands(inputs.nodes, inputs.existing),
        inputs.existing,
    ).len()
}

/// The last row of a control-flow node.
pub open spec fn row_of(nodes: Seq<CfgNode>, id: CfgNodeId) -> Option<usize>
    decreases nodes.len(),
{
    if nodes.len() == 0 {
        None
    } else if nodes.last().id == id {
        Some((nodes.len() - 1) as usize)
    } else {
        row_of(nodes.drop_last(), id)
    }
}

/// The rows that an edge inside one function joins, and whether it is taken when its
/// source completes normally.
pub open spec fn joined_rows(nodes: Seq<CfgNode>, edge: CfgEdge) -> Option<(usize, usize, bool)> {
    match (row_of(nodes, edge.source), row_of(nodes, edge.target)) {
        (Some(from), Some(to)) => if nodes[from as int].function_id == nodes[to as int].function_id {
            Some((from, to, edge.kind != CfgEdgeKind::Exception))
        } else {
            None
        },
        _ => None,
    }
}

/// The rows that follow a row, in the order of the edges.
pub open spec fn rows_after(nodes: Seq<CfgNode>, edges: Seq<CfgEdge>, row: usize) -> Seq<usize>
    decreases edges.len(),
{
    if edges.len() == 0 {
        Seq::empty()
    } else {
        let before = rows_after(nodes, edges.drop_last(), row);
        match joined_rows(nodes, edges.last()) {
            Some((from, to, _)) if from == row => before.push(to),
            _ => before,
        }
    }
}

/// The rows that a row follows, in the order of the edges.
pub open spec fn rows_before(
    nodes: Seq<CfgNode>,
    edges: Seq<CfgEdge>,
    row: usize,
) -> Seq<(usize, bool)>
    decreases edges.len(),
{
    if edges.len() == 0 {
        Seq::empty()
    } else {
        let before = rows_before(nodes, edges.drop_last(), row);
        match joined_rows(nodes, edges.last()) {
            Some((from, to, normal)) if to == row => before.push((from, normal)),
            _ => before,
        }
    }
}

/// The rows of entries.
pub open spec fn entry_rows(nodes: Seq<CfgNode>) -> Seq<usize>
    decreases nodes.len(),
{
    if nodes.len() == 0 {
        Seq::empty()
    } else {
        let before = entry_rows(nodes.drop_last());
        if nodes.last().kind == CfgNodeKind::Entry {
            before.push((nodes.len() - 1) as usize)
        } else {
            before
        }
    }
}

/// The rows that can be entered, searched from the last pending row on, and the work
/// that is left; nothing where the work does not suffice.
pub open spec fn enter_rows(
    cfg: CfgResult,
    pending: Seq<usize>,
    entered: Set<usize>,
    work: nat,
) -> Option<(Set<usize>, nat)>
    decreases work,
{
    if pending.len() == 0 {
        Some((entered, work))
    } else if work == 0 {
        None
    } else {
        let row = pending.last();
        let rest = pending.drop_last();
        if entered.contains(row) {
            enter_rows(cfg, rest, entered, (work - 1) as nat)
        } else {
            enter_rows(
                cfg,
                rest + rows_after(cfg.nodes@, cfg.edges@, row),
                entered.insert(row),
                (work - 1) as nat,
            )
        }
    }
}

/// The rows of a function, in order.
pub open spec fn function_rows(nodes: Seq<CfgNode>, function: Option<SymbolId>) -> Seq<usize>
    decreases nodes.len(),
{
    if nodes.len() == 0 {
        Seq::empty()
    } else {
        let before = function_rows(nodes.drop_last(), function);
        if function == Some(nodes.last().function_id) {
            before.push((nodes.len() - 1) as usize)
        } else {
            before
        }
    }
}

/// Whether a statement holds a node.
pub open spec fn holds_node(c: CfgNode, node: DataNode) -> bool {
    &&& c.kind != CfgNodeKind::Entry
    &&& c.kind != CfgNodeKind::Exit
    &&& c.kind != CfgNodeKind::BlockExit
    &&& c.stmt_range.covers(node.range)
    &&& c.stmt_range.start_byte < c.stmt_range.end_byte
}

/// The length of a statement.
pub open spec fn statement_len(c: CfgNode) -> int {
    c.stmt_range.end_byte - c.stmt_range.start_byte
}

/// The length of the shortest of some statements.
pub open spec fn shortest(nodes: Seq<CfgNode>, rows: Seq<usize>) -> int
    decreases rows.len(),
{
    if rows.len() == 0 {
        0
    } else if rows.len() == 1 {
        statement_len(nodes[rows[0] as int])
    } else {
        let before = shortest(nodes, rows.drop_last());
        let last = statement_len(nodes[rows.last() as int]);
        if last < before {
            last
        } else {
            before
        }
    }
}

/// The rows at which a node takes effect: a parameter at the entries of its function,
/// the value of a reference parameter at its own exit, another node in the smallest
/// statements that hold it. A statement can stand in several places of the control
/// flow; all of them take part.
pub open spec fn owner_rows(cfg: CfgResult, rows: Seq<usize>, node: DataNode) -> Seq<usize> {
    if node.kind == DataNodeKind::ParameterOutput {
        rows.filter(
            |i: usize|
                cfg.normal_exit_sources@.contains(cfg.nodes@[i as int].id)
                    && parameter_output_id_of(node, cfg.nodes@[i as int]) == node.id,
        )
    } else if node.kind == DataNodeKind::Parameter {
        rows.filter(|i: usize| cfg.nodes@[i as int].kind == CfgNodeKind::Entry)
    } else {
        let holding = rows.filter(|i: usize| holds_node(cfg.nodes@[i as int], node));
        holding.filter(
            |i: usize| statement_len(cfg.nodes@[i as int]) == shortest(cfg.nodes@, holding),
        )
    }
}

/// The role in which an expression or declarator writes a name.
pub open spec fn written_role(kind: Kind) -> Option<Field> {
    match kind {
        Kind::AssignmentExpression | Kind::Assignment | Kind::AugmentedAssignment => Some(
            Field::Left,
        ),
        Kind::InitDeclarator => Some(Field::Declarator),
        Kind::VariableDeclarator => Some(Field::Name),
        Kind::UpdateExpression => Some(Field::Argument),
        _ => None,
    }
}

/// Whether a write is, but for parentheses and declarations around it, a whole
/// statement.
pub open spec fn is_whole_statement(tree: SyntaxTree, n: usize, statement: TextRange) -> bool
    decreases n,
{
    if tree.node(n).has_error || tree.node(n).missing {
        false
    } else if tree.range_of(n).same_bytes(statement) {
        true
    } else {
        match tree.parent_of(n) {
            None => false,
            Some(p) => (match tree.kind_of(p) {
                Kind::ExpressionStatement
                | Kind::ParenthesizedExpression
                | Kind::Declaration
                | Kind::LexicalDeclaration
                | Kind::VariableDeclaration => true,
                _ => false,
            }) && is_whole_statement(tree, p, statement),
        }
    }
}

/// Whether a definition is written whenever its statement completes.
pub open spec fn is_unconditional_write(
    tree: SyntaxTree,
    definition: DataNode,
    statement: CfgNode,
    builtin: bool,
) -> bool {
    statement.kind == CfgNodeKind::Statement && (match tree.node_at(
        definition.range.start_byte,
        definition.range.end_byte,
    ) {
        None => false,
        Some(target) => tree.kind_of(target) == Kind::Identifier && tree.range_of(
            target,
        ).same_bytes(definition.range) && (match tree.parent_of(target) {
            None => false,
            Some(write) => (match written_role(tree.kind_of(write)) {
                None => false,
                Some(role) => tree.child_in_role(write, role) == Some(target),
            }) && (builtin || tree.kind_of(write) == Kind::InitDeclarator || tree.kind_of(write)
                == Kind::VariableDeclarator) && is_whole_statement(
                tree,
                write,
                statement.stmt_range,
            ),
        }),
    })
}

/// Whether a word names part of a built-in type.
pub open spec fn is_builtin_word(word: Seq<u8>) -> bool {
    ||| word == "bool".spec_bytes()
    ||| word == "char".spec_bytes()
    ||| word == "wchar_t".spec_bytes()
    ||| word == "char8_t".spec_bytes()
    ||| word == "char16_t".spec_bytes()
    ||| word == "char32_t".spec_bytes()
    ||| word == "short".spec_bytes()
    ||| word == "int".spec_bytes()
    ||| word == "long".spec_bytes()
    ||| word == "signed".spec_bytes()
    ||| word == "unsigned".spec_bytes()
    ||| word == "float".spec_bytes()
    ||| word == "double".spec_bytes()
}

/// The declaration that a declared name belongs to.
pub open spec fn declaration_of(tree: SyntaxTree, node: DataNode) -> Option<usize> {
    match tree.node_at(node.range.start_byte, node.range.end_byte) {
        None => None,
        Some(target) => {
            let direct = tree.parent_of(target);
            let behind_reference = match direct {
                Some(p) if node.kind == DataNodeKind::Parameter && tree.kind_of(p)
                    == Kind::ReferenceDeclarator => tree.parent_of(p),
                _ => direct,
            };
            match behind_reference {
                Some(p) if tree.kind_of(p) == Kind::InitDeclarator => tree.parent_of(p),
                _ => behind_reference,
            }
        },
    }
}

/// Whether a definition is declared with a built-in value type in words. Only that
/// makes a C++ assignment an ordinary overwrite, also through a reference parameter:
/// assignment to a class can call an operator that keeps the old state.
pub open spec fn is_builtin_value(tree: SyntaxTree, node: DataNode) -> bool {
    match declaration_of(tree, node) {
        None => false,
        Some(declaration) => (tree.kind_of(declaration) == Kind::Declaration || tree.kind_of(
            declaration,
        ) == Kind::ParameterDeclaration) && !tree.node(declaration).has_error && (
        match tree.child_in_role(declaration, Field::Type) {
            None => false,
            Some(ty) => match tree.text_of(ty) {
                None => false,
                Some(text) => words_of(text).len() > 0 && forall|i: int|
                    0 <= i < words_of(text).len() ==> is_builtin_word(#[trigger] words_of(text)[i]),
            },
        }),
    }
}

/// Whether a node defines a variable.
pub open spec fn defines(kind: DataNodeKind) -> bool {
    kind == DataNodeKind::Local || kind == DataNodeKind::Parameter || kind
        == DataNodeKind::CallOutput
}

/// Whether a node uses a variable.
pub open spec fn uses(kind: DataNodeKind) -> bool {
    kind == DataNodeKind::VariableUse || kind == DataNodeKind::ParameterOutput || kind
        == DataNodeKind::Receiver || kind == DataNodeKind::Expr || kind == DataNodeKind::CallArg
        || kind == DataNodeKind::Return
}

/// Whether a node stands where control does not come.
pub open spec fn is_behind_end(cfg: CfgResult, node: DataNode) -> bool {
    exists|i: int|
        0 <= i < cfg.terminated_tails@.len() && node.function_id == Some(
            (#[trigger] cfg.terminated_tails@[i]).0,
        ) && cfg.terminated_tails@[i].1.covers(node.range)
}

/// The nodes of a variable among the first nodes.
pub open spec fn group_nodes(inputs: UseDefInputs, key: u64, count: nat) -> Seq<DataNode>
    decreases count,
{
    if count == 0 {
        Seq::empty()
    } else {
        let before = group_nodes(inputs, key, (count - 1) as nat);
        let node = inputs.nodes[count - 1];
        if inputs.keys[count - 1] == Some(key) && !is_behind_end(inputs.cfg, node) {
            before.push(node)
        } else {
            before
        }
    }
}

/// The variables among the first nodes, in the order in which they come.
pub open spec fn group_keys(inputs: UseDefInputs, count: nat) -> Seq<u64>
    decreases count,
{
    if count == 0 {
        Seq::empty()
    } else {
        let before = group_keys(inputs, (count - 1) as nat);
        match inputs.keys[count - 1] {
            Some(key) if !is_behind_end(inputs.cfg, inputs.nodes[count - 1]) && !before.contains(
                key,
            ) => before.push(key),
            _ => before,
        }
    }
}

/// Where a node stands, for ordering.
pub open spec fn node_key(node: DataNode) -> Seq<u128> {
    seq![node.range.start_byte as u128, node.id.0.hi, node.id.0.lo]
}

/// Where the first of some nodes stands.
pub open spec fn first_key(nodes: Seq<DataNode>) -> Seq<u128>
    decreases nodes.len(),
{
    if nodes.len() == 0 {
        Seq::empty()
    } else if nodes.len() == 1 {
        node_key(nodes[0])
    } else {
        let before = first_key(nodes.drop_last());
        if key_at_most(before, node_key(nodes.last())) {
            before
        } else {
            node_key(nodes.last())
        }
    }
}

/// The variables in the order of where their first node stands.
pub open spec fn ordered_groups(inputs: UseDefInputs) -> Seq<u64> {
    let keys = group_keys(inputs, inputs.nodes.len());
    in_order(
        keys,
        keys.map_values(|key: u64| first_key(group_nodes(inputs, key, inputs.nodes.len()))),
    )
}

/// A write at a row.
#[derive(Clone, Copy, PartialEq, Eq, Structural, Debug)]
pub struct Write {
    pub row: usize,
    pub id: DataNodeId,
    pub start_byte: u32,
    pub activation: u32,
    pub parameter: bool,
    pub definite: bool,
}

/// Later writes come first.
pub open spec fn write_key(w: Write) -> Seq<u128> {
    seq![
        (u128::MAX - w.activation) as u128,
        (u128::MAX - w.start_byte) as u128,
        (u128::MAX - w.id.0.hi) as u128,
        (u128::MAX - w.id.0.lo) as u128,
    ]
}

/// The writes at a row, later ones first.
pub open spec fn writes_at(writes: Seq<Write>, row: usize) -> Seq<Write> {
    let here = writes.filter(|w: Write| w.row == row);
    in_order(here, here.map_values(|w: Write| write_key(w)))
}

/// How far the computation has come.
#[verifier::ext_equal]
pub struct UseDefState {
    pub edges: Seq<DataFlowEdge>,
    pub notes: Seq<(TextRange, Notice)>,
    pub work: nat,
    pub exhausted: bool,
}

impl UseDefState {
    /// Take work off what is left.
    pub open spec fn spend(self, amount: nat) -> UseDefState {
        if self.work >= amount {
            UseDefState { work: (self.work - amount) as nat, ..self }
        } else {
            UseDefState { exhausted: true, ..self }
        }
    }

    /// Note something about a range, once.
    pub open spec fn note(self, range: TextRange, notice: Notice) -> UseDefState {
        if exists|i: int|
            0 <= i < self.notes.len() && (#[trigger] self.notes[i]).0.same_bytes(range)
                && self.notes[i].1 == notice {
            self
        } else {
            UseDefState { notes: self.notes.push((range, notice)), ..self }
        }
    }

    /// Record that a definition may reach a use, once.
    pub open spec fn connect(self, definition: DataNodeId, read: DataNode) -> UseDefState {
        let edge = DataFlowEdge::made(definition, read.id, DataFlowKind::Assign, read.range, 85);
        if exists|i: int| 0 <= i < self.edges.len() && (#[trigger] self.edges[i]).id == edge.id {
            self
        } else {
            UseDefState { edges: self.edges.push(edge), ..self }
        }
    }
}

/// A list of identities with one more, once.
pub open spec fn with_id(ids: Seq<DataNodeId>, id: DataNodeId) -> Seq<DataNodeId> {
    if ids.contains(id) {
        ids
    } else {
        ids.push(id)
    }
}

/// A list of identities with those of some nodes, each once.
pub open spec fn with_nodes(ids: Seq<DataNodeId>, nodes: Seq<DataNode>) -> Seq<DataNodeId>
    decreases nodes.len(),
{
    if nodes.len() == 0 {
        ids
    } else {
        with_id(with_nodes(ids, nodes.drop_last()), nodes.last().id)
    }
}

/// Look at the writes of a row, later ones first: which of them may reach the read,
/// whether one of them replaces everything before it, and the work that is left.
/// Nothing where the work does not suffice.
///
/// A write that is not definite, or a parameter, may always reach: an unknown order
/// of evaluation cannot exclude a write because its token stands behind the read.
pub open spec fn scan_writes(
    read: DataNode,
    first: Seq<(DataNodeId, DataNodeId)>,
    entries: Seq<Write>,
    cutoff: u32,
    normal: bool,
    reaching: Seq<DataNodeId>,
    work: nat,
) -> Option<(Seq<DataNodeId>, bool, nat)>
    decreases entries.len(),
{
    if entries.len() == 0 {
        Some((reaching, false, work))
    } else if work == 0 {
        None
    } else {
        let w = entries[0];
        let rest = entries.drop_first();
        let left = (work - 1) as nat;
        if cutoff == read.range.start_byte && first.contains((read.id, w.id)) {
            scan_writes(read, first, rest, cutoff, normal, reaching, left)
        } else if w.parameter || !w.definite || w.activation <= cutoff {
            if w.definite && normal && !w.parameter {
                Some((with_id(reaching, w.id), true, left))
            } else {
                scan_writes(read, first, rest, cutoff, normal, with_id(reaching, w.id), left)
            }
        } else {
            scan_writes(read, first, rest, cutoff, normal, reaching, left)
        }
    }
}

/// The places from which control comes to a row: everything there has been done, and
/// it was completed or left by an exception.
pub open spec fn places_before(
    cfg: CfgResult,
    entered: Set<usize>,
    row: usize,
) -> Seq<(usize, u32, bool)> {
    rows_before(cfg.nodes@, cfg.edges@, row).filter(
        |p: (usize, bool)| entered.contains(p.0),
    ).map_values(|p: (usize, bool)| (p.0, u32::MAX, p.1))
}

/// Walk backward from the last pending place on: which definitions may reach the
/// read, and the work that is left. Nothing where the work does not suffice.
pub open spec fn walk_back(
    cfg: CfgResult,
    entered: Set<usize>,
    first: Seq<(DataNodeId, DataNodeId)>,
    writes: Seq<Write>,
    read: DataNode,
    pending: Seq<(usize, u32, bool)>,
    visited: Seq<(usize, u32, bool)>,
    reaching: Seq<DataNodeId>,
    work: nat,
) -> Option<(Seq<DataNodeId>, nat)>
    decreases work, pending.len(),
    via walk_back_decreases
{
    if pending.len() == 0 {
        Some((reaching, work))
    } else {
        let place = pending.last();
        let rest = pending.drop_last();
        if visited.contains(place) {
            walk_back(cfg, entered, first, writes, read, rest, visited, reaching, work)
        } else if work == 0 {
            None
        } else {
            match scan_writes(
                read,
                first,
                writes_at(writes, place.0),
                place.1,
                place.2,
                reaching,
                (work - 1) as nat,
            ) {
                None => None,
                Some((more, replaced, left)) => walk_back(
                    cfg,
                    entered,
                    first,
                    writes,
                    read,
                    if replaced {
                        rest
                    } else {
                        rest + places_before(cfg, entered, place.0)
                    },
                    visited.push(place),
                    more,
                    left,
                ),
            }
        }
    }
}

proof fn lemma_scan_work(
    read: DataNode,
    first: Seq<(DataNodeId, DataNodeId)>,
    entries: Seq<Write>,
    cutoff: u32,
    normal: bool,
    reaching: Seq<DataNodeId>,
    work: nat,
)
    ensures
        match scan_writes(read, first, entries, cutoff, normal, reaching, work) {
            None => true,
            Some((_, _, left)) => left <= work,
        },
    decreases entries.len(),
{
    if entries.len() > 0 && work > 0 {
        let w = entries[0];
        let rest = entries.drop_first();
        let left = (work - 1) as nat;
        lemma_scan_work(read, first, rest, cutoff, normal, reaching, left);
        lemma_scan_work(read, first, rest, cutoff, normal, with_id(reaching, w.id), left);
    }
}

#[via_fn]
proof fn walk_back_decreases(
    cfg: CfgResult,
    entered: Set<usize>,
    first: Seq<(DataNodeId, DataNodeId)>,
    writes: Seq<Write>,
    read: DataNode,
    pending: Seq<(usize, u32, bool)>,
    visited: Seq<(usize, u32, bool)>,
    reaching: Seq<DataNodeId>,
    work: nat,
) {
    if pending.len() > 0 && work > 0 {
        let place = pending.last();
        lemma_scan_work(
            read,
            first,
            writes_at(writes, place.0),
            place.1,
            place.2,
            reaching,
            (work - 1) as nat,
        );
    }
}

/// Identities in their order.
pub open spec fn ordered_ids(ids: Seq<DataNodeId>) -> Seq<DataNodeId> {
    in_order(ids, ids.map_values(|id: DataNodeId| seq![id.0.hi, id.0.lo]))
}

/// Record that definitions may reach a use.
pub open spec fn connect_all(
    state: UseDefState,
    ids: Seq<DataNodeId>,
    read: DataNode,
) -> UseDefState
    decreases ids.len(),
{
    if ids.len() == 0 {
        state
    } else {
        connect_all(state, ids.drop_last(), read).connect(ids.last(), read)
    }
}

/// What a computation has prepared.
pub struct Prepared {
    pub activation: Map<DataNodeId, u32>,
    pub first: Seq<(DataNodeId, DataNodeId)>,
    pub entered: Set<usize>,
}

/// One variable: its definitions, the rows of its function and whether assignment to
/// it overwrites.
pub struct Variable {
    pub definitions: Seq<DataNode>,
    pub rows: Seq<usize>,
    pub builtin: bool,
}

/// Where the definitions of a variable take effect.
#[verifier::ext_equal]
pub struct Placement {
    pub state: UseDefState,
    pub writes: Seq<Write>,
    pub unplaced: Seq<DataNodeId>,
}

/// Where a definition takes effect within its row.
pub open spec fn activation_of(activation: Map<DataNodeId, u32>, node: DataNode) -> u32 {
    if activation.dom().contains(node.id) {
        activation[node.id]
    } else {
        node.range.end_byte
    }
}

/// Whether a definition certainly replaces what was there when its row completes.
pub open spec fn is_definite(
    inputs: UseDefInputs,
    variable: Variable,
    node: DataNode,
    row: usize,
) -> bool {
    node.kind == DataNodeKind::Parameter || (node.kind != DataNodeKind::CallOutput
        && node.binding_id is Some && is_unconditional_write(
        inputs.ctx.tree,
        node,
        inputs.cfg.nodes@[row as int],
        variable.builtin,
    ))
}

/// A definition at a row.
pub open spec fn write_of(
    inputs: UseDefInputs,
    prepared: Prepared,
    variable: Variable,
    node: DataNode,
    row: usize,
) -> Write {
    Write {
        row,
        id: node.id,
        start_byte: node.range.start_byte,
        activation: activation_of(prepared.activation, node),
        parameter: node.kind == DataNodeKind::Parameter,
        definite: is_definite(inputs, variable, node, row),
    }
}

/// Place a definition at rows.
pub open spec fn place_at(
    inputs: UseDefInputs,
    prepared: Prepared,
    variable: Variable,
    placement: Placement,
    node: DataNode,
    rows: Seq<usize>,
) -> Placement
    decreases rows.len(),
{
    if rows.len() == 0 {
        placement
    } else {
        let before = place_at(inputs, prepared, variable, placement, node, rows.drop_last());
        let write = write_of(inputs, prepared, variable, node, rows.last());
        Placement {
            state: if !write.definite && node.kind != DataNodeKind::CallOutput {
                before.state.note(node.range, Notice::WriteUnordered)
            } else {
                before.state
            },
            writes: before.writes.push(write),
            unplaced: before.unplaced,
        }
    }
}

/// The larger of two numbers, at least one.
pub open spec fn at_least_one(a: nat, b: nat) -> nat {
    if a >= b && a >= 1 {
        a
    } else if b >= 1 {
        b
    } else {
        1
    }
}

/// Place the first definitions of a variable.
pub open spec fn place_all(
    inputs: UseDefInputs,
    prepared: Prepared,
    variable: Variable,
    state: UseDefState,
    count: nat,
) -> Placement
    decreases count,
{
    if count == 0 {
        Placement { state, writes: Seq::empty(), unplaced: Seq::empty() }
    } else {
        let before = place_all(inputs, prepared, variable, state, (count - 1) as nat);
        if before.state.exhausted {
            before
        } else {
            let node = variable.definitions[count - 1];
            let paid = before.state.spend(at_least_one(variable.rows.len(), 0));
            if paid.exhausted {
                Placement { state: paid, ..before }
            } else {
                let owners = owner_rows(inputs.cfg, variable.rows, node);
                if owners.len() == 0 {
                    Placement {
                        state: paid.note(node.range, Notice::DefinitionUnplaced),
                        writes: before.writes,
                        unplaced: before.unplaced.push(node.id),
                    }
                } else {
                    place_at(
                        inputs,
                        prepared,
                        variable,
                        Placement { state: paid, ..before },
                        node,
                        owners,
                    )
                }
            }
        }
    }
}

/// A list of identities with more of them, each once.
pub open spec fn with_ids(ids: Seq<DataNodeId>, more: Seq<DataNodeId>) -> Seq<DataNodeId>
    decreases more.len(),
{
    if more.len() == 0 {
        ids
    } else {
        with_id(with_ids(ids, more.drop_last()), more.last())
    }
}

/// The places at which a read looks for definitions.
pub open spec fn read_places(
    entered: Set<usize>,
    owners: Seq<usize>,
    read: DataNode,
) -> Seq<(usize, u32, bool)> {
    owners.filter(|row: usize| entered.contains(row)).map_values(
        |row: usize|
            (
                row,
                if read.kind == DataNodeKind::ParameterOutput {
                    u32::MAX
                } else {
                    read.range.start_byte
                },
                true,
            ),
    )
}

/// Find the definitions that may reach a read.
pub open spec fn resolve_read(
    inputs: UseDefInputs,
    prepared: Prepared,
    variable: Variable,
    writes: Seq<Write>,
    unplaced: Seq<DataNodeId>,
    state: UseDefState,
    read: DataNode,
) -> UseDefState {
    let paid = state.spend(at_least_one(variable.rows.len(), variable.definitions.len()));
    if paid.exhausted {
        paid
    } else {
        let owners = owner_rows(inputs.cfg, variable.rows, read);
        if owners.len() == 0 && read.kind == DataNodeKind::ParameterOutput {
            paid.note(read.range, Notice::OutputUnplaced)
        } else {
            let placeless = with_ids(Seq::empty(), unplaced);
            let (begun, noted) = if owners.len() == 0 {
                (
                    with_nodes(placeless, variable.definitions),
                    paid.note(read.range, Notice::UseUnplaced),
                )
            } else {
                (placeless, paid)
            };
            match walk_back(
                inputs.cfg,
                prepared.entered,
                prepared.first,
                writes,
                read,
                read_places(prepared.entered, owners, read),
                Seq::empty(),
                begun,
                noted.work,
            ) {
                None => UseDefState { exhausted: true, ..noted },
                Some((reaching, left)) => connect_all(
                    UseDefState { work: left, ..noted },
                    ordered_ids(reaching),
                    read,
                ),
            }
        }
    }
}

/// Find the definitions that may reach the first reads.
pub open spec fn resolve_reads(
    inputs: UseDefInputs,
    prepared: Prepared,
    variable: Variable,
    placement: Placement,
    reads: Seq<DataNode>,
) -> UseDefState
    decreases reads.len(),
{
    if reads.len() == 0 {
        placement.state
    } else {
        let before = resolve_reads(inputs, prepared, variable, placement, reads.drop_last());
        if before.exhausted {
            before
        } else {
            resolve_read(
                inputs,
                prepared,
                variable,
                placement.writes,
                placement.unplaced,
                before,
                reads.last(),
            )
        }
    }
}

/// The variable that some nodes define and use.
pub open spec fn variable_of(inputs: UseDefInputs, nodes: Seq<DataNode>) -> Variable {
    let definitions = nodes.filter(|n: DataNode| defines(n.kind));
    Variable {
        definitions,
        rows: function_rows(inputs.cfg.nodes@, nodes[0].function_id),
        builtin: inputs.ctx.language != Language::Cpp || exists|i: int|
            0 <= i < definitions.len() && is_builtin_value(
                inputs.ctx.tree,
                #[trigger] definitions[i],
            ),
    }
}

/// Find the definitions that may reach the uses of a variable.
pub open spec fn resolve_group(
    inputs: UseDefInputs,
    prepared: Prepared,
    state: UseDefState,
    nodes: Seq<DataNode>,
) -> UseDefState {
    let variable = variable_of(inputs, nodes);
    let reads = nodes.filter(|n: DataNode| uses(n.kind));
    if variable.definitions.len() == 0 || reads.len() == 0 {
        state
    } else {
        let placement = place_all(
            inputs,
            prepared,
            variable,
            state,
            variable.definitions.len(),
        );
        if placement.state.exhausted {
            placement.state
        } else {
            resolve_reads(inputs, prepared, variable, placement, reads)
        }
    }
}

/// Find the definitions that may reach the uses of the first variables.
pub open spec fn resolve_groups(
    inputs: UseDefInputs,
    prepared: Prepared,
    state: UseDefState,
    groups: Seq<u64>,
) -> UseDefState
    decreases groups.len(),
{
    if groups.len() == 0 {
        state
    } else {
        let before = resolve_groups(inputs, prepared, state, groups.drop_last());
        if before.exhausted {
            before
        } else {
            resolve_group(
                inputs,
                prepared,
                before,
                group_nodes(inputs, groups.last(), inputs.nodes.len()),
            )
        }
    }
}

/// Everything that can be found with an amount of work.
pub open spec fn use_def(inputs: UseDefInputs, work: nat) -> UseDefState {
    let start = UseDefState { edges: Seq::empty(), notes: Seq::empty(), work, exhausted: false };
    let stopped = UseDefState { exhausted: true, ..start };
    if work < preparation_work(inputs) {
        stopped
    } else {
        match enter_rows(
            inputs.cfg,
            entry_rows(inputs.cfg.nodes@),
            Set::empty(),
            (work - preparation_work(inputs)) as nat,
        ) {
            None => stopped,
            Some((entered, left)) => resolve_groups(
                inputs,
                prepared_with(inputs, entered),
                UseDefState { work: left, ..start },
                ordered_groups(inputs),
            ),
        }
    }
}

/// What a computation has prepared once it knows the rows that can be entered.
pub open spec fn prepared_with(inputs: UseDefInputs, entered: Set<usize>) -> Prepared {
    Prepared {
        activation: effective_at(inputs, inputs.nodes.len()),
        first: read_before_write(inputs),
        entered,
    }
}

/// A note as a diagnostic.
pub open spec fn note_view(note: (TextRange, Notice)) -> ExtractDiagnosticView {
    ExtractDiagnosticView {
        level: DiagnosticLevel::Warning,
        message: note.1.message().spec_bytes(),
        range: Some(note.0),
    }
}

/// The report that the work did not suffice.
pub open spec fn budget_view() -> ExtractDiagnosticView {
    ExtractDiagnosticView {
        level: DiagnosticLevel::Warning,
        message: "use_def_budget_exceeded: current and remaining use-def queries in this file are unexamined".spec_bytes(),
        range: None,
    }
}

/// The diagnostics of a computation.
pub open spec fn diagnostics_of(state: UseDefState) -> Seq<ExtractDiagnosticView> {
    let noted = state.notes.map_values(|note: (TextRange, Notice)| note_view(note));
    if state.exhausted {
        noted.push(budget_view())
    } else {
        noted
    }
}

/// The diagnostics, by value.
pub open spec fn report_views(diagnostics: Seq<ExtractDiagnostic>) -> Seq<ExtractDiagnosticView> {
    diagnostics.map_values(|d: ExtractDiagnostic| d@)
}

fn push_pair(pairs: &mut Vec<(DataNodeId, DataNodeId)>, a: DataNodeId, b: DataNodeId)
    ensures
        final(pairs)@ == old(pairs)@.push((a, b)),
{
    pairs.push((a, b));
}

fn has_pair(pairs: &[(DataNodeId, DataNodeId)], a: &DataNodeId, b: &DataNodeId) -> (r: bool)
    ensures
        r == pairs@.contains((*a, *b)),
{
    let mut i: usize = 0;
    while i < pairs.len()
        invariant
            i <= pairs@.len(),
            forall|k: int| 0 <= k < i ==> pairs@[k] != (*a, *b),
        decreases pairs@.len() - i,
    {
        if pairs[i].0 == *a && pairs[i].1 == *b {
            assert(pairs@[i as int] == (*a, *b));
            return true;
        }
        i += 1;
    }
    false
}

fn collect_activation(
    nodes: &[DataNode],
    existing: &[DataFlowEdge],
    tree: &SyntaxTree,
    Ghost(inputs): Ghost<UseDefInputs>,
) -> (r: IdMap<DataNodeId, u32>)
    requires
        inputs.nodes == nodes@,
        inputs.existing == existing@,
        inputs.ctx.tree == *tree,
    ensures
        r@ == effective_at(inputs, nodes@.len()),
{
    let mut map: IdMap<DataNodeId, u32> = IdMap::new();
    let mut i: usize = 0;
    while i < nodes.len()
        invariant
            i <= nodes@.len(),
            map@ == written_at(nodes@.take(i as int)),
        decreases nodes@.len() - i,
    {
        assert(nodes@.take(i + 1).drop_last() =~= nodes@.take(i as int));
        map.insert(nodes[i].id, nodes[i].range.end_byte);
        i += 1;
    }
    assert(nodes@.take(i as int) =~= nodes@);
    let mut i: usize = 0;
    assert(map@ == assigned_at(nodes@, existing@.take(0)));
    while i < existing.len()
        invariant
            i <= existing@.len(),
            map@ == assigned_at(nodes@, existing@.take(i as int)),
        decreases existing@.len() - i,
    {
        assert(existing@.take(i + 1).drop_last() =~= existing@.take(i as int));
        let edge = &existing[i];
        if edge.kind == DataFlowKind::Assign {
            let held = match map.get(&edge.target) {
                None => None,
                Some(end) => Some(*end),
            };
            if let Some(end) = held {
                let value: u32 = match find_last_node(nodes, &edge.source) {
                    None => edge.location.end_byte,
                    Some(node) => node.range.end_byte,
                };
                map.insert(edge.target, if value > end { value } else { end });
            }
        }
        i += 1;
    }
    assert(existing@.take(i as int) =~= existing@);
    let mut i: usize = 0;
    while i < nodes.len()
        invariant
            i <= nodes@.len(),
            inputs.nodes == nodes@,
            inputs.existing == existing@,
            inputs.ctx.tree == *tree,
            map@ == effective_at(inputs, i as nat),
        decreases nodes@.len() - i,
    {
        if nodes[i].kind == DataNodeKind::CallOutput {
            if let Some(call) = call_range(&nodes[i], tree) {
                map.insert(nodes[i].id, call.end_byte);
            }
        }
        i += 1;
    }
    map
}

/// Take work off what is left; says whether there was enough.
fn spend_work(left: &mut usize, amount: usize) -> (r: bool)
    ensures
        r == (*old(left) >= amount),
        *final(left) == if *old(left) >= amount {
            *old(left) - amount
        } else {
            *old(left) as int
        },
{
    if *left >= amount {
        *left -= amount;
        true
    } else {
        false
    }
}

proof fn lemma_read_count(existing: Seq<DataFlowEdge>, i: int)
    requires
        0 <= i <= existing.len(),
    ensures
        read_count(existing.take(i)) <= read_count(existing),
    decreases existing.len() - i,
{
    if i < existing.len() {
        assert(existing.take(i + 1).drop_last() =~= existing.take(i));
        lemma_read_count(existing, i + 1);
    } else {
        assert(existing.take(i) =~= existing);
    }
}

proof fn lemma_binding_count(nodes: Seq<DataNode>, output: DataNode, i: int)
    requires
        0 <= i <= nodes.len(),
    ensures
        binding_count(nodes.take(i), output) <= binding_count(nodes, output),
    decreases nodes.len() - i,
{
    if i < nodes.len() {
        assert(nodes.take(i + 1).drop_last() =~= nodes.take(i));
        lemma_binding_count(nodes, output, i + 1);
    } else {
        assert(nodes.take(i) =~= nodes);
    }
}

proof fn lemma_call_work(inputs: UseDefInputs, count: nat)
    requires
        count <= inputs.nodes.len(),
    ensures
        read_before_call(inputs, count).1 <= read_before_call(inputs, inputs.nodes.len()).1,
    decreases inputs.nodes.len() - count,
{
    if count < inputs.nodes.len() {
        lemma_call_work(inputs, count + 1);
    }
}

proof fn lemma_assignment_work(
    nodes: Seq<DataNode>,
    pairs: Seq<(DataNodeId, DataNodeId)>,
    existing: Seq<DataFlowEdge>,
    i: int,
)
    requires
        0 <= i <= existing.len(),
    ensures
        read_before_assignment(nodes, pairs, existing.take(i)).len() <= read_before_assignment(
            nodes,
            pairs,
            existing,
        ).len(),
    decreases existing.len() - i,
{
    if i < existing.len() {
        assert(existing.take(i + 1).drop_last() =~= existing.take(i));
        lemma_assignment_work(nodes, pairs, existing, i + 1);
    } else {
        assert(existing.take(i) =~= existing);
    }
}

proof fn lemma_value_work(
    pairs: Seq<(DataNodeId, DataNodeId)>,
    value: DataNodeId,
    target: DataNodeId,
    i: int,
)
    requires
        0 <= i <= pairs.len(),
    ensures
        operands_of_value(pairs.take(i), value, target).len() <= operands_of_value(
            pairs,
            value,
            target,
        ).len(),
    decreases pairs.len() - i,
{
    if i < pairs.len() {
        assert(pairs.take(i + 1).drop_last() =~= pairs.take(i));
        lemma_value_work(pairs, value, target, i + 1);
    } else {
        assert(pairs.take(i) =~= pairs);
    }
}

/// Whether a call leaves something among some nodes.
pub open spec fn has_output(nodes: Seq<DataNode>) -> bool {
    exists|k: int| 0 <= k < nodes.len() && (#[trigger] nodes[k]).kind == DataNodeKind::CallOutput
}

/// Whether there is something to do, before which it is asked whether it was canceled: a
/// read, what a call leaves, an entry of a function or a variable.
pub open spec fn has_work(inputs: UseDefInputs) -> bool {
    ||| read_count(inputs.existing) > 0
    ||| has_output(inputs.nodes)
    ||| entry_rows(inputs.cfg.nodes@).len() > 0
    ||| ordered_groups(inputs).len() > 0
}

/// What is read before it is written, taken off the work. `Some(None)` where the
/// work does not suffice; nothing when asked to stop.
fn collect_first<F: Fn() -> bool>(
    nodes: &[DataNode],
    existing: &[DataFlowEdge],
    tree: &SyntaxTree,
    cancel: &F,
    work: &mut usize,
    Ghost(inputs): Ghost<UseDefInputs>,
) -> (r: Option<Option<Vec<(DataNodeId, DataNodeId)>>>)
    requires
        call_requires(*cancel, ()),
        inputs.nodes == nodes@,
        inputs.existing == existing@,
        inputs.ctx.tree == *tree,
    ensures
        match r {
            None => call_ensures(*cancel, (), true),
            Some(None) => *old(work) < preparation_work(inputs) && call_ensures(
                *cancel,
                (),
                false,
            ),
            Some(Some(pairs)) => {
                &&& read_count(existing@) > 0 || has_output(nodes@) ==> call_ensures(
                    *cancel,
                    (),
                    false,
                )
                &&& *old(work) >= preparation_work(inputs)
                &&& *final(work) == *old(work) - preparation_work(inputs)
                &&& pairs@ == read_before_write(inputs)
            },
        },
{
    let ghost total = *work;
    let ghost reads = read_count(existing@);
    let ghost calls = read_before_call(inputs, nodes@.len()).1;
    let mut values: Vec<(DataNodeId, DataNodeId)> = Vec::new();
    let mut i: usize = 0;
    while i < existing.len()
        invariant
            i <= existing@.len(),
            call_requires(*cancel, ()),
            inputs.nodes == nodes@,
            inputs.existing == existing@,
            inputs.ctx.tree == *tree,
            total == *old(work),
            reads == read_count(existing@),
            read_count(existing@.take(i as int)) <= total,
            *work == total - read_count(existing@.take(i as int)),
            values@ == operands(nodes@, existing@.take(i as int)),
            read_count(existing@.take(i as int)) > 0 ==> call_ensures(*cancel, (), false),
        decreases existing@.len() - i,
    {
        assert(existing@.take(i + 1).drop_last() =~= existing@.take(i as int));
        let edge = &existing[i];
        if edge.kind == DataFlowKind::Read {
            if cancel() {
                return None;
            }
            if !spend_work(work, 1) {
                proof {
                    lemma_read_count(existing@, i + 1);
                }
                return Some(None);
            }
            match (find_last_node(nodes, &edge.source), find_last_node(nodes, &edge.target)) {
                (Some(input), Some(value)) => {
                    if input.kind == DataNodeKind::VariableUse && value.kind == DataNodeKind::Expr
                        && input.function_id == value.function_id && value.range.contains_range(
                        &input.range,
                    ) {
                        push_pair(&mut values, value.id, input.id);
                    }
                },
                _ => {},
            }
        }
        i += 1;
    }
    assert(existing@.take(i as int) =~= existing@);
    let mut pairs: Vec<(DataNodeId, DataNodeId)> = Vec::new();
    let mut i: usize = 0;
    while i < nodes.len()
        invariant
            i <= nodes@.len(),
            call_requires(*cancel, ()),
            inputs.nodes == nodes@,
            inputs.existing == existing@,
            inputs.ctx.tree == *tree,
            total == *old(work),
            reads == read_count(existing@),
            calls == read_before_call(inputs, nodes@.len()).1,
            reads + read_before_call(inputs, i as nat).1 <= total,
            *work == total - reads - read_before_call(inputs, i as nat).1,
            pairs@ == read_before_call(inputs, i as nat).0,
            reads > 0 ==> call_ensures(*cancel, (), false),
            forall|k: int|
                0 <= k < i && (#[trigger] nodes@[k]).kind == DataNodeKind::CallOutput
                    ==> call_ensures(*cancel, (), false),
        decreases nodes@.len() - i,
    {
        let output = &nodes[i];
        proof {
            lemma_call_work(inputs, (i + 1) as nat);
        }
        if output.kind == DataNodeKind::CallOutput {
            if cancel() {
                return None;
            }
            if let Some(call) = call_range(output, tree) {
                let ghost held = pairs@;
                let ghost before = *work;
                let mut k: usize = 0;
                assert(held + fed_by_call(nodes@.take(0), *output, call) =~= held);
                while k < nodes.len()
                    invariant
                        k <= nodes@.len(),
                        i < nodes@.len(),
                        call_ensures(*cancel, (), false),
                        *output == nodes@[i as int],
                        output.kind == DataNodeKind::CallOutput,
                        call_range_at(*tree, output.range) == Some(call),
                        inputs.nodes == nodes@,
                        inputs.existing == existing@,
                        inputs.ctx.tree == *tree,
                        total == *old(work),
                        reads == read_count(existing@),
                        before == total - reads - read_before_call(inputs, i as nat).1,
                        binding_count(nodes@.take(k as int), *output) <= before,
                        *work == before - binding_count(nodes@.take(k as int), *output),
                        pairs@ == held + fed_by_call(nodes@.take(k as int), *output, call),
                        read_before_call(inputs, (i + 1) as nat).1 <= read_before_call(
                            inputs,
                            nodes@.len(),
                        ).1,
                    decreases nodes@.len() - k,
                {
                    assert(nodes@.take(k + 1).drop_last() =~= nodes@.take(k as int));
                    let input = &nodes[k];
                    if input.binding_id.is_some() && input.binding_id == output.binding_id
                        && input.function_id == output.function_id {
                        if !spend_work(work, 1) {
                            proof {
                                lemma_binding_count(nodes@, *output, k + 1);
                            }
                            return Some(None);
                        }
                        if call.contains_range(&input.range) {
                            let ghost shown = pairs@;
                            push_pair(&mut pairs, input.id, output.id);
                            assert(pairs@ =~= held + fed_by_call(
                                nodes@.take(k + 1),
                                *output,
                                call,
                            ));
                        }
                    }
                    k += 1;
                }
                assert(nodes@.take(k as int) =~= nodes@);
            }
        }
        i += 1;
    }
    let ghost held = pairs@;
    let mut i: usize = 0;
    assert(held + read_before_assignment(nodes@, values@, existing@.take(0)) =~= held);
    while i < existing.len()
        invariant
            i <= existing@.len(),
            call_requires(*cancel, ()),
            inputs.nodes == nodes@,
            inputs.existing == existing@,
            inputs.ctx.tree == *tree,
            total == *old(work),
            reads == read_count(existing@),
            calls == read_before_call(inputs, nodes@.len()).1,
            held == read_before_call(inputs, nodes@.len()).0,
            values@ == operands(nodes@, existing@),
            reads + calls + read_before_assignment(
                nodes@,
                values@,
                existing@.take(i as int),
            ).len() <= total,
            *work == total - reads - calls - read_before_assignment(
                nodes@,
                values@,
                existing@.take(i as int),
            ).len(),
            pairs@ == held + read_before_assignment(nodes@, values@, existing@.take(i as int)),
            reads > 0 || has_output(nodes@) ==> call_ensures(*cancel, (), false),
        decreases existing@.len() - i,
    {
        assert(existing@.take(i + 1).drop_last() =~= existing@.take(i as int));
        let edge = &existing[i];
        let local = edge.kind == DataFlowKind::Assign && (match find_last_node(
            nodes,
            &edge.target,
        ) {
            None => false,
            Some(target) => target.kind == DataNodeKind::Local,
        });
        proof {
            lemma_assignment_work(nodes@, values@, existing@, i + 1);
        }
        if local {
            let ghost shown = pairs@;
            let ghost before = *work;
            let ghost earlier = read_before_assignment(nodes@, values@, existing@.take(i as int));
            let mut k: usize = 0;
            assert(shown + operands_of_value(values@.take(0), edge.source, edge.target) =~= shown);
            while k < values.len()
                invariant
                    k <= values@.len(),
                    i < existing@.len(),
                    call_requires(*cancel, ()),
                    reads > 0 || has_output(nodes@) ==> call_ensures(*cancel, (), false),
                    *edge == existing@[i as int],
                    assigns_local(nodes@, *edge),
                    inputs.nodes == nodes@,
                    inputs.existing == existing@,
                    inputs.ctx.tree == *tree,
                    total == *old(work),
                    reads == read_count(existing@),
                    calls == read_before_call(inputs, nodes@.len()).1,
                    values@ == operands(nodes@, existing@),
                    earlier == read_before_assignment(
                        nodes@,
                        values@,
                        existing@.take(i as int),
                    ),
                    existing@.take(i + 1).drop_last() == existing@.take(i as int),
                    before == total - reads - calls - earlier.len(),
                    read_before_assignment(nodes@, values@, existing@.take(i + 1)).len()
                        <= read_before_assignment(nodes@, values@, existing@).len(),
                    operands_of_value(values@.take(k as int), edge.source, edge.target).len()
                        <= before,
                    *work == before - operands_of_value(
                        values@.take(k as int),
                        edge.source,
                        edge.target,
                    ).len(),
                    pairs@ == shown + operands_of_value(
                        values@.take(k as int),
                        edge.source,
                        edge.target,
                    ),
                decreases values@.len() - k,
            {
                assert(values@.take(k + 1).drop_last() =~= values@.take(k as int));
                if values[k].0 == edge.source {
                    if cancel() {
                        return None;
                    }
                    if !spend_work(work, 1) {
                        proof {
                            lemma_value_work(values@, edge.source, edge.target, k + 1);
                        }
                        return Some(None);
                    }
                    push_pair(&mut pairs, values[k].1, edge.target);
                    assert(pairs@ =~= shown + operands_of_value(
                        values@.take(k + 1),
                        edge.source,
                        edge.target,
                    ));
                }
                k += 1;
            }
            assert(values@.take(k as int) =~= values@);
            assert(pairs@ =~= held + (earlier + operands_of_value(
                values@,
                edge.source,
                edge.target,
            )));
        }
        i += 1;
    }
    assert(existing@.take(i as int) =~= existing@);
    Some(Some(pairs))
}

fn find_row(nodes: &[CfgNode], id: &CfgNodeId) -> (r: Option<usize>)
    ensures
        r == row_of(nodes@, *id),
        r is Some ==> r->0 < nodes@.len(),
{
    let mut i: usize = nodes.len();
    assert(nodes@.take(i as int) =~= nodes@);
    while i > 0
        invariant
            i <= nodes@.len(),
            row_of(nodes@, *id) == row_of(nodes@.take(i as int), *id),
        decreases i,
    {
        assert(nodes@.take(i as int).drop_last() =~= nodes@.take(i - 1));
        i -= 1;
        if nodes[i].id == *id {
            return Some(i);
        }
    }
    None
}

/// The flow between rows.
struct Flow {
    after: Vec<Vec<usize>>,
    before: Vec<Vec<(usize, bool)>>,
}

impl Flow {
    spec fn describes(&self, nodes: Seq<CfgNode>, edges: Seq<CfgEdge>) -> bool {
        &&& self.after@.len() == nodes.len()
        &&& self.before@.len() == nodes.len()
        &&& forall|row: usize|
            row < nodes.len() ==> (#[trigger] self.after@[row as int])@ == rows_after(
                nodes,
                edges,
                row,
            )
        &&& forall|row: usize|
            row < nodes.len() ==> (#[trigger] self.before@[row as int])@ == rows_before(
                nodes,
                edges,
                row,
            )
        &&& forall|i: int, k: int|
            0 <= i < nodes.len() && 0 <= k < self.after@[i]@.len() ==> (
            #[trigger] self.after@[i]@[k]) < nodes.len()
        &&& forall|i: int, k: int|
            0 <= i < nodes.len() && 0 <= k < self.before@[i]@.len() ==> (
            #[trigger] self.before@[i]@[k]).0 < nodes.len()
    }
}

fn collect_flow(cfg: &CfgResult) -> (r: Flow)
    ensures
        r.describes(cfg.nodes@, cfg.edges@),
{
    let nodes = &cfg.nodes;
    let edges = &cfg.edges;
    let mut after: Vec<Vec<usize>> = Vec::new();
    let mut before: Vec<Vec<(usize, bool)>> = Vec::new();
    let mut i: usize = 0;
    while i < nodes.len()
        invariant
            i <= nodes@.len(),
            after@.len() == i,
            before@.len() == i,
            forall|k: int| 0 <= k < i ==> (#[trigger] after@[k])@.len() == 0,
            forall|k: int| 0 <= k < i ==> (#[trigger] before@[k])@.len() == 0,
        decreases nodes@.len() - i,
    {
        after.push(Vec::new());
        before.push(Vec::new());
        i += 1;
    }
    let mut flow = Flow { after, before };
    proof {
        assert forall|row: usize| row < nodes@.len() implies (
        #[trigger] flow.after@[row as int])@ == rows_after(nodes@, edges@.take(0), row) by {
            assert(flow.after@[row as int]@ =~= Seq::empty());
        }
        assert forall|row: usize| row < nodes@.len() implies (
        #[trigger] flow.before@[row as int])@ == rows_before(nodes@, edges@.take(0), row) by {
            assert(flow.before@[row as int]@ =~= Seq::empty());
        }
    }
    let mut e: usize = 0;
    while e < edges.len()
        invariant
            e <= edges@.len(),
            nodes@ == cfg.nodes@,
            edges@ == cfg.edges@,
            flow.describes(nodes@, edges@.take(e as int)),
        decreases edges@.len() - e,
    {
        assert(edges@.take(e + 1).drop_last() =~= edges@.take(e as int));
        let edge = &edges[e];
        let ghost old_after = flow.after@;
        let ghost old_before = flow.before@;
        match (
            find_row(nodes.as_slice(), &edge.source),
            find_row(nodes.as_slice(), &edge.target),
        ) {
            (Some(from), Some(to)) => {
                if nodes[from].function_id == nodes[to].function_id {
                    let normal = edge.kind != CfgEdgeKind::Exception;
                    let mut list: Vec<(usize, bool)> = Vec::new();
                    std::mem::swap(&mut list, &mut flow.before[to]);
                    list.push((from, normal));
                    flow.before[to] = list;
                    let mut list: Vec<usize> = Vec::new();
                    std::mem::swap(&mut list, &mut flow.after[from]);
                    list.push(to);
                    flow.after[from] = list;
                    proof {
                        let longer = edges@.take(e + 1);
                        assert forall|row: usize| row < nodes@.len() implies (
                        #[trigger] flow.after@[row as int])@ == rows_after(nodes@, longer, row) by {
                            assert(old_after[row as int]@ == rows_after(
                                nodes@,
                                edges@.take(e as int),
                                row,
                            ));
                            if row == from {
                                assert(flow.after@[row as int]@ == old_after[row as int]@.push(to));
                            } else {
                                assert(flow.after@[row as int] == old_after[row as int]);
                            }
                        }
                        assert forall|row: usize| row < nodes@.len() implies (
                        #[trigger] flow.before@[row as int])@ == rows_before(nodes@, longer, row) by {
                            assert(old_before[row as int]@ == rows_before(
                                nodes@,
                                edges@.take(e as int),
                                row,
                            ));
                            if row == to {
                                assert(flow.before@[row as int]@ == old_before[row as int]@.push((from, normal)));
                            } else {
                                assert(flow.before@[row as int] == old_before[row as int]);
                            }
                        }
                        assert forall|i: int, k: int|
                            0 <= i < nodes@.len() && 0 <= k < flow.after@[i]@.len() implies (
                        #[trigger] flow.after@[i]@[k]) < nodes@.len() by {
                            if i == from {
                                assert(flow.after@[i]@ == old_after[i]@.push(to));
                                if k < old_after[i]@.len() {
                                    assert(old_after[i]@[k] < nodes@.len());
                                }
                            } else {
                                assert(flow.after@[i] == old_after[i]);
                            }
                        }
                        assert forall|i: int, k: int|
                            0 <= i < nodes@.len() && 0 <= k < flow.before@[i]@.len() implies (
                        #[trigger] flow.before@[i]@[k]).0 < nodes@.len() by {
                            if i == to {
                                assert(flow.before@[i]@ == old_before[i]@.push((from, normal)));
                                if k < old_before[i]@.len() {
                                    assert(old_before[i]@[k].0 < nodes@.len());
                                }
                            } else {
                                assert(flow.before@[i] == old_before[i]);
                            }
                        }
                    }
                }
            },
            _ => {},
        }
        assert(flow.describes(nodes@, edges@.take(e + 1)));
        e += 1;
    }
    assert(edges@.take(e as int) =~= edges@);
    flow
}

/// Whether flags mark exactly the rows of a set.
spec fn marks(flags: Seq<bool>, rows: Set<usize>) -> bool {
    &&& forall|i: int| 0 <= i < flags.len() ==> #[trigger] flags[i] == rows.contains(i as usize)
    &&& forall|row: usize| #[trigger] rows.contains(row) ==> row < flags.len()
}

/// The rows that can be entered, taken off the work.
fn collect_entered<F: Fn() -> bool>(
    cfg: &CfgResult,
    flow: &Flow,
    cancel: &F,
    work: &mut usize,
) -> (r: Option<Option<Vec<bool>>>)
    requires
        call_requires(*cancel, ()),
        flow.describes(cfg.nodes@, cfg.edges@),
    ensures
        match r {
            None => call_ensures(*cancel, (), true),
            Some(None) => enter_rows(
                *cfg,
                entry_rows(cfg.nodes@),
                Set::empty(),
                *old(work) as nat,
            ) is None && call_ensures(*cancel, (), false),
            Some(Some(flags)) => {
                let found = enter_rows(
                    *cfg,
                    entry_rows(cfg.nodes@),
                    Set::empty(),
                    *old(work) as nat,
                );
                &&& found matches Some((rows, left))
                &&& flags@.len() == cfg.nodes@.len()
                &&& marks(flags@, rows)
                &&& *final(work) == left
                &&& entry_rows(cfg.nodes@).len() > 0 ==> call_ensures(*cancel, (), false)
            },
        },
{
    let count: usize = cfg.nodes.len();
    let mut pending: Vec<usize> = Vec::new();
    let mut flags: Vec<bool> = Vec::new();
    let mut i: usize = 0;
    while i < count
        invariant
            i <= count,
            count == cfg.nodes@.len(),
            flags@.len() == i,
            forall|k: int| 0 <= k < i ==> !(#[trigger] flags@[k]),
            pending@ == entry_rows(cfg.nodes@.take(i as int)),
            forall|k: int| 0 <= k < pending@.len() ==> (#[trigger] pending@[k]) < count,
        decreases count - i,
    {
        assert(cfg.nodes@.take(i + 1).drop_last() =~= cfg.nodes@.take(i as int));
        flags.push(false);
        if cfg.nodes[i].kind == CfgNodeKind::Entry {
            pending.push(i);
        }
        i += 1;
    }
    assert(cfg.nodes@.take(i as int) =~= cfg.nodes@);
    let ghost mut entered = Set::<usize>::empty();
    let ghost found = enter_rows(*cfg, entry_rows(cfg.nodes@), Set::empty(), *work as nat);
    while pending.len() > 0
        invariant
            call_requires(*cancel, ()),
            flow.describes(cfg.nodes@, cfg.edges@),
            count == cfg.nodes@.len(),
            flags@.len() == count,
            marks(flags@, entered),
            forall|k: int| 0 <= k < pending@.len() ==> (#[trigger] pending@[k]) < count,
            found == enter_rows(*cfg, pending@, entered, *work as nat),
            found == enter_rows(
                *cfg,
                entry_rows(cfg.nodes@),
                Set::empty(),
                *old(work) as nat,
            ),
            pending@ == entry_rows(cfg.nodes@) || call_ensures(*cancel, (), false),
        decreases *work, pending@.len(),
    {
        if cancel() {
            return None;
        }
        if !spend_work(work, 1) {
            return Some(None);
        }
        let ghost before = pending@;
        let row: usize = pending[pending.len() - 1];
        pending.pop();
        assert(pending@ =~= before.drop_last());
        if !flags[row] {
            flags.set(row, true);
            let next = &flow.after[row];
            let ghost rest = pending@;
            assert(next@ == rows_after(cfg.nodes@, cfg.edges@, row));
            let mut k: usize = 0;
            while k < next.len()
                invariant
                    k <= next@.len(),
                    row < count,
                    count == cfg.nodes@.len(),
                    flow.describes(cfg.nodes@, cfg.edges@),
                    next@ == flow.after@[row as int]@,
                    pending@ == rest + next@.take(k as int),
                    forall|m: int| 0 <= m < pending@.len() ==> (#[trigger] pending@[m]) < count,
                decreases next@.len() - k,
            {
                assert(flow.after@[row as int]@[k as int] < cfg.nodes@.len());
                pending.push(next[k]);
                assert(next@.take(k + 1) =~= next@.take(k as int).push(next@[k as int]));
                k += 1;
            }
            assert(next@.take(k as int) =~= next@);
            proof {
                entered = entered.insert(row);
            }
        }
    }
    Some(Some(flags))
}

fn collect_rows(nodes: &[CfgNode], function: Option<SymbolId>) -> (r: Vec<usize>)
    ensures
        r@ == function_rows(nodes@, function),
        forall|k: int| 0 <= k < r@.len() ==> (#[trigger] r@[k]) < nodes@.len(),
{
    let mut rows: Vec<usize> = Vec::new();
    let mut i: usize = 0;
    while i < nodes.len()
        invariant
            i <= nodes@.len(),
            rows@ == function_rows(nodes@.take(i as int), function),
            forall|k: int| 0 <= k < rows@.len() ==> (#[trigger] rows@[k]) < nodes@.len(),
        decreases nodes@.len() - i,
    {
        assert(nodes@.take(i + 1).drop_last() =~= nodes@.take(i as int));
        if function == Some(nodes[i].function_id) {
            rows.push(i);
        }
        i += 1;
    }
    assert(nodes@.take(i as int) =~= nodes@);
    rows
}

fn is_holding(c: &CfgNode, node: &DataNode) -> (r: bool)
    ensures
        r == holds_node(*c, *node),
{
    !matches!(c.kind, CfgNodeKind::Entry | CfgNodeKind::Exit | CfgNodeKind::BlockExit)
        && c.stmt_range.contains_range(&node.range) && c.stmt_range.start_byte
        < c.stmt_range.end_byte
}

/// The rows at which a node takes effect.
fn owners(node: &DataNode, rows: &[usize], cfg: &CfgResult) -> (r: Vec<usize>)
    requires
        forall|k: int| 0 <= k < rows@.len() ==> (#[trigger] rows@[k]) < cfg.nodes@.len(),
    ensures
        r@ == owner_rows(*cfg, rows@, *node),
        forall|k: int| 0 <= k < r@.len() ==> (#[trigger] r@[k]) < cfg.nodes@.len(),
{
    let ghost keep = if node.kind == DataNodeKind::ParameterOutput {
        |i: usize|
            cfg.normal_exit_sources@.contains(cfg.nodes@[i as int].id) && parameter_output_id_of(
                *node,
                cfg.nodes@[i as int],
            ) == node.id
    } else if node.kind == DataNodeKind::Parameter {
        |i: usize| cfg.nodes@[i as int].kind == CfgNodeKind::Entry
    } else {
        |i: usize| holds_node(cfg.nodes@[i as int], *node)
    };
    let mut found: Vec<usize> = Vec::new();
    let mut i: usize = 0;
    assert(rows@.take(0).filter(keep) =~= Seq::empty()) by {
        reveal(Seq::filter);
    }
    while i < rows.len()
        invariant
            i <= rows@.len(),
            forall|k: int| 0 <= k < rows@.len() ==> (#[trigger] rows@[k]) < cfg.nodes@.len(),
            keep == if node.kind == DataNodeKind::ParameterOutput {
                |i: usize|
                    cfg.normal_exit_sources@.contains(cfg.nodes@[i as int].id)
                        && parameter_output_id_of(*node, cfg.nodes@[i as int]) == node.id
            } else if node.kind == DataNodeKind::Parameter {
                |i: usize| cfg.nodes@[i as int].kind == CfgNodeKind::Entry
            } else {
                |i: usize| holds_node(cfg.nodes@[i as int], *node)
            },
            found@ == rows@.take(i as int).filter(keep),
            forall|k: int| 0 <= k < found@.len() ==> (#[trigger] found@[k]) < cfg.nodes@.len(),
        decreases rows@.len() - i,
    {
        let c = &cfg.nodes[rows[i]];
        let matched = if node.kind == DataNodeKind::ParameterOutput {
            holds(cfg.normal_exit_sources.as_slice(), &c.id) && parameter_output_id(node, c)
                == node.id
        } else if node.kind == DataNodeKind::Parameter {
            c.kind == CfgNodeKind::Entry
        } else {
            is_holding(c, node)
        };
        proof {
            lemma_filter_step(rows@, keep, i as int);
            assert(matched == keep(rows@[i as int]));
        }
        if matched {
            found.push(rows[i]);
        }
        i += 1;
    }
    assert(rows@.take(i as int) =~= rows@);
    if matches!(node.kind, DataNodeKind::ParameterOutput | DataNodeKind::Parameter) {
        return found;
    }
    proof {
        assert forall|k: int| 0 <= k < found@.len() implies holds_node(
            cfg.nodes@[#[trigger] found@[k] as int],
            *node,
        ) by {
            rows@.lemma_filter_pred(keep, k);
        }
    }
    if found.len() == 0 {
        assert(owner_rows(*cfg, rows@, *node) =~= Seq::empty()) by {
            reveal(Seq::filter);
        }
        return found;
    }
    let first = &cfg.nodes[found[0]];
    assert(holds_node(cfg.nodes@[found@[0] as int], *node));
    let mut least: u32 = first.stmt_range.end_byte - first.stmt_range.start_byte;
    let mut i: usize = 1;
    assert(found@.take(1) =~= seq![found@[0]]);
    while i < found.len()
        invariant
            1 <= i <= found@.len(),
            forall|k: int| 0 <= k < found@.len() ==> (#[trigger] found@[k]) < cfg.nodes@.len(),
            forall|k: int|
                0 <= k < found@.len() ==> holds_node(
                    cfg.nodes@[#[trigger] found@[k] as int],
                    *node,
                ),
            least == shortest(cfg.nodes@, found@.take(i as int)),
        decreases found@.len() - i,
    {
        assert(found@.take(i + 1).drop_last() =~= found@.take(i as int));
        assert(holds_node(cfg.nodes@[found@[i as int] as int], *node));
        let c = &cfg.nodes[found[i]];
        let length: u32 = c.stmt_range.end_byte - c.stmt_range.start_byte;
        if length < least {
            least = length;
        }
        i += 1;
    }
    assert(found@.take(i as int) =~= found@);
    let ghost holding = found@;
    let ghost minimal = |i: usize|
        statement_len(cfg.nodes@[i as int]) == shortest(cfg.nodes@, holding);
    let mut kept: Vec<usize> = Vec::new();
    let mut i: usize = 0;
    assert(holding.take(0).filter(minimal) =~= Seq::empty()) by {
        reveal(Seq::filter);
    }
    while i < found.len()
        invariant
            i <= found@.len(),
            holding == found@,
            least == shortest(cfg.nodes@, holding),
            minimal == (|i: usize|
                statement_len(cfg.nodes@[i as int]) == shortest(cfg.nodes@, holding)),
            forall|k: int| 0 <= k < found@.len() ==> (#[trigger] found@[k]) < cfg.nodes@.len(),
            forall|k: int|
                0 <= k < found@.len() ==> holds_node(
                    cfg.nodes@[#[trigger] found@[k] as int],
                    *node,
                ),
            kept@ == holding.take(i as int).filter(minimal),
            forall|k: int| 0 <= k < kept@.len() ==> (#[trigger] kept@[k]) < cfg.nodes@.len(),
        decreases found@.len() - i,
    {
        proof {
            lemma_filter_step(holding, minimal, i as int);
            assert(holds_node(cfg.nodes@[found@[i as int] as int], *node));
        }
        let c = &cfg.nodes[found[i]];
        if c.stmt_range.end_byte - c.stmt_range.start_byte == least {
            kept.push(found[i]);
        }
        i += 1;
    }
    assert(holding.take(i as int) =~= holding);
    kept
}

fn whole_statement(tree: &SyntaxTree, n: usize, statement: &TextRange) -> (r: bool)
    ensures
        r == is_whole_statement(*tree, n, *statement),
{
    let mut at: usize = n;
    loop
        invariant
            is_whole_statement(*tree, n, *statement) == is_whole_statement(*tree, at, *statement),
        decreases at,
    {
        let data = tree.data(at);
        if data.has_error || data.missing {
            return false;
        }
        if data.range.start_byte == statement.start_byte && data.range.end_byte
            == statement.end_byte {
            return true;
        }
        match tree.parent(at) {
            None => {
                return false;
            },
            Some(p) => {
                if !matches!(
                    tree.kind(p),
                    Kind::ExpressionStatement | Kind::ParenthesizedExpression | Kind::Declaration
                    | Kind::LexicalDeclaration | Kind::VariableDeclaration
                ) {
                    return false;
                }
                at = p;
            },
        }
    }
}

fn unconditional_write(
    definition: &DataNode,
    statement: &CfgNode,
    tree: &SyntaxTree,
    builtin: bool,
) -> (r: bool)
    ensures
        r == is_unconditional_write(*tree, *definition, *statement, builtin),
{
    if statement.kind != CfgNodeKind::Statement {
        return false;
    }
    let target = match tree.descendant_for_byte_range(
        definition.range.start_byte,
        definition.range.end_byte,
    ) {
        None => {
            return false;
        },
        Some(n) => n,
    };
    let data = tree.data(target);
    if data.kind != Kind::Identifier || data.range.start_byte != definition.range.start_byte
        || data.range.end_byte != definition.range.end_byte {
        return false;
    }
    let write = match tree.parent(target) {
        None => {
            return false;
        },
        Some(p) => p,
    };
    let kind = tree.kind(write);
    let role = match kind {
        Kind::AssignmentExpression | Kind::Assignment | Kind::AugmentedAssignment => Field::Left,
        Kind::InitDeclarator => Field::Declarator,
        Kind::VariableDeclarator => Field::Name,
        Kind::UpdateExpression => Field::Argument,
        _ => {
            return false;
        },
    };
    if !builtin && !matches!(kind, Kind::InitDeclarator | Kind::VariableDeclarator) {
        return false;
    }
    if tree.child_by_field(write, role) != Some(target) {
        return false;
    }
    whole_statement(tree, write, &statement.stmt_range)
}

/// Whether a word names part of a built-in type.
pub fn builtin_word(word: &[u8]) -> (r: bool)
    ensures
        r == is_builtin_word(word@),
{
    same_bytes(word, "bool".as_bytes()) || same_bytes(word, "char".as_bytes()) || same_bytes(
        word,
        "wchar_t".as_bytes(),
    ) || same_bytes(word, "char8_t".as_bytes()) || same_bytes(word, "char16_t".as_bytes())
        || same_bytes(word, "char32_t".as_bytes()) || same_bytes(word, "short".as_bytes())
        || same_bytes(word, "int".as_bytes()) || same_bytes(word, "long".as_bytes()) || same_bytes(
        word,
        "signed".as_bytes(),
    ) || same_bytes(word, "unsigned".as_bytes()) || same_bytes(word, "float".as_bytes())
        || same_bytes(word, "double".as_bytes())
}

/// Whether a definition is declared with a built-in value type in words.
fn has_builtin_value_type(node: &DataNode, tree: &SyntaxTree) -> (r: bool)
    ensures
        r == is_builtin_value(*tree, *node),
{
    let target = match tree.descendant_for_byte_range(node.range.start_byte, node.range.end_byte) {
        None => {
            return false;
        },
        Some(n) => n,
    };
    let mut declaration = match tree.parent(target) {
        None => {
            return false;
        },
        Some(p) => p,
    };
    if node.kind == DataNodeKind::Parameter && tree.kind(declaration) == Kind::ReferenceDeclarator {
        declaration = match tree.parent(declaration) {
            None => {
                return false;
            },
            Some(p) => p,
        };
    }
    if tree.kind(declaration) == Kind::InitDeclarator {
        declaration = match tree.parent(declaration) {
            None => {
                return false;
            },
            Some(p) => p,
        };
    }
    assert(declaration_of(*tree, *node) == Some(declaration));
    let data = tree.data(declaration);
    if !matches!(data.kind, Kind::Declaration | Kind::ParameterDeclaration) || data.has_error {
        return false;
    }
    let ty = match tree.child_by_field(declaration, Field::Type) {
        None => {
            return false;
        },
        Some(ty) => ty,
    };
    let text = match tree.node_text(ty) {
        None => {
            return false;
        },
        Some(text) => text,
    };
    let words = split_words(text);
    let ghost views = words_of(text@);
    if words.len() == 0 {
        assert(byte_views(words@).len() == 0);
        return false;
    }
    let mut i: usize = 0;
    while i < words.len()
        invariant
            i <= words@.len(),
            views == words_of(text@),
            byte_views(words@) == views,
            tree.text_of(ty) == Some(text@),
            tree.child_in_role(declaration, Field::Type) == Some(ty),
            declaration_of(*tree, *node) == Some(declaration),
            forall|k: int| 0 <= k < i ==> is_builtin_word(#[trigger] views[k]),
        decreases words@.len() - i,
    {
        assert(views[i as int] == words@[i as int]@);
        if !builtin_word(words[i].as_slice()) {
            return false;
        }
        i += 1;
    }
    assert(byte_views(words@).len() == words@.len());
    true
}

/// How far a running computation has come.
struct Progress {
    edges: Vec<DataFlowEdge>,
    notes: Vec<(TextRange, Notice)>,
    work: usize,
    exhausted: bool,
}

impl View for Progress {
    type V = UseDefState;

    closed spec fn view(&self) -> UseDefState {
        UseDefState {
            edges: self.edges@,
            notes: self.notes@,
            work: self.work as nat,
            exhausted: self.exhausted,
        }
    }
}

impl Progress {
    fn spend(&mut self, amount: usize)
        ensures
            final(self)@ == old(self)@.spend(amount as nat),
    {
        if self.work >= amount {
            self.work -= amount;
        } else {
            self.exhausted = true;
        }
    }

    fn note(&mut self, range: TextRange, notice: Notice)
        ensures
            final(self)@ == old(self)@.note(range, notice),
    {
        let mut i: usize = 0;
        while i < self.notes.len()
            invariant
                i <= self.notes@.len(),
                *self == *old(self),
                forall|k: int|
                    0 <= k < i ==> !((#[trigger] self.notes@[k]).0.same_bytes(range)
                        && self.notes@[k].1 == notice),
            decreases self.notes@.len() - i,
        {
            let noted = self.notes[i];
            if noted.1 == notice && noted.0.start_byte == range.start_byte && noted.0.end_byte
                == range.end_byte {
                assert(self.notes@[i as int].0.same_bytes(range));
                return ;
            }
            i += 1;
        }
        self.notes.push((range, notice));
    }

    fn connect(&mut self, definition: DataNodeId, read: &DataNode)
        ensures
            final(self)@ == old(self)@.connect(definition, *read),
    {
        let edge = DataFlowEdge::between(
            definition,
            read.id,
            DataFlowKind::Assign,
            read.range,
            85,
        );
        let mut i: usize = 0;
        while i < self.edges.len()
            invariant
                i <= self.edges@.len(),
                *self == *old(self),
                edge == DataFlowEdge::made(
                    definition,
                    read.id,
                    DataFlowKind::Assign,
                    read.range,
                    85,
                ),
                forall|k: int| 0 <= k < i ==> (#[trigger] self.edges@[k]).id != edge.id,
            decreases self.edges@.len() - i,
        {
            if self.edges[i].id == edge.id {
                return ;
            }
            i += 1;
        }
        self.edges.push(edge);
    }
}

fn record_id(ids: &mut Vec<DataNodeId>, id: DataNodeId)
    ensures
        final(ids)@ == with_id(old(ids)@, id),
{
    if !holds(ids.as_slice(), &id) {
        ids.push(id);
    }
}

/// The writes of each row, later ones first.
fn writes_by_row(writes: &[Write], count: usize) -> (r: Vec<Vec<Write>>)
    requires
        forall|k: int| 0 <= k < writes@.len() ==> (#[trigger] writes@[k]).row < count,
    ensures
        r@.len() == count,
        forall|row: usize|
            row < count ==> (#[trigger] r@[row as int])@ == writes_at(writes@, row),
{
    let mut table: Vec<Vec<Write>> = Vec::new();
    let mut i: usize = 0;
    while i < count
        invariant
            i <= count,
            table@.len() == i,
            forall|k: int| 0 <= k < i ==> (#[trigger] table@[k])@.len() == 0,
        decreases count - i,
    {
        table.push(Vec::new());
        i += 1;
    }
    proof {
        assert forall|row: usize| row < count implies (#[trigger] table@[row as int])@
            == writes@.take(0).filter(|w: Write| w.row == row) by {
            reveal(Seq::filter);
            assert(table@[row as int]@ =~= Seq::empty());
        }
    }
    let mut i: usize = 0;
    while i < writes.len()
        invariant
            i <= writes@.len(),
            table@.len() == count,
            forall|k: int| 0 <= k < writes@.len() ==> (#[trigger] writes@[k]).row < count,
            forall|row: usize|
                row < count ==> (#[trigger] table@[row as int])@ == writes@.take(i as int).filter(
                    |w: Write| w.row == row,
                ),
        decreases writes@.len() - i,
    {
        let write = writes[i];
        assert(writes@[i as int].row < count);
        let ghost before = table@;
        let mut list: Vec<Write> = Vec::new();
        std::mem::swap(&mut list, &mut table[write.row]);
        list.push(write);
        table[write.row] = list;
        proof {
            assert forall|row: usize| row < count implies (#[trigger] table@[row as int])@
                == writes@.take(i + 1).filter(|w: Write| w.row == row) by {
                lemma_filter_step(writes@, |w: Write| w.row == row, i as int);
                assert(before[row as int]@ == writes@.take(i as int).filter(
                    |w: Write| w.row == row,
                ));
                if row != write.row {
                    assert(table@[row as int] == before[row as int]);
                }
            }
        }
        i += 1;
    }
    assert(writes@.take(i as int) =~= writes@);
    let mut row: usize = 0;
    while row < count
        invariant
            row <= count,
            table@.len() == count,
            forall|k: usize|
                row <= k < count ==> (#[trigger] table@[k as int])@ == writes@.filter(
                    |w: Write| w.row == k,
                ),
            forall|k: usize|
                k < row ==> (#[trigger] table@[k as int])@ == writes_at(writes@, k),
        decreases count - row,
    {
        let ghost before = table@;
        let mut list: Vec<Write> = Vec::new();
        std::mem::swap(&mut list, &mut table[row]);
        let ghost here = list@;
        assert(here == before[row as int]@);
        let mut keys: Vec<Vec<u128>> = Vec::new();
        let mut i: usize = 0;
        while i < list.len()
            invariant
                i <= list@.len(),
                list@ == here,
                key_views(keys@) == here.take(i as int).map_values(|w: Write| write_key(w)),
                keys@.len() == i,
            decreases list@.len() - i,
        {
            let w = list[i];
            let mut key: Vec<u128> = Vec::new();
            key.push(u128::MAX - w.activation as u128);
            key.push(u128::MAX - w.start_byte as u128);
            key.push(u128::MAX - w.id.0.hi);
            key.push(u128::MAX - w.id.0.lo);
            assert(key@ =~= write_key(w));
            let ghost earlier = keys@;
            keys.push(key);
            assert(key_views(keys@) =~= key_views(earlier).push(key@));
            assert(here.take(i + 1).map_values(|w: Write| write_key(w)) =~= here.take(
                i as int,
            ).map_values(|w: Write| write_key(w)).push(write_key(w)));
            i += 1;
        }
        assert(here.take(i as int) =~= here);
        let sorted = arrange(list.as_slice(), keys.as_slice());
        table[row] = sorted;
        proof {
            assert forall|k: usize| row + 1 <= k < count implies (#[trigger] table@[k as int])@
                == writes@.filter(|w: Write| w.row == k) by {
                assert(table@[k as int] == before[k as int]);
            }
            assert forall|k: usize| k < row + 1 implies (#[trigger] table@[k as int])@
                == writes_at(writes@, k) by {
                if k < row {
                    assert(table@[k as int] == before[k as int]);
                }
            }
        }
        row += 1;
    }
    table
}

/// Look at the writes of a row.
fn scan_row(
    read: &DataNode,
    first: &[(DataNodeId, DataNodeId)],
    entries: &[Write],
    cutoff: u32,
    normal: bool,
    reaching: &mut Vec<DataNodeId>,
    work: &mut usize,
) -> (r: Option<bool>)
    ensures
        match scan_writes(
            *read,
            first@,
            entries@,
            cutoff,
            normal,
            old(reaching)@,
            *old(work) as nat,
        ) {
            None => r is None,
            Some((more, replaced, left)) => {
                &&& r == Some(replaced)
                &&& final(reaching)@ == more
                &&& *final(work) == left
            },
        },
{
    let ghost found = scan_writes(
        *read,
        first@,
        entries@,
        cutoff,
        normal,
        reaching@,
        *work as nat,
    );
    let mut i: usize = 0;
    assert(entries@.skip(0) =~= entries@);
    while i < entries.len()
        invariant
            i <= entries@.len(),
            found == scan_writes(
                *read,
                first@,
                entries@.skip(i as int),
                cutoff,
                normal,
                reaching@,
                *work as nat,
            ),
            found == scan_writes(
                *read,
                first@,
                entries@,
                cutoff,
                normal,
                old(reaching)@,
                *old(work) as nat,
            ),
        decreases entries@.len() - i,
    {
        assert(entries@.skip(i as int).drop_first() =~= entries@.skip(i + 1));
        if !spend_work(work, 1) {
            return None;
        }
        let w = entries[i];
        i += 1;
        if cutoff == read.range.start_byte && has_pair(first, &read.id, &w.id) {
            continue ;
        }
        if w.parameter || !w.definite || w.activation <= cutoff {
            record_id(reaching, w.id);
            if w.definite && normal && !w.parameter {
                return Some(true);
            }
        }
    }
    Some(false)
}

/// The places that a walk has visited. Nearly all of them are whole rows.
struct Visited {
    completed: Vec<bool>,
    thrown: Vec<bool>,
    others: Vec<(usize, u32, bool)>,
}

impl Visited {
    spec fn shows(&self, visited: Seq<(usize, u32, bool)>) -> bool {
        &&& self.completed@.len() == self.thrown@.len()
        &&& forall|row: usize|
            row < self.completed@.len() ==> #[trigger] self.completed@[row as int]
                == visited.contains((row, u32::MAX, true))
        &&& forall|row: usize|
            row < self.thrown@.len() ==> #[trigger] self.thrown@[row as int] == visited.contains(
                (row, u32::MAX, false),
            )
        &&& forall|place: (usize, u32, bool)|
            place.1 != u32::MAX ==> #[trigger] self.others@.contains(place) == visited.contains(
                place,
            )
    }

    fn new(count: usize) -> (r: Self)
        ensures
            r.completed@.len() == count,
            r.shows(Seq::empty()),
    {
        let mut completed: Vec<bool> = Vec::new();
        let mut thrown: Vec<bool> = Vec::new();
        let mut i: usize = 0;
        while i < count
            invariant
                i <= count,
                completed@.len() == i,
                thrown@.len() == i,
                forall|k: int| 0 <= k < i ==> !(#[trigger] completed@[k]),
                forall|k: int| 0 <= k < i ==> !(#[trigger] thrown@[k]),
            decreases count - i,
        {
            completed.push(false);
            thrown.push(false);
            i += 1;
        }
        Visited { completed, thrown, others: Vec::new() }
    }

    fn insert(
        &mut self,
        place: (usize, u32, bool),
        Ghost(visited): Ghost<Seq<(usize, u32, bool)>>,
    ) -> (r: bool)
        requires
            old(self).shows(visited),
            place.0 < old(self).completed@.len(),
        ensures
            final(self).completed@.len() == old(self).completed@.len(),
            r == !visited.contains(place),
            r ==> final(self).shows(visited.push(place)),
            !r ==> final(self).shows(visited),
    {
        proof {
            assert forall|other: (usize, u32, bool)|
                #[trigger] visited.push(place).contains(other) == (visited.contains(other) || other
                    == place) by {
                if visited.contains(other) {
                    let k = choose|k: int| 0 <= k < visited.len() && visited[k] == other;
                    assert(visited.push(place)[k] == other);
                }
                if other == place {
                    assert(visited.push(place)[visited.len() as int] == other);
                }
            }
        }
        if place.1 == u32::MAX {
            if place.2 {
                if self.completed[place.0] {
                    return false;
                }
                self.completed.set(place.0, true);
            } else {
                if self.thrown[place.0] {
                    return false;
                }
                self.thrown.set(place.0, true);
            }
            return true;
        }
        let mut i: usize = 0;
        while i < self.others.len()
            invariant
                i <= self.others@.len(),
                place.1 != u32::MAX,
                *self == *old(self),
                self.shows(visited),
                forall|k: int| 0 <= k < i ==> self.others@[k] != place,
            decreases self.others@.len() - i,
        {
            let other = self.others[i];
            if other.0 == place.0 && other.1 == place.1 && other.2 == place.2 {
                assert(self.others@[i as int] == place);
                assert(self.others@.contains(place));
                return false;
            }
            i += 1;
        }
        assert(!self.others@.contains(place));
        let ghost before = self.others@;
        self.others.push(place);
        proof {
            assert forall|other: (usize, u32, bool)| other.1 != u32::MAX implies #[trigger] self.others@.contains(
                other,
            ) == visited.push(place).contains(other) by {
                assert(before.contains(other) == visited.contains(other));
                if before.contains(other) {
                    let k = choose|k: int| 0 <= k < before.len() && before[k] == other;
                    assert(self.others@[k] == other);
                }
                if other == place {
                    assert(self.others@[before.len() as int] == other);
                }
            }
        }
        true
    }
}

/// The places at which a read looks for definitions.
fn start_places(
    entered: &[bool],
    owners: &[usize],
    read: &DataNode,
    Ghost(rows): Ghost<Set<usize>>,
) -> (r: Vec<(usize, u32, bool)>)
    requires
        marks(entered@, rows),
        forall|k: int| 0 <= k < owners@.len() ==> (#[trigger] owners@[k]) < entered@.len(),
    ensures
        r@ == read_places(rows, owners@, *read),
        forall|k: int| 0 <= k < r@.len() ==> (#[trigger] r@[k]).0 < entered@.len(),
{
    let cutoff: u32 = if read.kind == DataNodeKind::ParameterOutput {
        u32::MAX
    } else {
        read.range.start_byte
    };
    let ghost keep = |row: usize| rows.contains(row);
    let ghost place = |row: usize|
        (
            row,
            if read.kind == DataNodeKind::ParameterOutput {
                u32::MAX
            } else {
                read.range.start_byte
            },
            true,
        );
    let mut places: Vec<(usize, u32, bool)> = Vec::new();
    let mut i: usize = 0;
    assert(owners@.take(0).filter(keep).map_values(place) =~= Seq::empty()) by {
        reveal(Seq::filter);
    }
    while i < owners.len()
        invariant
            i <= owners@.len(),
            marks(entered@, rows),
            keep == (|row: usize| rows.contains(row)),
            forall|row: usize| #[trigger] place(row) == (row, cutoff, true),
            forall|k: int| 0 <= k < owners@.len() ==> (#[trigger] owners@[k]) < entered@.len(),
            places@ == owners@.take(i as int).filter(keep).map_values(place),
            forall|k: int| 0 <= k < places@.len() ==> (#[trigger] places@[k]).0 < entered@.len(),
        decreases owners@.len() - i,
    {
        assert(owners@[i as int] < entered@.len());
        let row: usize = owners[i];
        proof {
            lemma_filter_step(owners@, keep, i as int);
            assert(entered@[row as int] == rows.contains(row));
        }
        if entered[row] {
            places.push((row, cutoff, true));
            assert(places@ =~= owners@.take(i as int).filter(keep).push(row).map_values(place));
        }
        i += 1;
    }
    assert(owners@.take(i as int) =~= owners@);
    places
}

/// Go on with the places from which control comes to a row.
fn push_places(
    pending: &mut Vec<(usize, u32, bool)>,
    before: &[(usize, bool)],
    entered: &[bool],
    Ghost(rows): Ghost<Set<usize>>,
)
    requires
        marks(entered@, rows),
        forall|k: int| 0 <= k < before@.len() ==> (#[trigger] before@[k]).0 < entered@.len(),
        forall|k: int|
            0 <= k < old(pending)@.len() ==> (#[trigger] old(pending)@[k]).0 < entered@.len(),
    ensures
        final(pending)@ == old(pending)@ + before@.filter(
            |p: (usize, bool)| rows.contains(p.0),
        ).map_values(|p: (usize, bool)| (p.0, u32::MAX, p.1)),
        forall|k: int|
            0 <= k < final(pending)@.len() ==> (#[trigger] final(pending)@[k]).0 < entered@.len(),
{
    let ghost keep = |p: (usize, bool)| rows.contains(p.0);
    let ghost place = |p: (usize, bool)| (p.0, u32::MAX, p.1);
    let ghost start = pending@;
    let mut i: usize = 0;
    assert(before@.take(0).filter(keep).map_values(place) =~= Seq::empty()) by {
        reveal(Seq::filter);
    }
    assert(start + Seq::<(usize, u32, bool)>::empty() =~= start);
    while i < before.len()
        invariant
            i <= before@.len(),
            marks(entered@, rows),
            keep == (|p: (usize, bool)| rows.contains(p.0)),
            place == (|p: (usize, bool)| (p.0, u32::MAX, p.1)),
            forall|k: int| 0 <= k < before@.len() ==> (#[trigger] before@[k]).0 < entered@.len(),
            pending@ == start + before@.take(i as int).filter(keep).map_values(place),
            forall|k: int| 0 <= k < pending@.len() ==> (#[trigger] pending@[k]).0 < entered@.len(),
        decreases before@.len() - i,
    {
        assert(before@[i as int].0 < entered@.len());
        let p = before[i];
        proof {
            lemma_filter_step(before@, keep, i as int);
            assert(entered@[p.0 as int] == rows.contains(p.0));
        }
        if entered[p.0] {
            pending.push((p.0, u32::MAX, p.1));
            assert(pending@ =~= start + before@.take(i as int).filter(keep).push(p).map_values(
                place,
            ));
        }
        i += 1;
    }
    assert(before@.take(i as int) =~= before@);
}

/// Walk backward from a read.
fn walk<F: Fn() -> bool>(
    cfg: &CfgResult,
    flow: &Flow,
    entered: &[bool],
    first: &[(DataNodeId, DataNodeId)],
    table: &[Vec<Write>],
    read: &DataNode,
    places: Vec<(usize, u32, bool)>,
    begun: Vec<DataNodeId>,
    work: &mut usize,
    cancel: &F,
    Ghost(rows): Ghost<Set<usize>>,
    Ghost(writes): Ghost<Seq<Write>>,
) -> (r: Option<Option<Vec<DataNodeId>>>)
    requires
        call_requires(*cancel, ()),
        flow.describes(cfg.nodes@, cfg.edges@),
        entered@.len() == cfg.nodes@.len(),
        marks(entered@, rows),
        table@.len() == cfg.nodes@.len(),
        forall|row: usize|
            row < table@.len() ==> (#[trigger] table@[row as int])@ == writes_at(writes, row),
        forall|k: int| 0 <= k < places@.len() ==> (#[trigger] places@[k]).0 < entered@.len(),
    ensures
        match r {
            None => call_ensures(*cancel, (), true),
            Some(found) => match walk_back(
                *cfg,
                rows,
                first@,
                writes,
                *read,
                places@,
                Seq::empty(),
                begun@,
                *old(work) as nat,
            ) {
                None => found is None,
                Some((reaching, left)) => {
                    &&& found is Some
                    &&& found->0@ == reaching
                    &&& *final(work) == left
                },
            },
        },
{
    let ghost expected = walk_back(
        *cfg,
        rows,
        first@,
        writes,
        *read,
        places@,
        Seq::empty(),
        begun@,
        *work as nat,
    );
    let mut pending = places;
    let mut reaching = begun;
    let mut seen = Visited::new(entered.len());
    let ghost mut visited = Seq::<(usize, u32, bool)>::empty();
    while pending.len() > 0
        invariant
            call_requires(*cancel, ()),
            flow.describes(cfg.nodes@, cfg.edges@),
            entered@.len() == cfg.nodes@.len(),
            marks(entered@, rows),
            table@.len() == cfg.nodes@.len(),
            forall|row: usize|
                row < table@.len() ==> (#[trigger] table@[row as int])@ == writes_at(writes, row),
            forall|k: int| 0 <= k < pending@.len() ==> (#[trigger] pending@[k]).0 < entered@.len(),
            seen.completed@.len() == entered@.len(),
            seen.shows(visited),
            expected == walk_back(
                *cfg,
                rows,
                first@,
                writes,
                *read,
                pending@,
                visited,
                reaching@,
                *work as nat,
            ),
            expected == walk_back(
                *cfg,
                rows,
                first@,
                writes,
                *read,
                places@,
                Seq::empty(),
                begun@,
                *old(work) as nat,
            ),
        decreases *work, pending@.len(),
    {
        if cancel() {
            return None;
        }
        let ghost earlier = pending@;
        let place = pending[pending.len() - 1];
        assert(place.0 < entered@.len());
        pending.pop();
        assert(pending@ =~= earlier.drop_last());
        if !seen.insert(place, Ghost(visited)) {
            continue ;
        }
        if !spend_work(work, 1) {
            return Some(None);
        }
        proof {
            lemma_scan_work(
                *read,
                first@,
                writes_at(writes, place.0),
                place.1,
                place.2,
                reaching@,
                *work as nat,
            );
        }
        let ghost rest = pending@;
        match scan_row(
            read,
            first,
            table[place.0].as_slice(),
            place.1,
            place.2,
            &mut reaching,
            work,
        ) {
            None => {
                return Some(None);
            },
            Some(replaced) => {
                if !replaced {
                    let before = &flow.before[place.0];
                    proof {
                        assert(before@ == rows_before(cfg.nodes@, cfg.edges@, place.0));
                        assert forall|k: int| 0 <= k < before@.len() implies (
                        #[trigger] before@[k]).0 < entered@.len() by {
                            assert(flow.before@[place.0 as int]@[k].0 < cfg.nodes@.len());
                        }
                    }
                    push_places(&mut pending, before.as_slice(), entered, Ghost(rows));
                    assert(pending@ == rest + places_before(*cfg, rows, place.0));
                }
            },
        }
        proof {
            visited = visited.push(place);
        }
    }
    Some(Some(reaching))
}

/// One variable under examination.
struct Examined {
    definitions: Vec<DataNode>,
    rows: Vec<usize>,
    builtin: bool,
}

impl View for Examined {
    type V = Variable;

    closed spec fn view(&self) -> Variable {
        Variable { definitions: self.definitions@, rows: self.rows@, builtin: self.builtin }
    }
}

proof fn lemma_place_stays(
    inputs: UseDefInputs,
    prepared: Prepared,
    variable: Variable,
    state: UseDefState,
    count: nat,
    more: nat,
)
    requires
        count <= more,
        place_all(inputs, prepared, variable, state, count).state.exhausted,
    ensures
        place_all(inputs, prepared, variable, state, more) == place_all(
            inputs,
            prepared,
            variable,
            state,
            count,
        ),
    decreases more,
{
    if count < more {
        lemma_place_stays(inputs, prepared, variable, state, count, (more - 1) as nat);
    }
}

proof fn lemma_note_keeps(state: UseDefState, range: TextRange, notice: Notice)
    ensures
        state.note(range, notice).exhausted == state.exhausted,
        state.note(range, notice).work == state.work,
{
}

proof fn lemma_place_at_keeps(
    inputs: UseDefInputs,
    prepared: Prepared,
    variable: Variable,
    placement: Placement,
    node: DataNode,
    rows: Seq<usize>,
)
    ensures
        place_at(inputs, prepared, variable, placement, node, rows).state.exhausted
            == placement.state.exhausted,
    decreases rows.len(),
{
    if rows.len() > 0 {
        lemma_place_at_keeps(inputs, prepared, variable, placement, node, rows.drop_last());
    }
}

/// Place the definitions of a variable.
fn place_definitions<F: Fn() -> bool>(
    variable: &Examined,
    cfg: &CfgResult,
    tree: &SyntaxTree,
    activation: &IdMap<DataNodeId, u32>,
    progress: &mut Progress,
    cancel: &F,
    Ghost(inputs): Ghost<UseDefInputs>,
    Ghost(prepared): Ghost<Prepared>,
) -> (r: Option<(Vec<Write>, Vec<DataNodeId>)>)
    requires
        call_requires(*cancel, ()),
        inputs.cfg == *cfg,
        inputs.ctx.tree == *tree,
        prepared.activation == activation@,
        !old(progress)@.exhausted,
        forall|k: int|
            0 <= k < variable.rows@.len() ==> (#[trigger] variable.rows@[k]) < cfg.nodes@.len(),
    ensures
        match r {
            None => call_ensures(*cancel, (), true),
            Some((writes, unplaced)) => {
                &&& place_all(
                    inputs,
                    prepared,
                    variable@,
                    old(progress)@,
                    variable.definitions@.len(),
                ) == (Placement { state: final(progress)@, writes: writes@, unplaced: unplaced@ })
                &&& forall|k: int|
                    0 <= k < writes@.len() ==> (#[trigger] writes@[k]).row < cfg.nodes@.len()
            },
        },
{
    let ghost start = progress@;
    let mut writes: Vec<Write> = Vec::new();
    let mut unplaced: Vec<DataNodeId> = Vec::new();
    let price: usize = if variable.rows.len() > 1 {
        variable.rows.len()
    } else {
        1
    };
    let mut i: usize = 0;
    while i < variable.definitions.len()
        invariant
            i <= variable.definitions@.len(),
            call_requires(*cancel, ()),
            inputs.cfg == *cfg,
            inputs.ctx.tree == *tree,
            prepared.activation == activation@,
            start == old(progress)@,
            price == at_least_one(variable.rows@.len(), 0),
            !progress@.exhausted,
            forall|k: int|
                0 <= k < variable.rows@.len() ==> (#[trigger] variable.rows@[k]) < cfg.nodes@.len(),
            place_all(inputs, prepared, variable@, start, i as nat) == (Placement {
                state: progress@,
                writes: writes@,
                unplaced: unplaced@,
            }),
            forall|k: int|
                0 <= k < writes@.len() ==> (#[trigger] writes@[k]).row < cfg.nodes@.len(),
        decreases variable.definitions@.len() - i,
    {
        if cancel() {
            return None;
        }
        let node = &variable.definitions[i];
        let ghost before = place_all(inputs, prepared, variable@, start, i as nat);
        progress.spend(price);
        let ghost paid = progress@;
        if progress.exhausted {
            proof {
                assert(place_all(inputs, prepared, variable@, start, (i + 1) as nat)
                    == (Placement { state: paid, ..before }));
                lemma_place_stays(
                    inputs,
                    prepared,
                    variable@,
                    start,
                    (i + 1) as nat,
                    variable.definitions@.len(),
                );
            }
            return Some((writes, unplaced));
        }
        let rows = owners(node, variable.rows.as_slice(), cfg);
        if rows.len() == 0 {
            unplaced.push(node.id);
            progress.note(node.range, Notice::DefinitionUnplaced);
            proof {
                lemma_note_keeps(paid, node.range, Notice::DefinitionUnplaced);
            }
        } else {
            let ghost begun = Placement { state: paid, ..before };
            let at = match activation.get(&node.id) {
                Some(at) => *at,
                None => node.range.end_byte,
            };
            let mut k: usize = 0;
            while k < rows.len()
                invariant
                    k <= rows@.len(),
                    inputs.cfg == *cfg,
                    inputs.ctx.tree == *tree,
                    prepared.activation == activation@,
                    at == activation_of(prepared.activation, *node),
                    forall|k: int|
                        0 <= k < rows@.len() ==> (#[trigger] rows@[k]) < cfg.nodes@.len(),
                    forall|k: int|
                        0 <= k < writes@.len() ==> (#[trigger] writes@[k]).row < cfg.nodes@.len(),
                    place_at(
                        inputs,
                        prepared,
                        variable@,
                        begun,
                        *node,
                        rows@.take(k as int),
                    ) == (Placement { state: progress@, writes: writes@, unplaced: unplaced@ }),
                decreases rows@.len() - k,
            {
                assert(rows@.take(k + 1).drop_last() =~= rows@.take(k as int));
                let row: usize = rows[k];
                let definite = node.kind == DataNodeKind::Parameter || (node.kind
                    != DataNodeKind::CallOutput && node.binding_id.is_some()
                    && unconditional_write(node, &cfg.nodes[row], tree, variable.builtin));
                if !definite && node.kind != DataNodeKind::CallOutput {
                    progress.note(node.range, Notice::WriteUnordered);
                }
                writes.push(
                    Write {
                        row,
                        id: node.id,
                        start_byte: node.range.start_byte,
                        activation: at,
                        parameter: node.kind == DataNodeKind::Parameter,
                        definite,
                    },
                );
                k += 1;
            }
            proof {
                assert(rows@.take(k as int) =~= rows@);
                lemma_place_at_keeps(inputs, prepared, variable@, begun, *node, rows@);
            }
        }
        i += 1;
    }
    Some((writes, unplaced))
}

/// Find the definitions that may reach a read. Says whether it came to an end.
fn examine_read<F: Fn() -> bool>(
    variable: &Examined,
    cfg: &CfgResult,
    flow: &Flow,
    entered: &[bool],
    first: &[(DataNodeId, DataNodeId)],
    table: &[Vec<Write>],
    unplaced: &[DataNodeId],
    read: &DataNode,
    progress: &mut Progress,
    cancel: &F,
    Ghost(inputs): Ghost<UseDefInputs>,
    Ghost(prepared): Ghost<Prepared>,
    Ghost(writes): Ghost<Seq<Write>>,
) -> (r: bool)
    requires
        call_requires(*cancel, ()),
        inputs.cfg == *cfg,
        prepared.first == first@,
        !old(progress)@.exhausted,
        flow.describes(cfg.nodes@, cfg.edges@),
        entered@.len() == cfg.nodes@.len(),
        marks(entered@, prepared.entered),
        table@.len() == cfg.nodes@.len(),
        forall|row: usize|
            row < table@.len() ==> (#[trigger] table@[row as int])@ == writes_at(writes, row),
        forall|k: int|
            0 <= k < variable.rows@.len() ==> (#[trigger] variable.rows@[k]) < cfg.nodes@.len(),
    ensures
        !r ==> call_ensures(*cancel, (), true),
        r ==> final(progress)@ == resolve_read(
            inputs,
            prepared,
            variable@,
            writes,
            unplaced@,
            old(progress)@,
            *read,
        ),
{
    let definitions = &variable.definitions;
    let mut price: usize = variable.rows.len();
    if price < definitions.len() {
        price = definitions.len();
    }
    if price < 1 {
        price = 1;
    }
    assert(price == at_least_one(variable.rows@.len(), definitions@.len()));
    progress.spend(price);
    if progress.exhausted {
        return true;
    }
    let rows = owners(read, variable.rows.as_slice(), cfg);
    if rows.len() == 0 && read.kind == DataNodeKind::ParameterOutput {
        progress.note(read.range, Notice::OutputUnplaced);
        return true;
    }
    let ghost paid = progress@;
    let mut reaching: Vec<DataNodeId> = Vec::new();
    let mut i: usize = 0;
    while i < unplaced.len()
        invariant
            i <= unplaced@.len(),
            reaching@ == with_ids(Seq::empty(), unplaced@.take(i as int)),
        decreases unplaced@.len() - i,
    {
        assert(unplaced@.take(i + 1).drop_last() =~= unplaced@.take(i as int));
        record_id(&mut reaching, unplaced[i]);
        i += 1;
    }
    assert(unplaced@.take(i as int) =~= unplaced@);
    let ghost placeless = reaching@;
    if rows.len() == 0 {
        let mut i: usize = 0;
        while i < definitions.len()
            invariant
                i <= definitions@.len(),
                reaching@ == with_nodes(placeless, definitions@.take(i as int)),
            decreases definitions@.len() - i,
        {
            assert(definitions@.take(i + 1).drop_last() =~= definitions@.take(i as int));
            record_id(&mut reaching, definitions[i].id);
            i += 1;
        }
        assert(definitions@.take(i as int) =~= definitions@);
        progress.note(read.range, Notice::UseUnplaced);
    }
    let ghost noted = progress@;
    let places = start_places(entered, rows.as_slice(), read, Ghost(prepared.entered));
    let mut work: usize = progress.work;
    match walk(
        cfg,
        flow,
        entered,
        first,
        table,
        read,
        places,
        reaching,
        &mut work,
        cancel,
        Ghost(prepared.entered),
        Ghost(writes),
    ) {
        None => false,
        Some(None) => {
            progress.exhausted = true;
            assert(progress@ =~= (UseDefState { exhausted: true, ..noted }));
            true
        },
        Some(Some(found)) => {
            progress.work = work;
            let ghost started = progress@;
            let mut keys: Vec<Vec<u128>> = Vec::new();
            let mut i: usize = 0;
            while i < found.len()
                invariant
                    i <= found@.len(),
                    keys@.len() == i,
                    key_views(keys@) == found@.take(i as int).map_values(
                        |id: DataNodeId| seq![id.0.hi, id.0.lo],
                    ),
                decreases found@.len() - i,
            {
                let id = found[i];
                let key = vec![id.0.hi, id.0.lo];
                assert(key@ =~= seq![id.0.hi, id.0.lo]);
                let ghost earlier = keys@;
                keys.push(key);
                assert(key_views(keys@) =~= key_views(earlier).push(key@));
                assert(found@.take(i + 1).map_values(|id: DataNodeId| seq![id.0.hi, id.0.lo])
                    =~= found@.take(i as int).map_values(
                    |id: DataNodeId| seq![id.0.hi, id.0.lo],
                ).push(seq![id.0.hi, id.0.lo]));
                i += 1;
            }
            assert(found@.take(i as int) =~= found@);
            let ordered = arrange(found.as_slice(), keys.as_slice());
            assert(ordered@ == ordered_ids(found@));
            let mut i: usize = 0;
            while i < ordered.len()
                invariant
                    i <= ordered@.len(),
                    progress@ == connect_all(started, ordered@.take(i as int), *read),
                decreases ordered@.len() - i,
            {
                assert(ordered@.take(i + 1).drop_last() =~= ordered@.take(i as int));
                progress.connect(ordered[i], read);
                i += 1;
            }
            assert(ordered@.take(i as int) =~= ordered@);
            true
        },
    }
}

proof fn lemma_reads_stay(
    inputs: UseDefInputs,
    prepared: Prepared,
    variable: Variable,
    placement: Placement,
    reads: Seq<DataNode>,
    count: int,
)
    requires
        0 <= count <= reads.len(),
        resolve_reads(inputs, prepared, variable, placement, reads.take(count)).exhausted,
    ensures
        resolve_reads(inputs, prepared, variable, placement, reads) == resolve_reads(
            inputs,
            prepared,
            variable,
            placement,
            reads.take(count),
        ),
    decreases reads.len(),
{
    if count == reads.len() {
        assert(reads.take(count) =~= reads);
    } else {
        assert(reads.drop_last().take(count) =~= reads.take(count));
        lemma_reads_stay(inputs, prepared, variable, placement, reads.drop_last(), count);
    }
}

proof fn lemma_groups_stay(
    inputs: UseDefInputs,
    prepared: Prepared,
    state: UseDefState,
    groups: Seq<u64>,
    count: int,
)
    requires
        0 <= count <= groups.len(),
        resolve_groups(inputs, prepared, state, groups.take(count)).exhausted,
    ensures
        resolve_groups(inputs, prepared, state, groups) == resolve_groups(
            inputs,
            prepared,
            state,
            groups.take(count),
        ),
    decreases groups.len(),
{
    if count == groups.len() {
        assert(groups.take(count) =~= groups);
    } else {
        assert(groups.drop_last().take(count) =~= groups.take(count));
        lemma_groups_stay(inputs, prepared, state, groups.drop_last(), count);
    }
}

fn is_definition(kind: DataNodeKind) -> (r: bool)
    ensures
        r == defines(kind),
{
    matches!(kind, DataNodeKind::Local | DataNodeKind::Parameter | DataNodeKind::CallOutput)
}

fn is_use(kind: DataNodeKind) -> (r: bool)
    ensures
        r == uses(kind),
{
    matches!(
        kind,
        DataNodeKind::VariableUse | DataNodeKind::ParameterOutput | DataNodeKind::Receiver
        | DataNodeKind::Expr | DataNodeKind::CallArg | DataNodeKind::Return
    )
}

/// Find the definitions that may reach reads. Says whether it came to an end.
fn examine_reads<F: Fn() -> bool>(
    variable: &Examined,
    cfg: &CfgResult,
    flow: &Flow,
    entered: &[bool],
    first: &[(DataNodeId, DataNodeId)],
    table: &[Vec<Write>],
    unplaced: &[DataNodeId],
    reads: &[DataNode],
    progress: &mut Progress,
    cancel: &F,
    Ghost(inputs): Ghost<UseDefInputs>,
    Ghost(prepared): Ghost<Prepared>,
    Ghost(placement): Ghost<Placement>,
) -> (r: bool)
    requires
        call_requires(*cancel, ()),
        inputs.cfg == *cfg,
        prepared.first == first@,
        !old(progress)@.exhausted,
        placement.state == old(progress)@,
        placement.unplaced == unplaced@,
        flow.describes(cfg.nodes@, cfg.edges@),
        entered@.len() == cfg.nodes@.len(),
        marks(entered@, prepared.entered),
        table@.len() == cfg.nodes@.len(),
        forall|row: usize|
            row < table@.len() ==> (#[trigger] table@[row as int])@ == writes_at(
                placement.writes,
                row,
            ),
        forall|k: int|
            0 <= k < variable.rows@.len() ==> (#[trigger] variable.rows@[k]) < cfg.nodes@.len(),
    ensures
        !r ==> call_ensures(*cancel, (), true),
        r ==> final(progress)@ == resolve_reads(inputs, prepared, variable@, placement, reads@),
{
    let mut i: usize = 0;
    while i < reads.len()
        invariant
            i <= reads@.len(),
            call_requires(*cancel, ()),
            inputs.cfg == *cfg,
            prepared.first == first@,
            flow.describes(cfg.nodes@, cfg.edges@),
            entered@.len() == cfg.nodes@.len(),
            marks(entered@, prepared.entered),
            table@.len() == cfg.nodes@.len(),
            forall|row: usize|
                row < table@.len() ==> (#[trigger] table@[row as int])@ == writes_at(
                    placement.writes,
                    row,
                ),
            forall|k: int|
                0 <= k < variable.rows@.len() ==> (#[trigger] variable.rows@[k]) < cfg.nodes@.len(),
            placement.unplaced == unplaced@,
            !progress@.exhausted,
            progress@ == resolve_reads(
                inputs,
                prepared,
                variable@,
                placement,
                reads@.take(i as int),
            ),
        decreases reads@.len() - i,
    {
        assert(reads@.take(i + 1).drop_last() =~= reads@.take(i as int));
        if cancel() {
            return false;
        }
        if !examine_read(
            variable,
            cfg,
            flow,
            entered,
            first,
            table,
            unplaced,
            &reads[i],
            progress,
            cancel,
            Ghost(inputs),
            Ghost(prepared),
            Ghost(placement.writes),
        ) {
            return false;
        }
        i += 1;
        if progress.exhausted {
            proof {
                lemma_reads_stay(inputs, prepared, variable@, placement, reads@, i as int);
            }
            return true;
        }
    }
    assert(reads@.take(i as int) =~= reads@);
    true
}

/// Find the definitions that may reach the uses of a variable. Says whether it came
/// to an end.
fn examine_group<F: Fn() -> bool>(
    group: &[DataNode],
    cfg: &CfgResult,
    ctx: &ExtractionCtx,
    flow: &Flow,
    entered: &[bool],
    first: &[(DataNodeId, DataNodeId)],
    activation: &IdMap<DataNodeId, u32>,
    progress: &mut Progress,
    cancel: &F,
    Ghost(inputs): Ghost<UseDefInputs>,
    Ghost(prepared): Ghost<Prepared>,
) -> (r: bool)
    requires
        call_requires(*cancel, ()),
        inputs.cfg == *cfg,
        inputs.ctx == *ctx,
        prepared.first == first@,
        prepared.activation == activation@,
        !old(progress)@.exhausted,
        flow.describes(cfg.nodes@, cfg.edges@),
        entered@.len() == cfg.nodes@.len(),
        marks(entered@, prepared.entered),
        group@.len() > 0,
    ensures
        !r ==> call_ensures(*cancel, (), true),
        r ==> final(progress)@ == resolve_group(inputs, prepared, old(progress)@, group@),
{
    let ghost defining = |n: DataNode| defines(n.kind);
    let ghost using = |n: DataNode| uses(n.kind);
    let mut definitions: Vec<DataNode> = Vec::new();
    let mut reads: Vec<DataNode> = Vec::new();
    let mut i: usize = 0;
    assert(group@.take(0).filter(defining) =~= Seq::empty() && group@.take(0).filter(using)
        =~= Seq::empty()) by {
        reveal(Seq::filter);
    }
    while i < group.len()
        invariant
            i <= group@.len(),
            defining == (|n: DataNode| defines(n.kind)),
            using == (|n: DataNode| uses(n.kind)),
            definitions@ == group@.take(i as int).filter(defining),
            reads@ == group@.take(i as int).filter(using),
        decreases group@.len() - i,
    {
        proof {
            lemma_filter_step(group@, defining, i as int);
            lemma_filter_step(group@, using, i as int);
        }
        if is_definition(group[i].kind) {
            definitions.push(group[i].clone());
        }
        if is_use(group[i].kind) {
            reads.push(group[i].clone());
        }
        i += 1;
    }
    assert(group@.take(i as int) =~= group@);
    if definitions.len() == 0 || reads.len() == 0 {
        return true;
    }
    let rows = collect_rows(cfg.nodes.as_slice(), group[0].function_id);
    let mut builtin = ctx.language != Language::Cpp;
    let mut i: usize = 0;
    while i < definitions.len() && !builtin
        invariant
            i <= definitions@.len(),
            builtin == (ctx.language != Language::Cpp || exists|k: int|
                0 <= k < i && is_builtin_value(ctx.tree, #[trigger] definitions@[k])),
        decreases definitions@.len() - i,
    {
        if has_builtin_value_type(&definitions[i], &ctx.tree) {
            builtin = true;
        }
        assert(is_builtin_value(ctx.tree, definitions@[i as int]) ==> builtin);
        i += 1;
    }
    let variable = Examined { definitions, rows, builtin };
    assert(variable@ == variable_of(inputs, group@));
    let ghost start = progress@;
    let (writes, unplaced) = match place_definitions(
        &variable,
        cfg,
        &ctx.tree,
        activation,
        progress,
        cancel,
        Ghost(inputs),
        Ghost(prepared),
    ) {
        None => {
            return false;
        },
        Some(placed) => placed,
    };
    if progress.exhausted {
        return true;
    }
    let ghost placement = Placement { state: progress@, writes: writes@, unplaced: unplaced@ };
    let table = writes_by_row(writes.as_slice(), cfg.nodes.len());
    examine_reads(
        &variable,
        cfg,
        flow,
        entered,
        first,
        table.as_slice(),
        unplaced.as_slice(),
        reads.as_slice(),
        progress,
        cancel,
        Ghost(inputs),
        Ghost(prepared),
        Ghost(placement),
    )
}

fn behind_end(cfg: &CfgResult, node: &DataNode) -> (r: bool)
    ensures
        r == is_behind_end(*cfg, *node),
{
    let mut i: usize = 0;
    while i < cfg.terminated_tails.len()
        invariant
            i <= cfg.terminated_tails@.len(),
            forall|k: int|
                0 <= k < i ==> !(node.function_id == Some((#[trigger] cfg.terminated_tails@[k]).0)
                    && cfg.terminated_tails@[k].1.covers(node.range)),
        decreases cfg.terminated_tails@.len() - i,
    {
        let tail = cfg.terminated_tails[i];
        if node.function_id == Some(tail.0) && tail.1.contains_range(&node.range) {
            assert(cfg.terminated_tails@[i as int].1.covers(node.range));
            return true;
        }
        i += 1;
    }
    false
}

fn position_of(keys: &[u64], key: u64) -> (r: Option<usize>)
    ensures
        match r {
            None => !keys@.contains(key),
            Some(i) => i < keys@.len() && keys@[i as int] == key,
        },
{
    let mut i: usize = 0;
    while i < keys.len()
        invariant
            i <= keys@.len(),
            forall|k: int| 0 <= k < i ==> keys@[k] != key,
        decreases keys@.len() - i,
    {
        if keys[i] == key {
            return Some(i);
        }
        i += 1;
    }
    None
}

proof fn lemma_groups_distinct(inputs: UseDefInputs, count: nat)
    ensures
        group_keys(inputs, count).no_duplicates(),
    decreases count,
{
    if count > 0 {
        lemma_groups_distinct(inputs, (count - 1) as nat);
    }
}

pub(crate) proof fn lemma_group_holds(inputs: UseDefInputs, key: u64, count: nat)
    ensures
        group_keys(inputs, count).contains(key) == (group_nodes(inputs, key, count).len() > 0),
    decreases count,
{
    if count > 0 {
        let less = (count - 1) as nat;
        lemma_group_holds(inputs, key, less);
        let before = group_keys(inputs, less);
        let now = group_keys(inputs, count);
        if now != before {
            assert(now[before.len() as int] == now.last());
            if before.contains(key) {
                let k = choose|k: int| 0 <= k < before.len() && before[k] == key;
                assert(now[k] == key);
            }
        }
    }
}

/// The variables and their nodes.
fn collect_groups(
    nodes: &[DataNode],
    keys: &[Option<u64>],
    cfg: &CfgResult,
    Ghost(inputs): Ghost<UseDefInputs>,
) -> (r: (Vec<u64>, Vec<Vec<DataNode>>))
    requires
        nodes@.len() == keys@.len(),
        inputs.nodes == nodes@,
        inputs.keys == keys@,
        inputs.cfg == *cfg,
    ensures
        ({
            let (variables, groups) = r;
            &&& variables@ == group_keys(inputs, nodes@.len())
            &&& groups@.len() == variables@.len()
            &&& forall|k: int|
                0 <= k < groups@.len() ==> (#[trigger] groups@[k])@ == group_nodes(
                    inputs,
                    variables@[k],
                    nodes@.len(),
                )
        }),
{
    let mut variables: Vec<u64> = Vec::new();
    let mut groups: Vec<Vec<DataNode>> = Vec::new();
    let mut i: usize = 0;
    while i < nodes.len()
        invariant
            i <= nodes@.len(),
            nodes@.len() == keys@.len(),
            inputs.nodes == nodes@,
            inputs.keys == keys@,
            inputs.cfg == *cfg,
            variables@ == group_keys(inputs, i as nat),
            groups@.len() == variables@.len(),
            forall|k: int|
                0 <= k < groups@.len() ==> (#[trigger] groups@[k])@ == group_nodes(
                    inputs,
                    variables@[k],
                    i as nat,
                ),
        decreases nodes@.len() - i,
    {
        let ghost known = variables@;
        let ghost before = groups@;
        proof {
            lemma_groups_distinct(inputs, i as nat);
        }
        if !behind_end(cfg, &nodes[i]) {
            if let Some(key) = keys[i] {
                match position_of(variables.as_slice(), key) {
                    Some(at) => {
                        let mut list: Vec<DataNode> = Vec::new();
                        std::mem::swap(&mut list, &mut groups[at]);
                        list.push(nodes[i].clone());
                        groups[at] = list;
                        proof {
                            assert forall|k: int| 0 <= k < groups@.len() implies (
                            #[trigger] groups@[k])@ == group_nodes(
                                inputs,
                                variables@[k],
                                (i + 1) as nat,
                            ) by {
                                assert(before[k]@ == group_nodes(inputs, known[k], i as nat));
                                if k != at {
                                    assert(known[k] != known[at as int]);
                                    assert(groups@[k] == before[k]);
                                }
                            }
                        }
                    },
                    None => {
                        proof {
                            lemma_group_holds(inputs, key, i as nat);
                        }
                        variables.push(key);
                        let mut list: Vec<DataNode> = Vec::new();
                        list.push(nodes[i].clone());
                        groups.push(list);
                        proof {
                            assert forall|k: int| 0 <= k < groups@.len() implies (
                            #[trigger] groups@[k])@ == group_nodes(
                                inputs,
                                variables@[k],
                                (i + 1) as nat,
                            ) by {
                                if k < before.len() {
                                    assert(before[k]@ == group_nodes(inputs, known[k], i as nat));
                                    assert(groups@[k] == before[k]);
                                } else {
                                    assert(group_nodes(inputs, key, i as nat) =~= Seq::empty());
                                    assert(groups@[k]@ =~= seq![nodes@[i as int]]);
                                }
                            }
                        }
                    },
                }
            }
        }
        proof {
            if variables@ == known && groups@ == before {
                assert forall|k: int| 0 <= k < groups@.len() implies (#[trigger] groups@[k])@
                    == group_nodes(inputs, variables@[k], (i + 1) as nat) by {
                    assert(before[k]@ == group_nodes(inputs, known[k], i as nat));
                }
            }
        }
        i += 1;
    }
    (variables, groups)
}

fn key_of(node: &DataNode) -> (r: Vec<u128>)
    ensures
        r@ == node_key(*node),
{
    let r = vec![node.range.start_byte as u128, node.id.0.hi, node.id.0.lo];
    assert(r@ =~= node_key(*node));
    r
}

fn first_key_of(nodes: &[DataNode]) -> (r: Vec<u128>)
    ensures
        r@ == first_key(nodes@),
{
    if nodes.len() == 0 {
        let r: Vec<u128> = Vec::new();
        assert(r@ =~= Seq::empty());
        return r;
    }
    let mut least = key_of(&nodes[0]);
    assert(nodes@.take(1) =~= seq![nodes@[0]]);
    let mut i: usize = 1;
    while i < nodes.len()
        invariant
            1 <= i <= nodes@.len(),
            least@ == first_key(nodes@.take(i as int)),
        decreases nodes@.len() - i,
    {
        assert(nodes@.take(i + 1).drop_last() =~= nodes@.take(i as int));
        let key = key_of(&nodes[i]);
        if !at_most(least.as_slice(), key.as_slice()) {
            least = key;
        }
        i += 1;
    }
    assert(nodes@.take(i as int) =~= nodes@);
    least
}

/// The rows of groups in order.
fn order_groups(
    groups: &[Vec<DataNode>],
    Ghost(inputs): Ghost<UseDefInputs>,
    Ghost(variables): Ghost<Seq<u64>>,
) -> (r: Vec<usize>)
    requires
        variables == group_keys(inputs, inputs.nodes.len()),
        groups@.len() == variables.len(),
        forall|k: int|
            0 <= k < groups@.len() ==> (#[trigger] groups@[k])@ == group_nodes(
                inputs,
                variables[k],
                inputs.nodes.len(),
            ),
    ensures
        forall|i: int| 0 <= i < r@.len() ==> (#[trigger] r@[i]) < groups@.len(),
        r@.map_values(|i: usize| variables[i as int]) == ordered_groups(inputs),
{
    let ghost keyed = |key: u64| first_key(group_nodes(inputs, key, inputs.nodes.len()));
    let mut keys: Vec<Vec<u128>> = Vec::new();
    let mut i: usize = 0;
    while i < groups.len()
        invariant
            i <= groups@.len(),
            keys@.len() == i,
            groups@.len() == variables.len(),
            forall|key: u64| #[trigger]
                keyed(key) == first_key(group_nodes(inputs, key, inputs.nodes.len())),
            forall|k: int|
                0 <= k < groups@.len() ==> (#[trigger] groups@[k])@ == group_nodes(
                    inputs,
                    variables[k],
                    inputs.nodes.len(),
                ),
            forall|k: int| 0 <= k < i ==> (#[trigger] keys@[k])@ == keyed(variables[k]),
        decreases groups@.len() - i,
    {
        let key = first_key_of(groups[i].as_slice());
        assert(groups@[i as int]@ == group_nodes(
            inputs,
            variables[i as int],
            inputs.nodes.len(),
        ));
        assert(key@ == keyed(variables[i as int]));
        keys.push(key);
        i += 1;
    }
    assert(key_views(keys@) =~= variables.map_values(keyed));
    let order = stable_order(keys.as_slice());
    proof {
        let numbers = ordered_rows(key_views(keys@), keys@.len());
        assert(order@.map_values(|i: usize| i as int) == numbers);
        assert(order@.map_values(|i: usize| variables[i as int]) =~= numbers.map_values(
            |i: int| variables[i],
        )) by {
            assert forall|k: int| 0 <= k < order@.len() implies numbers[k] == order@[k] as int by {
                assert(order@.map_values(|i: usize| i as int)[k] == order@[k] as int);
            }
        }
    }
    order
}

/// The diagnostics of a computation.
fn report(notes: &[(TextRange, Notice)], exhausted: bool) -> (r: Vec<ExtractDiagnostic>)
    ensures
        report_views(r@) == ({
            let noted = notes@.map_values(|note: (TextRange, Notice)| note_view(note));
            if exhausted {
                noted.push(budget_view())
            } else {
                noted
            }
        }),
{
    let ghost noted = notes@.map_values(|note: (TextRange, Notice)| note_view(note));
    let mut list: Vec<ExtractDiagnostic> = Vec::new();
    let mut i: usize = 0;
    while i < notes.len()
        invariant
            i <= notes@.len(),
            noted == notes@.map_values(|note: (TextRange, Notice)| note_view(note)),
            report_views(list@) == noted.take(i as int),
        decreases notes@.len() - i,
    {
        let ghost before = list@;
        let item = ExtractDiagnostic {
            level: DiagnosticLevel::Warning,
            message: Text::new(notes[i].1.text()),
            range: Some(notes[i].0),
        };
        assert(item@ == note_view(notes@[i as int]));
        list.push(item);
        assert(report_views(list@) =~= report_views(before).push(item@));
        assert(noted.take(i + 1) =~= noted.take(i as int).push(noted[i as int]));
        i += 1;
    }
    assert(noted.take(i as int) =~= noted);
    if exhausted {
        let ghost before = list@;
        let item = ExtractDiagnostic {
            level: DiagnosticLevel::Warning,
            message: Text::new(
                "use_def_budget_exceeded: current and remaining use-def queries in this file are unexamined",
            ),
            range: None,
        };
        list.push(item);
        assert(report_views(list@) =~= report_views(before).push(item@));
    }
    list
}

fn finish(progress: Progress) -> (r: UseDefResult)
    ensures
        r.edges@ == progress@.edges,
        report_views(r.diagnostics@) == diagnostics_of(progress@),
        r.truncated == progress@.exhausted,
{
    let diagnostics = report(progress.notes.as_slice(), progress.exhausted);
    UseDefResult { edges: progress.edges, diagnostics, truncated: progress.exhausted }
}

/// Which definitions may reach which uses, within an amount of work. The keys say
/// which variable each node defines or uses.
///
/// Work exhaustion keeps what was found and says so. Nothing is returned on
/// cancellation.
pub fn resolve_with_budget<F: Fn() -> bool>(
    nodes: &[DataNode],
    keys: &[Option<u64>],
    existing: &[DataFlowEdge],
    cfg: &CfgResult,
    ctx: &ExtractionCtx,
    cancel: &F,
    work_left: usize,
) -> (r: Option<UseDefResult>)
    requires
        call_requires(*cancel, ()),
        nodes@.len() == keys@.len(),
    ensures
        match r {
            None => call_ensures(*cancel, (), true),
            Some(result) => {
                let inputs = UseDefInputs {
                    nodes: nodes@,
                    keys: keys@,
                    existing: existing@,
                    cfg: *cfg,
                    ctx: *ctx,
                };
                let state = use_def(
                    inputs,
                    work_left as nat,
                );
                &&& result.edges@ == state.edges
                &&& report_views(result.diagnostics@) == diagnostics_of(state)
                &&& result.truncated == state.exhausted
                &&& has_work(inputs) ==> call_ensures(*cancel, (), false)
            },
        },
{
    let ghost inputs = UseDefInputs {
        nodes: nodes@,
        keys: keys@,
        existing: existing@,
        cfg: *cfg,
        ctx: *ctx,
    };
    let mut work: usize = work_left;
    let activation = collect_activation(nodes, existing, &ctx.tree, Ghost(inputs));
    let mut progress = Progress {
        edges: Vec::new(),
        notes: Vec::new(),
        work: work_left,
        exhausted: false,
    };
    let ghost start = progress@;
    assert(start =~= (UseDefState {
        edges: Seq::empty(),
        notes: Seq::empty(),
        work: work_left as nat,
        exhausted: false,
    }));
    let first = match collect_first(nodes, existing, &ctx.tree, cancel, &mut work, Ghost(inputs)) {
        None => {
            return None;
        },
        Some(None) => {
            progress.exhausted = true;
            return Some(finish(progress));
        },
        Some(Some(first)) => first,
    };
    let flow = collect_flow(cfg);
    let entered = match collect_entered(cfg, &flow, cancel, &mut work) {
        None => {
            return None;
        },
        Some(None) => {
            progress.exhausted = true;
            return Some(finish(progress));
        },
        Some(Some(entered)) => entered,
    };
    progress.work = work;
    let ghost rows = Set::new(|row: usize| row < entered@.len() && entered@[row as int]);
    let ghost found = enter_rows(
        *cfg,
        entry_rows(cfg.nodes@),
        Set::empty(),
        (work_left - preparation_work(inputs)) as nat,
    );
    proof {
        assert(marks(entered@, found.unwrap().0));
        assert(found.unwrap().0 =~= rows) by {
            assert forall|row: usize| found.unwrap().0.contains(row) implies rows.contains(row) by {
                assert(entered@[row as int] == found.unwrap().0.contains(row));
            }
            assert forall|row: usize| rows.contains(row) implies found.unwrap().0.contains(row) by {
                assert(entered@[row as int] == found.unwrap().0.contains(row));
            }
        }
    }
    let ghost prepared = prepared_with(inputs, rows);
    let ghost begun = progress@;
    let (variables, groups) = collect_groups(nodes, keys, cfg, Ghost(inputs));
    let order = order_groups(groups.as_slice(), Ghost(inputs), Ghost(variables@));
    let ghost named = ordered_groups(inputs);
    let mut i: usize = 0;
    while i < order.len()
        invariant
            i <= order@.len(),
            call_requires(*cancel, ()),
            inputs == (UseDefInputs {
                nodes: nodes@,
                keys: keys@,
                existing: existing@,
                cfg: *cfg,
                ctx: *ctx,
            }),
            prepared == prepared_with(inputs, rows),
            first@ == prepared.first,
            activation@ == prepared.activation,
            flow.describes(cfg.nodes@, cfg.edges@),
            entered@.len() == cfg.nodes@.len(),
            marks(entered@, prepared.entered),
            !progress@.exhausted,
            variables@ == group_keys(inputs, nodes@.len()),
            groups@.len() == variables@.len(),
            forall|k: int|
                0 <= k < groups@.len() ==> (#[trigger] groups@[k])@ == group_nodes(
                    inputs,
                    variables@[k],
                    nodes@.len(),
                ),
            forall|i: int| 0 <= i < order@.len() ==> (#[trigger] order@[i]) < groups@.len(),
            named == order@.map_values(|i: usize| variables@[i as int]),
            named == ordered_groups(inputs),
            progress@ == resolve_groups(inputs, prepared, begun, named.take(i as int)),
            use_def(inputs, work_left as nat) == resolve_groups(inputs, prepared, begun, named),
            read_count(existing@) > 0 || has_output(nodes@) || entry_rows(cfg.nodes@).len() > 0 || i
                > 0 ==> call_ensures(*cancel, (), false),
        decreases order@.len() - i,
    {
        assert(named.take(i + 1).drop_last() =~= named.take(i as int));
        if cancel() {
            return None;
        }
        assert(order@[i as int] < groups@.len());
        let group = &groups[order[i]];
        proof {
            let key = variables@[order@[i as int] as int];
            assert(named[i as int] == key);
            assert(group@ == group_nodes(inputs, key, nodes@.len()));
            assert(variables@.contains(key));
            lemma_group_holds(inputs, key, nodes@.len());
        }
        if !examine_group(
            group.as_slice(),
            cfg,
            ctx,
            &flow,
            entered.as_slice(),
            first.as_slice(),
            &activation,
            &mut progress,
            cancel,
            Ghost(inputs),
            Ghost(prepared),
        ) {
            return None;
        }
        i += 1;
        if progress.exhausted {
            proof {
                lemma_groups_stay(inputs, prepared, begun, named, i as int);
            }
            return Some(finish(progress));
        }
    }
    assert(named.take(i as int) =~= named);
    Some(finish(progress))
}

/// Which definitions may reach which uses. The keys say which variable each node
/// defines or uses.
pub fn resolve<F: Fn() -> bool>(
    nodes: &[DataNode],
    keys: &[Option<u64>],
    existing: &[DataFlowEdge],
    cfg: &CfgResult,
    ctx: &ExtractionCtx,
    cancel: &F,
) -> (r: Option<UseDefResult>)
    requires
        call_requires(*cancel, ()),
        nodes@.len() == keys@.len(),
    ensures
        match r {
            None => call_ensures(*cancel, (), true),
            Some(result) => {
                let inputs = UseDefInputs {
                    nodes: nodes@,
                    keys: keys@,
                    existing: existing@,
                    cfg: *cfg,
                    ctx: *ctx,
                };
                let state = use_def(
                    inputs,
                    1_000_000,
                );
                &&& result.edges@ == state.edges
                &&& report_views(result.diagnostics@) == diagnostics_of(state)
                &&& result.truncated == state.exhausted
                &&& has_work(inputs) ==> call_ensures(*cancel, (), false)
            },
        },
{
    resolve_with_budget(nodes, keys, existing, cfg, ctx, cancel, 1_000_000)
}

/// The writes of a row that a walk arriving there takes up, later ones first, and
/// whether the last of them replaces everything before it.
pub open spec fn taken_up(
    read: DataNode,
    first: Seq<(DataNodeId, DataNodeId)>,
    entries: Seq<Write>,
    cutoff: u32,
    normal: bool,
) -> (Set<DataNodeId>, bool)
    decreases entries.len(),
{
    if entries.len() == 0 {
        (Set::empty(), false)
    } else {
        let w = entries[0];
        let (rest, replaced) = taken_up(read, first, entries.drop_first(), cutoff, normal);
        if cutoff == read.range.start_byte && first.contains((read.id, w.id)) {
            (rest, replaced)
        } else if w.parameter || !w.definite || w.activation <= cutoff {
            if w.definite && normal && !w.parameter {
                (set![w.id], true)
            } else {
                (rest.insert(w.id), replaced)
            }
        } else {
            (rest, replaced)
        }
    }
}

/// What a walk takes up at a place.
pub open spec fn taken_at(
    first: Seq<(DataNodeId, DataNodeId)>,
    writes: Seq<Write>,
    read: DataNode,
    place: (usize, u32, bool),
) -> (Set<DataNodeId>, bool) {
    taken_up(read, first, writes_at(writes, place.0), place.1, place.2)
}

/// Whether a walk goes on from one of several places to the next.
pub open spec fn goes_on(
    cfg: CfgResult,
    entered: Set<usize>,
    first: Seq<(DataNodeId, DataNodeId)>,
    writes: Seq<Write>,
    read: DataNode,
    trail: Seq<(usize, u32, bool)>,
    i: int,
) -> bool {
    &&& !taken_at(first, writes, read, trail[i]).1
    &&& places_before(cfg, entered, trail[i].0).contains(trail[i + 1])
}

/// Whether places follow one another backward against the control flow from one of
/// the first places, and nothing on the way replaces everything before it.
pub open spec fn is_trail(
    cfg: CfgResult,
    entered: Set<usize>,
    first: Seq<(DataNodeId, DataNodeId)>,
    writes: Seq<Write>,
    read: DataNode,
    places: Seq<(usize, u32, bool)>,
    trail: Seq<(usize, u32, bool)>,
) -> bool {
    &&& trail.len() > 0
    &&& places.contains(trail[0])
    &&& forall|i: int|
        0 <= i < trail.len() - 1 ==> #[trigger] goes_on(
            cfg,
            entered,
            first,
            writes,
            read,
            trail,
            i,
        )
}

/// Whether a definition lies open at the end of some such trail.
pub open spec fn lies_open(
    cfg: CfgResult,
    entered: Set<usize>,
    first: Seq<(DataNodeId, DataNodeId)>,
    writes: Seq<Write>,
    read: DataNode,
    places: Seq<(usize, u32, bool)>,
    id: DataNodeId,
) -> bool {
    exists|trail: Seq<(usize, u32, bool)>| #[trigger]
        is_trail(cfg, entered, first, writes, read, places, trail) && taken_at(
            first,
            writes,
            read,
            trail.last(),
        ).0.contains(id)
}

pub(crate) proof fn lemma_with_id(ids: Seq<DataNodeId>, id: DataNodeId)
    ensures
        forall|other: DataNodeId| #[trigger]
            with_id(ids, id).contains(other) == (ids.contains(other) || other == id),
{
    if !ids.contains(id) {
        assert forall|other: DataNodeId| #[trigger] with_id(ids, id).contains(other) == (
        ids.contains(other) || other == id) by {
            if ids.contains(other) {
                let k = choose|k: int| 0 <= k < ids.len() && ids[k] == other;
                assert(ids.push(id)[k] == other);
            }
            if other == id {
                assert(ids.push(id)[ids.len() as int] == other);
            }
        }
    }
}

proof fn lemma_scan_takes(
    read: DataNode,
    first: Seq<(DataNodeId, DataNodeId)>,
    entries: Seq<Write>,
    cutoff: u32,
    normal: bool,
    reaching: Seq<DataNodeId>,
    work: nat,
)
    requires
        scan_writes(read, first, entries, cutoff, normal, reaching, work) is Some,
    ensures
        ({
            let (more, replaced, _) = scan_writes(
                read,
                first,
                entries,
                cutoff,
                normal,
                reaching,
                work,
            ).unwrap();
            let (ids, replaces) = taken_up(read, first, entries, cutoff, normal);
            &&& replaced == replaces
            &&& forall|id: DataNodeId| #[trigger]
                more.contains(id) == (reaching.contains(id) || ids.contains(id))
        }),
    decreases entries.len(),
{
    if entries.len() > 0 {
        let w = entries[0];
        let rest = entries.drop_first();
        let left = (work - 1) as nat;
        lemma_with_id(reaching, w.id);
        if cutoff == read.range.start_byte && first.contains((read.id, w.id)) {
            lemma_scan_takes(read, first, rest, cutoff, normal, reaching, left);
        } else if w.parameter || !w.definite || w.activation <= cutoff {
            if !(w.definite && normal && !w.parameter) {
                lemma_scan_takes(
                    read,
                    first,
                    rest,
                    cutoff,
                    normal,
                    with_id(reaching, w.id),
                    left,
                );
            }
        } else {
            lemma_scan_takes(read, first, rest, cutoff, normal, reaching, left);
        }
    }
}

proof fn lemma_open_from_more(
    cfg: CfgResult,
    entered: Set<usize>,
    first: Seq<(DataNodeId, DataNodeId)>,
    writes: Seq<Write>,
    read: DataNode,
    fewer: Seq<(usize, u32, bool)>,
    more: Seq<(usize, u32, bool)>,
    id: DataNodeId,
)
    requires
        forall|p: (usize, u32, bool)| #[trigger] fewer.contains(p) ==> more.contains(p),
        lies_open(cfg, entered, first, writes, read, fewer, id),
    ensures
        lies_open(cfg, entered, first, writes, read, more, id),
{
    let trail = choose|trail: Seq<(usize, u32, bool)>| #[trigger]
        is_trail(cfg, entered, first, writes, read, fewer, trail) && taken_at(
            first,
            writes,
            read,
            trail.last(),
        ).0.contains(id);
    assert(fewer.contains(trail[0]));
    assert(is_trail(cfg, entered, first, writes, read, more, trail));
}

proof fn lemma_open_through(
    cfg: CfgResult,
    entered: Set<usize>,
    first: Seq<(DataNodeId, DataNodeId)>,
    writes: Seq<Write>,
    read: DataNode,
    rest: Seq<(usize, u32, bool)>,
    place: (usize, u32, bool),
    id: DataNodeId,
)
    requires
        !taken_at(first, writes, read, place).1,
        lies_open(
            cfg,
            entered,
            first,
            writes,
            read,
            rest + places_before(cfg, entered, place.0),
            id,
        ),
    ensures
        lies_open(cfg, entered, first, writes, read, rest.push(place), id),
{
    let next = places_before(cfg, entered, place.0);
    let trail = choose|trail: Seq<(usize, u32, bool)>| #[trigger]
        is_trail(cfg, entered, first, writes, read, rest + next, trail) && taken_at(
            first,
            writes,
            read,
            trail.last(),
        ).0.contains(id);
    let k = choose|k: int| 0 <= k < (rest + next).len() && (rest + next)[k] == trail[0];
    if k < rest.len() {
        assert(rest.push(place)[k] == trail[0]);
        assert(is_trail(cfg, entered, first, writes, read, rest.push(place), trail));
    } else {
        assert(next[k - rest.len()] == trail[0]);
        let longer = seq![place] + trail;
        assert(rest.push(place)[rest.len() as int] == longer[0]);
        assert(is_trail(cfg, entered, first, writes, read, rest.push(place), longer)) by {
            assert forall|i: int| 0 <= i < longer.len() - 1 implies #[trigger] goes_on(
                cfg,
                entered,
                first,
                writes,
                read,
                longer,
                i,
            ) by {
                assert(longer[i + 1] == trail[i]);
                if i > 0 {
                    assert(longer[i] == trail[i - 1]);
                    assert(goes_on(cfg, entered, first, writes, read, trail, i - 1));
                }
            }
        }
        assert(longer.last() == trail.last());
    }
}

proof fn lemma_walk_is_sound(
    cfg: CfgResult,
    entered: Set<usize>,
    first: Seq<(DataNodeId, DataNodeId)>,
    writes: Seq<Write>,
    read: DataNode,
    pending: Seq<(usize, u32, bool)>,
    visited: Seq<(usize, u32, bool)>,
    reaching: Seq<DataNodeId>,
    work: nat,
    id: DataNodeId,
)
    requires
        walk_back(cfg, entered, first, writes, read, pending, visited, reaching, work) is Some,
    ensures
        ({
            let (found, _) = walk_back(
                cfg,
                entered,
                first,
                writes,
                read,
                pending,
                visited,
                reaching,
                work,
            ).unwrap();
            &&& reaching.contains(id) ==> found.contains(id)
            &&& found.contains(id) ==> reaching.contains(id) || lies_open(
                cfg,
                entered,
                first,
                writes,
                read,
                pending,
                id,
            )
        }),
    decreases work, pending.len(),
{
    if pending.len() > 0 {
        let place = pending.last();
        let rest = pending.drop_last();
        assert(pending =~= rest.push(place));
        assert forall|p: (usize, u32, bool)| #[trigger] rest.contains(p) implies pending.contains(
            p,
        ) by {
            let k = choose|k: int| 0 <= k < rest.len() && rest[k] == p;
            assert(pending[k] == p);
        }
        let (found, _) = walk_back(
            cfg,
            entered,
            first,
            writes,
            read,
            pending,
            visited,
            reaching,
            work,
        ).unwrap();
        if visited.contains(place) {
            lemma_walk_is_sound(
                cfg,
                entered,
                first,
                writes,
                read,
                rest,
                visited,
                reaching,
                work,
                id,
            );
            if found.contains(id) && !reaching.contains(id) {
                lemma_open_from_more(cfg, entered, first, writes, read, rest, pending, id);
            }
        } else {
            let entries = writes_at(writes, place.0);
            let less = (work - 1) as nat;
            lemma_scan_work(read, first, entries, place.1, place.2, reaching, less);
            lemma_scan_takes(read, first, entries, place.1, place.2, reaching, less);
            let (more, replaced, left) = scan_writes(
                read,
                first,
                entries,
                place.1,
                place.2,
                reaching,
                less,
            ).unwrap();
            let next = if replaced {
                rest
            } else {
                rest + places_before(cfg, entered, place.0)
            };
            lemma_walk_is_sound(
                cfg,
                entered,
                first,
                writes,
                read,
                next,
                visited.push(place),
                more,
                left,
                id,
            );
            if found.contains(id) && !reaching.contains(id) {
                if more.contains(id) {
                    let trail = seq![place];
                    assert(pending[pending.len() - 1] == trail[0]);
                    assert(is_trail(cfg, entered, first, writes, read, pending, trail));
                    assert(trail.last() == place);
                } else if replaced {
                    lemma_open_from_more(cfg, entered, first, writes, read, rest, pending, id);
                } else {
                    lemma_open_through(cfg, entered, first, writes, read, rest, place, id);
                }
            }
        }
    }
}

/// Whether everything that a place leads to has been taken up and visited.
spec fn is_settled(
    cfg: CfgResult,
    entered: Set<usize>,
    first: Seq<(DataNodeId, DataNodeId)>,
    writes: Seq<Write>,
    read: DataNode,
    all: Seq<(usize, u32, bool)>,
    found: Seq<DataNodeId>,
    place: (usize, u32, bool),
) -> bool {
    &&& forall|id: DataNodeId| #[trigger]
        taken_at(first, writes, read, place).0.contains(id) ==> found.contains(id)
    &&& !taken_at(first, writes, read, place).1 ==> forall|p: (usize, u32, bool)| #[trigger]
        places_before(cfg, entered, place.0).contains(p) ==> all.contains(p)
}

proof fn lemma_walk_settles(
    cfg: CfgResult,
    entered: Set<usize>,
    first: Seq<(DataNodeId, DataNodeId)>,
    writes: Seq<Write>,
    read: DataNode,
    pending: Seq<(usize, u32, bool)>,
    visited: Seq<(usize, u32, bool)>,
    reaching: Seq<DataNodeId>,
    work: nat,
) -> (all: Seq<(usize, u32, bool)>)
    requires
        walk_back(cfg, entered, first, writes, read, pending, visited, reaching, work) is Some,
    ensures
        forall|p: (usize, u32, bool)| #[trigger] visited.contains(p) ==> all.contains(p),
        forall|p: (usize, u32, bool)| #[trigger] pending.contains(p) ==> all.contains(p),
        forall|p: (usize, u32, bool)| #[trigger]
            all.contains(p) && !visited.contains(p) ==> is_settled(
                cfg,
                entered,
                first,
                writes,
                read,
                all,
                walk_back(
                    cfg,
                    entered,
                    first,
                    writes,
                    read,
                    pending,
                    visited,
                    reaching,
                    work,
                ).unwrap().0,
                p,
            ),
    decreases work, pending.len(),
{
    if pending.len() == 0 {
        visited
    } else {
        let place = pending.last();
        let rest = pending.drop_last();
        if visited.contains(place) {
            let all = lemma_walk_settles(
                cfg,
                entered,
                first,
                writes,
                read,
                rest,
                visited,
                reaching,
                work,
            );
            assert forall|p: (usize, u32, bool)| #[trigger] pending.contains(p) implies all.contains(
                p,
            ) by {
                let k = choose|k: int| 0 <= k < pending.len() && pending[k] == p;
                if k < rest.len() {
                    assert(rest[k] == p);
                    assert(rest.contains(p));
                }
            }
            all
        } else {
            let entries = writes_at(writes, place.0);
            let less = (work - 1) as nat;
            lemma_scan_work(read, first, entries, place.1, place.2, reaching, less);
            lemma_scan_takes(read, first, entries, place.1, place.2, reaching, less);
            let (more, replaced, left) = scan_writes(
                read,
                first,
                entries,
                place.1,
                place.2,
                reaching,
                less,
            ).unwrap();
            let before = places_before(cfg, entered, place.0);
            let next = if replaced {
                rest
            } else {
                rest + before
            };
            let seen = visited.push(place);
            let all = lemma_walk_settles(
                cfg,
                entered,
                first,
                writes,
                read,
                next,
                seen,
                more,
                left,
            );
            let found = walk_back(
                cfg,
                entered,
                first,
                writes,
                read,
                pending,
                visited,
                reaching,
                work,
            ).unwrap().0;
            assert(seen[visited.len() as int] == place);
            assert(seen.contains(place));
            assert forall|p: (usize, u32, bool)| #[trigger] visited.contains(p) implies all.contains(
                p,
            ) by {
                let k = choose|k: int| 0 <= k < visited.len() && visited[k] == p;
                assert(seen[k] == p);
                assert(seen.contains(p));
            }
            assert forall|p: (usize, u32, bool)| #[trigger] pending.contains(p) implies all.contains(
                p,
            ) by {
                let k = choose|k: int| 0 <= k < pending.len() && pending[k] == p;
                if k < rest.len() {
                    assert(next[k] == p);
                    assert(next.contains(p));
                }
            }
            assert forall|id: DataNodeId| #[trigger]
                taken_at(first, writes, read, place).0.contains(id) implies found.contains(id) by {
                assert(more.contains(id));
                lemma_walk_is_sound(
                    cfg,
                    entered,
                    first,
                    writes,
                    read,
                    next,
                    seen,
                    more,
                    left,
                    id,
                );
            }
            if !replaced {
                assert forall|p: (usize, u32, bool)| #[trigger] before.contains(
                    p,
                ) implies all.contains(p) by {
                    let k = choose|k: int| 0 <= k < before.len() && before[k] == p;
                    assert(next[rest.len() + k] == p);
                    assert(next.contains(p));
                }
            }
            assert forall|p: (usize, u32, bool)| #[trigger]
                all.contains(p) && !visited.contains(p) implies is_settled(
                cfg,
                entered,
                first,
                writes,
                read,
                all,
                found,
                p,
            ) by {
                if p != place {
                    if seen.contains(p) {
                        let k = choose|k: int| 0 <= k < seen.len() && seen[k] == p;
                        assert(visited[k] == p);
                    }
                }
            }
            all
        }
    }
}

/// A walk that comes to an end finds exactly the definitions that it began with and
/// those that lie open somewhere backward along the control flow: a definition
/// reaches a read if and only if some path leads from it to the read on which
/// nothing certainly replaces it.
pub proof fn walk_finds_what_lies_open(
    cfg: CfgResult,
    entered: Set<usize>,
    first: Seq<(DataNodeId, DataNodeId)>,
    writes: Seq<Write>,
    read: DataNode,
    places: Seq<(usize, u32, bool)>,
    begun: Seq<DataNodeId>,
    work: nat,
    id: DataNodeId,
)
    requires
        walk_back(
            cfg,
            entered,
            first,
            writes,
            read,
            places,
            Seq::empty(),
            begun,
            work,
        ) is Some,
    ensures
        walk_back(
            cfg,
            entered,
            first,
            writes,
            read,
            places,
            Seq::empty(),
            begun,
            work,
        ).unwrap().0.contains(id) <==> begun.contains(id) || lies_open(
            cfg,
            entered,
            first,
            writes,
            read,
            places,
            id,
        ),
{
    let none = Seq::<(usize, u32, bool)>::empty();
    lemma_walk_is_sound(cfg, entered, first, writes, read, places, none, begun, work, id);
    if lies_open(cfg, entered, first, writes, read, places, id) {
        let all = lemma_walk_settles(
            cfg,
            entered,
            first,
            writes,
            read,
            places,
            none,
            begun,
            work,
        );
        let found = walk_back(
            cfg,
            entered,
            first,
            writes,
            read,
            places,
            none,
            begun,
            work,
        ).unwrap().0;
        let trail = choose|trail: Seq<(usize, u32, bool)>| #[trigger]
            is_trail(cfg, entered, first, writes, read, places, trail) && taken_at(
                first,
                writes,
                read,
                trail.last(),
            ).0.contains(id);
        lemma_trail_visited(cfg, entered, first, writes, read, places, all, found, trail);
        assert(all.contains(trail.last()));
        assert(is_settled(cfg, entered, first, writes, read, all, found, trail.last()));
    }
}

proof fn lemma_trail_visited(
    cfg: CfgResult,
    entered: Set<usize>,
    first: Seq<(DataNodeId, DataNodeId)>,
    writes: Seq<Write>,
    read: DataNode,
    places: Seq<(usize, u32, bool)>,
    all: Seq<(usize, u32, bool)>,
    found: Seq<DataNodeId>,
    trail: Seq<(usize, u32, bool)>,
)
    requires
        is_trail(cfg, entered, first, writes, read, places, trail),
        forall|p: (usize, u32, bool)| #[trigger] places.contains(p) ==> all.contains(p),
        forall|p: (usize, u32, bool)| #[trigger]
            all.contains(p) ==> is_settled(cfg, entered, first, writes, read, all, found, p),
    ensures
        all.contains(trail.last()),
    decreases trail.len(),
{
    if trail.len() == 1 {
        assert(places.contains(trail[0]));
    } else {
        let shorter = trail.drop_last();
        assert(is_trail(cfg, entered, first, writes, read, places, shorter)) by {
            assert forall|i: int| 0 <= i < shorter.len() - 1 implies #[trigger] goes_on(
                cfg,
                entered,
                first,
                writes,
                read,
                shorter,
                i,
            ) by {
                assert(goes_on(cfg, entered, first, writes, read, trail, i));
            }
        }
        lemma_trail_visited(cfg, entered, first, writes, read, places, all, found, shorter);
        let at = trail.len() - 2;
        assert(shorter.last() == trail[at]);
        assert(goes_on(cfg, entered, first, writes, read, trail, at));
        assert(is_settled(cfg, entered, first, writes, read, all, found, trail[at]));
    }
}

/// Whether a node is, without errors, a whole statement, or stands alone in an expression
/// statement, a declaration or parentheses that are one.
pub open spec fn is_alone_in(tree: SyntaxTree, n: usize, statement: TextRange) -> bool {
    &&& !tree.node(n).has_error
    &&& !tree.node(n).missing
    &&& tree.range_of(n).same_bytes(statement) || match tree.parent_of(n) {
        None => false,
        Some(p) => (tree.kind_of(p) == Kind::ExpressionStatement || tree.kind_of(p)
            == Kind::Declaration || tree.kind_of(p) == Kind::ParenthesizedExpression)
            && !tree.node(p).has_error && !tree.node(p).missing && tree.range_of(p).same_bytes(
            statement,
        ),
    }
}

/// An initial value replaces what was in a variable, and so does an assignment or an update
/// of a variable of a built-in type, where it is all that its statement does.
pub proof fn a_whole_assignment_replaces(
    tree: SyntaxTree,
    definition: DataNode,
    statement: CfgNode,
    builtin: bool,
    target: usize,
    write: usize,
)
    requires
        statement.kind == CfgNodeKind::Statement,
        tree.node_at(definition.range.start_byte, definition.range.end_byte) == Some(target),
        tree.kind_of(target) == Kind::Identifier,
        tree.range_of(target).same_bytes(definition.range),
        tree.parent_of(target) == Some(write),
        (tree.kind_of(write) == Kind::InitDeclarator && tree.child_in_role(
            write,
            Field::Declarator,
        ) == Some(target)) || (builtin && tree.kind_of(write) == Kind::AssignmentExpression
            && tree.child_in_role(write, Field::Left) == Some(target)) || (builtin && tree.kind_of(
            write,
        ) == Kind::UpdateExpression && tree.child_in_role(write, Field::Argument) == Some(target)),
        is_alone_in(tree, write, statement.stmt_range),
    ensures
        is_unconditional_write(tree, definition, statement, builtin),
{
    reveal_with_fuel(is_whole_statement, 2);
}

/// Nothing replaces a variable but a write to its name in a statement of its own, and
/// assignment to what is not of a built-in type does not.
pub proof fn other_writes_do_not_replace(
    tree: SyntaxTree,
    definition: DataNode,
    statement: CfgNode,
    builtin: bool,
    target: usize,
)
    requires
        tree.node_at(definition.range.start_byte, definition.range.end_byte) == Some(target),
        statement.kind != CfgNodeKind::Statement || tree.kind_of(target) != Kind::Identifier
            || tree.parent_of(target) is None || (!builtin && tree.kind_of(
            tree.parent_of(target)->0,
        ) != Kind::InitDeclarator && tree.kind_of(tree.parent_of(target)->0)
            != Kind::VariableDeclarator) || tree.node(tree.parent_of(target)->0).has_error,
    ensures
        !is_unconditional_write(tree, definition, statement, builtin),
{
}

} // verus!
