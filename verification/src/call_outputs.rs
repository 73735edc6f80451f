//! Potential storage effects of C++ arguments, separate from their input values.
//! Target declarations can later disprove exposure (such as scalar by-value inputs).
//! Extraction does not claim that a call writes the exposed binding.

use crate::extraction_ctx::ExtractionCtx;
use crate::facts::{
    CfgNode, CfgResult, DataNode, DataNodeKind, DiagnosticLevel, ExtractDiagnostic,
    ExtractDiagnosticView, Language, TextRange,
};
use crate::ids::{digest_bytes, digest_text, hex_text, DataNodeId, SymbolId};
use crate::syntax::{Field, Kind, SyntaxTree};
use crate::text::{optional_bytes, optional_slice, Text};
use crate::collections::{holds, lemma_filter_step, IdMap};
use vstd::prelude::*;
use vstd::string::StringSliceAdditionalSpecFns;

verus! {

broadcast use {SyntaxTree::parent_comes_first, SyntaxTree::children_come_later};

/// An expression without the parentheses around it.
pub open spec fn bare_expression(tree: SyntaxTree, n: usize) -> usize
    decreases tree.count() - n,
    via bare_expression_decreases
{
    if tree.kind_of(n) == Kind::ParenthesizedExpression {
        match tree.sole_part_of(n) {
            None => n,
            Some(inner) => bare_expression(tree, inner),
        }
    } else {
        n
    }
}

#[via_fn]
proof fn bare_expression_decreases(tree: SyntaxTree, n: usize) {
    if tree.parts_of(n).len() == 1 {
        tree.parts_are_children(n, 0);
    }
}

fn unparen(tree: &SyntaxTree, n: usize) -> (r: usize)
    ensures
        r == bare_expression(*tree, n),
{
    let mut at: usize = n;
    while tree.kind(at) == Kind::ParenthesizedExpression
        invariant_except_break
            bare_expression(*tree, n) == bare_expression(*tree, at),
        ensures
            at == bare_expression(*tree, n),
        decreases tree.count() - at,
    {
        match tree.sole_part(at) {
            None => {
                break;
            },
            Some(inner) => {
                at = inner;
            },
        }
    }
    at
}

/// Whether a node declares a parameter.
pub open spec fn declares_parameter(kind: Kind) -> bool {
    kind == Kind::ParameterDeclaration || kind == Kind::OptionalParameterDeclaration
}

/// Whether the declarator around a name, up to a parameter, binds a reference.
/// Nothing where the name is not the one that the parameter declares.
pub open spec fn binds_reference(
    tree: SyntaxTree,
    n: usize,
    parameter: usize,
    reference: bool,
) -> Option<bool>
    decreases n,
{
    match tree.parent_of(n) {
        None => None,
        Some(p) => if tree.child_in_role(p, Field::Declarator) is Some && tree.child_in_role(
            p,
            Field::Declarator,
        ) != Some(n) {
            None
        } else if p == parameter {
            Some(reference)
        } else {
            binds_reference(
                tree,
                p,
                parameter,
                reference || tree.kind_of(p) == Kind::ReferenceDeclarator,
            )
        },
    }
}

fn reference_binding(tree: &SyntaxTree, n: usize, parameter: usize) -> (r: Option<bool>)
    ensures
        r == binds_reference(*tree, n, parameter, false),
{
    let mut at: usize = n;
    let mut reference = false;
    let mut up = tree.parent(n);
    while up.is_some()
        invariant
            up == tree.parent_of(at),
            binds_reference(*tree, n, parameter, false) == binds_reference(
                *tree,
                at,
                parameter,
                reference,
            ),
        decreases at,
    {
        let p = up.unwrap();
        let declarator = tree.child_by_field(p, Field::Declarator);
        if declarator.is_some() && declarator != Some(at) {
            return None;
        }
        if p == parameter {
            return Some(reference);
        }
        reference = reference || tree.kind(p) == Kind::ReferenceDeclarator;
        at = p;
        up = tree.parent(p);
    }
    None
}

/// Whether the first name that a parameter declares, searched in a node from its last
/// part to its first and not inside nested parameters, binds a reference.
pub open spec fn declared_reference(tree: SyntaxTree, n: usize, parameter: usize) -> Option<bool>
    decreases tree.count() - n, tree.parts_of(n).len() + 1,
{
    if declares_parameter(tree.kind_of(n)) {
        None
    } else if tree.kind_of(n) == Kind::Identifier && binds_reference(
        tree,
        n,
        parameter,
        false,
    ) is Some {
        binds_reference(tree, n, parameter, false)
    } else {
        declared_reference_in(tree, n, parameter, 0)
    }
}

/// The same for the parts of a node from a place on.
pub open spec fn declared_reference_in(
    tree: SyntaxTree,
    n: usize,
    parameter: usize,
    from: nat,
) -> Option<bool>
    decreases tree.count() - n, tree.parts_of(n).len() - from,
    via declared_reference_in_decreases
{
    if from >= tree.parts_of(n).len() {
        None
    } else {
        let later = declared_reference_in(tree, n, parameter, from + 1);
        if later is Some {
            later
        } else {
            declared_reference(tree, tree.parts_of(n)[from as int], parameter)
        }
    }
}

#[via_fn]
proof fn declared_reference_in_decreases(
    tree: SyntaxTree,
    n: usize,
    parameter: usize,
    from: nat,
) {
    if from < tree.parts_of(n).len() {
        tree.parts_are_children(n, from as int);
    }
}

/// Whether a C++ parameter is written as a reference, whatever its type resolves to.
/// Names in the parameters of nested function types do not name this parameter.
pub open spec fn is_reference_parameter(tree: SyntaxTree, parameter: usize) -> bool {
    &&& declares_parameter(tree.kind_of(parameter))
    &&& !tree.node(parameter).has_error
    &&& match tree.child_in_role(parameter, Field::Declarator) {
        None => false,
        Some(declarator) => declared_reference(tree, declarator, parameter) == Some(true),
    }
}

fn find_reference(tree: &SyntaxTree, n: usize, parameter: usize) -> (r: Option<bool>)
    ensures
        r == declared_reference(*tree, n, parameter),
    decreases tree.count() - n,
{
    let kind = tree.kind(n);
    if matches!(kind, Kind::ParameterDeclaration | Kind::OptionalParameterDeclaration) {
        return None;
    }
    if kind == Kind::Identifier {
        let found = reference_binding(tree, n, parameter);
        if found.is_some() {
            return found;
        }
    }
    let parts = tree.parts(n);
    let mut i: usize = parts.len();
    while i > 0
        invariant
            i <= parts@.len(),
            parts@ == tree.parts_of(n),
            declared_reference_in(*tree, n, parameter, i as nat) is None,
            declared_reference(*tree, n, parameter) == declared_reference_in(
                *tree,
                n,
                parameter,
                0,
            ),
        decreases i,
    {
        i -= 1;
        proof {
            tree.parts_are_children(n, i as int);
        }
        let found = find_reference(tree, parts[i], parameter);
        if found.is_some() {
            proof {
                lemma_earlier_parts(*tree, n, parameter, i as nat);
            }
            return found;
        }
    }
    None
}

proof fn lemma_earlier_parts(tree: SyntaxTree, n: usize, parameter: usize, from: nat)
    requires
        declared_reference_in(tree, n, parameter, from) is Some,
    ensures
        declared_reference_in(tree, n, parameter, 0) == declared_reference_in(
            tree,
            n,
            parameter,
            from,
        ),
    decreases from,
{
    if from > 0 {
        assert(declared_reference_in(tree, n, parameter, (from - 1) as nat)
            == declared_reference_in(tree, n, parameter, from));
        lemma_earlier_parts(tree, n, parameter, (from - 1) as nat);
    }
}

/// Whether a C++ parameter is written as a reference, whatever its type resolves to.
pub fn is_cpp_reference_parameter(tree: &SyntaxTree, parameter: usize) -> (r: bool)
    ensures
        r == is_reference_parameter(*tree, parameter),
{
    let data = tree.data(parameter);
    if !matches!(data.kind, Kind::ParameterDeclaration | Kind::OptionalParameterDeclaration)
        || data.has_error {
        return false;
    }
    match tree.child_by_field(parameter, Field::Declarator) {
        None => false,
        Some(declarator) => match find_reference(tree, declarator, parameter) {
            None => false,
            Some(reference) => reference,
        },
    }
}

/// The call whose argument list a node stands in. Bodies of functions and closures
/// are not arguments of a call around them.
pub open spec fn call_around(tree: SyntaxTree, n: usize) -> Option<usize>
    decreases n,
{
    match tree.parent_of(n) {
        None => None,
        Some(p) => if tree.kind_of(p) == Kind::ArgumentList {
            match tree.parent_of(p) {
                None => None,
                Some(call) => if tree.kind_of(call) == Kind::CallExpression {
                    Some(call)
                } else {
                    None
                },
            }
        } else if tree.kind_of(p) == Kind::FunctionDefinition || tree.kind_of(p)
            == Kind::LambdaExpression {
            None
        } else {
            call_around(tree, p)
        },
    }
}

/// The range of the call whose argument list holds a range.
pub open spec fn call_range_at(tree: SyntaxTree, range: TextRange) -> Option<TextRange> {
    match tree.node_at(range.start_byte, range.end_byte) {
        None => None,
        Some(n) => match call_around(tree, n) {
            None => None,
            Some(call) => Some(tree.range_of(call)),
        },
    }
}

/// The range of the call whose argument list holds a dataflow node.
pub fn call_range(node: &DataNode, tree: &SyntaxTree) -> (r: Option<TextRange>)
    ensures
        r == call_range_at(*tree, node.range),
{
    let n = match tree.descendant_for_byte_range(node.range.start_byte, node.range.end_byte) {
        None => {
            return None;
        },
        Some(n) => n,
    };
    let mut at: usize = n;
    let mut up = tree.parent(n);
    while up.is_some()
        invariant
            up == tree.parent_of(at),
            tree.node_at(node.range.start_byte, node.range.end_byte) == Some(n),
            call_around(*tree, n) == call_around(*tree, at),
        decreases at,
    {
        let p = up.unwrap();
        let kind = tree.kind(p);
        if kind == Kind::ArgumentList {
            return match tree.parent(p) {
                None => None,
                Some(call) => if tree.kind(call) == Kind::CallExpression {
                    Some(tree.range(call))
                } else {
                    None
                },
            };
        }
        if matches!(kind, Kind::FunctionDefinition | Kind::LambdaExpression) {
            return None;
        }
        at = p;
        up = tree.parent(p);
    }
    None
}

/// The last use of a binding in a function at a range.
pub open spec fn binding_use(
    nodes: Seq<DataNode>,
    function: Option<SymbolId>,
    start: u32,
    end: u32,
) -> Option<DataNode>
    decreases nodes.len(),
{
    if nodes.len() == 0 {
        None
    } else {
        let last = nodes.last();
        if last.kind == DataNodeKind::VariableUse && last.binding_id is Some && last.function_id
            == function && last.range.start_byte == start && last.range.end_byte == end {
            Some(last)
        } else {
            binding_use(nodes.drop_last(), function, start, end)
        }
    }
}

fn find_binding_use(
    nodes: &[DataNode],
    function: Option<SymbolId>,
    start: u32,
    end: u32,
) -> (r: Option<&DataNode>)
    ensures
        match r {
            None => binding_use(nodes@, function, start, end) is None,
            Some(node) => binding_use(nodes@, function, start, end) == Some(*node),
        },
{
    let mut i: usize = nodes.len();
    assert(nodes@.take(i as int) =~= nodes@);
    while i > 0
        invariant
            i <= nodes@.len(),
            binding_use(nodes@, function, start, end) == binding_use(
                nodes@.take(i as int),
                function,
                start,
                end,
            ),
        decreases i,
    {
        assert(nodes@.take(i as int).drop_last() =~= nodes@.take(i - 1));
        i -= 1;
        let node = &nodes[i];
        if node.kind == DataNodeKind::VariableUse && node.binding_id.is_some() && node.function_id
            == function && node.range.start_byte == start && node.range.end_byte == end {
            return Some(node);
        }
    }
    None
}

/// The name that an argument exposes: the argument itself or what its address is
/// taken of, without parentheses.
pub open spec fn exposed_name(tree: SyntaxTree, argument: usize) -> Option<usize> {
    let value = bare_expression(tree, argument);
    let operator = tree.child_in_role(value, Field::Operator);
    let target = if tree.kind_of(value) == Kind::PointerExpression && operator is Some
        && tree.text_of(operator->0) == Some("&".spec_bytes()) {
        match tree.child_in_role(value, Field::Argument) {
            None => None,
            Some(operand) => Some(bare_expression(tree, operand)),
        }
    } else {
        Some(value)
    };
    match target {
        None => None,
        Some(name) => if tree.kind_of(name) == Kind::Identifier {
            Some(name)
        } else {
            None
        },
    }
}

fn find_exposed_name(tree: &SyntaxTree, argument: usize) -> (r: Option<usize>)
    ensures
        r == exposed_name(*tree, argument),
{
    let mut value = unparen(tree, argument);
    if tree.kind(value) == Kind::PointerExpression {
        let address = match tree.child_by_field(value, Field::Operator) {
            None => false,
            Some(operator) => tree.text_is(operator, "&"),
        };
        if address {
            match tree.child_by_field(value, Field::Argument) {
                None => {
                    return None;
                },
                Some(operand) => {
                    value = unparen(tree, operand);
                },
            }
        }
    }
    if tree.kind(value) == Kind::Identifier {
        Some(value)
    } else {
        None
    }
}

/// What a call may leave in the binding that an argument exposes.
pub open spec fn output_of(
    tree: SyntaxTree,
    nodes: Seq<DataNode>,
    argument: DataNode,
) -> Option<DataNode> {
    if argument.kind != DataNodeKind::CallArg || argument.function_id is None
        || argument.callsite_id is None || call_range_at(tree, argument.range) is None {
        None
    } else {
        match exposed_name(
            tree,
            tree.node_at(argument.range.start_byte, argument.range.end_byte)->0,
        ) {
            None => None,
            Some(name) => {
                let range = tree.range_of(name);
                match binding_use(nodes, argument.function_id, range.start_byte, range.end_byte) {
                    None => None,
                    Some(binding) => Some(
                        DataNode {
                            kind: DataNodeKind::CallOutput,
                            id: DataNodeId::generated(
                                argument.file_id,
                                argument.function_id,
                                "call_output".spec_bytes(),
                                optional_bytes(binding.name),
                                None,
                                argument.range.start_byte,
                            ),
                            range: argument.range,
                            callsite_id: argument.callsite_id,
                            arg_index: argument.arg_index,
                            ..binding
                        },
                    ),
                }
            },
        }
    }
}

/// What the calls may leave in the bindings that the first arguments expose.
pub open spec fn outputs_of(tree: SyntaxTree, nodes: Seq<DataNode>, count: nat) -> Seq<DataNode>
    decreases count,
{
    if count == 0 {
        Seq::empty()
    } else {
        let before = outputs_of(tree, nodes, (count - 1) as nat);
        match output_of(tree, nodes, nodes[count - 1]) {
            None => before,
            Some(output) => before.push(output),
        }
    }
}

fn make_output(tree: &SyntaxTree, nodes: &[DataNode], argument: &DataNode) -> (r: Option<DataNode>)
    ensures
        r == output_of(*tree, nodes@, *argument),
{
    if argument.kind != DataNodeKind::CallArg || argument.function_id.is_none()
        || argument.callsite_id.is_none() || call_range(argument, tree).is_none() {
        return None;
    }
    let syntax = match tree.descendant_for_byte_range(
        argument.range.start_byte,
        argument.range.end_byte,
    ) {
        None => {
            return None;
        },
        Some(n) => n,
    };
    let name = match find_exposed_name(tree, syntax) {
        None => {
            return None;
        },
        Some(name) => name,
    };
    let range = tree.range(name);
    match find_binding_use(nodes, argument.function_id, range.start_byte, range.end_byte) {
        None => None,
        Some(binding) => {
            let id = DataNodeId::generate(
                &argument.file_id,
                argument.function_id,
                "call_output",
                optional_slice(&binding.name),
                None,
                argument.range.start_byte,
            );
            Some(
                DataNode {
                    id,
                    file_id: binding.file_id,
                    function_id: binding.function_id,
                    kind: DataNodeKind::CallOutput,
                    binding_id: binding.binding_id,
                    callsite_id: argument.callsite_id,
                    name: binding.name.clone(),
                    access_path: binding.access_path.clone(),
                    arg_index: argument.arg_index,
                    range: argument.range,
                },
            )
        },
    }
}

/// Add what calls may leave in the bindings that C++ arguments expose.
pub fn append(ctx: &ExtractionCtx, nodes: &mut Vec<DataNode>)
    ensures
        final(nodes)@ == if ctx.language == Language::Cpp {
            old(nodes)@ + outputs_of(ctx.tree, old(nodes)@, old(nodes)@.len())
        } else {
            old(nodes)@
        },
{
    if ctx.language != Language::Cpp {
        return;
    }
    let ghost before = nodes@;
    let mut outputs: Vec<DataNode> = Vec::new();
    let count: usize = nodes.len();
    let mut i: usize = 0;
    while i < count
        invariant
            i <= count,
            count == nodes@.len(),
            nodes@ == before,
            outputs@ == outputs_of(ctx.tree, before, i as nat),
        decreases count - i,
    {
        match make_output(&ctx.tree, nodes.as_slice(), &nodes[i]) {
            None => {},
            Some(output) => {
                outputs.push(output);
            },
        }
        i += 1;
    }
    nodes.append(&mut outputs);
}

/// The identity of a reference parameter's value at an exit of its function.
pub open spec fn parameter_output_id_of(parameter: DataNode, exit: CfgNode) -> DataNodeId {
    DataNodeId::generated(
        parameter.file_id,
        parameter.function_id,
        "parameter_output".spec_bytes(),
        optional_bytes(parameter.name),
        Some(hex_text(digest_bytes(exit.id.0))),
        exit.stmt_range.start_byte,
    )
}

/// The identity of a reference parameter's value at an exit of its function.
pub fn parameter_output_id(parameter: &DataNode, exit: &CfgNode) -> (r: DataNodeId)
    ensures
        r == parameter_output_id_of(*parameter, *exit),
{
    let text = digest_text(exit.id.0);
    DataNodeId::generate(
        &parameter.file_id,
        parameter.function_id,
        "parameter_output",
        optional_slice(&parameter.name),
        Some(text.as_slice()),
        exit.stmt_range.start_byte,
    )
}

/// Whether a node is a parameter that is written as a reference.
pub open spec fn is_reference_input(tree: SyntaxTree, node: DataNode) -> bool {
    &&& node.kind == DataNodeKind::Parameter
    &&& node.binding_id is Some
    &&& match tree.node_at(node.range.start_byte, node.range.end_byte) {
        None => false,
        Some(name) => match tree.first_of(
            tree.ancestors_of(name),
            seq![Kind::ParameterDeclaration, Kind::OptionalParameterDeclaration],
            Seq::empty(),
        ) {
            None => false,
            Some(parameter) => is_reference_parameter(tree, parameter),
        },
    }
}

fn reference_input(tree: &SyntaxTree, node: &DataNode) -> (r: bool)
    ensures
        r == is_reference_input(*tree, *node),
{
    if node.kind != DataNodeKind::Parameter || node.binding_id.is_none() {
        return false;
    }
    match tree.descendant_for_byte_range(node.range.start_byte, node.range.end_byte) {
        None => false,
        Some(name) => {
            let above = tree.ancestors(name);
            let want = [Kind::ParameterDeclaration, Kind::OptionalParameterDeclaration];
            let stop: [Kind; 0] = [];
            assert(want@ =~= seq![Kind::ParameterDeclaration, Kind::OptionalParameterDeclaration]);
            assert(stop@ =~= Seq::empty());
            match tree.find_first(above.as_slice(), &want, &stop) {
                None => false,
                Some(parameter) => is_cpp_reference_parameter(tree, parameter),
            }
        },
    }
}

/// The normal exits of a function, in the order of the control-flow nodes.
pub open spec fn exits_of(cfg: CfgResult, function: SymbolId) -> Seq<CfgNode> {
    cfg.nodes@.filter(
        |n: CfgNode| n.function_id == function && cfg.normal_exit_sources@.contains(n.id),
    )
}

/// A reference parameter's value at an exit.
pub open spec fn output_at_exit(parameter: DataNode, exit: CfgNode) -> DataNode {
    DataNode {
        kind: DataNodeKind::ParameterOutput,
        id: parameter_output_id_of(parameter, exit),
        range: if exit.stmt_range.start_byte < exit.stmt_range.end_byte {
            exit.stmt_range
        } else {
            parameter.range
        },
        ..parameter
    }
}

/// How far the values at exits have been recorded.
pub struct ExitState {
    /// The values that have been added.
    pub outputs: Seq<DataNode>,
    /// How many were added for each function; one more once its limit was reported.
    pub counts: Map<SymbolId, int>,
    pub diagnostics: Seq<ExtractDiagnosticView>,
    pub truncated: bool,
}

/// How many values were added for a function.
pub open spec fn count_for(counts: Map<SymbolId, int>, function: SymbolId) -> int {
    if counts.dom().contains(function) {
        counts[function]
    } else {
        0
    }
}

/// The report that a function has more values at exits than are recorded.
pub open spec fn exit_limit(range: TextRange) -> ExtractDiagnosticView {
    ExtractDiagnosticView {
        level: DiagnosticLevel::Warning,
        message: "reference_exit_budget_exceeded: remaining parameter/exit states in this function were not examined".spec_bytes(),
        range: Some(range),
    }
}

/// Record a parameter's values at the exits of its function from one on.
pub open spec fn record_exits(
    state: ExitState,
    parameter: DataNode,
    function: SymbolId,
    exits: Seq<CfgNode>,
    limit: int,
) -> ExitState
    decreases exits.len(),
{
    let count = count_for(state.counts, function);
    if exits.len() == 0 {
        state
    } else if count >= limit {
        if count == limit {
            ExitState {
                counts: state.counts.insert(function, count + 1),
                diagnostics: state.diagnostics.push(exit_limit(parameter.range)),
                truncated: true,
                ..state
            }
        } else {
            ExitState { truncated: true, ..state }
        }
    } else {
        record_exits(
            ExitState {
                outputs: state.outputs.push(output_at_exit(parameter, exits[0])),
                counts: state.counts.insert(function, count + 1),
                ..state
            },
            parameter,
            function,
            exits.drop_first(),
            limit,
        )
    }
}

/// Record the values of reference parameters at the exits of their functions.
pub open spec fn record_outputs(
    tree: SyntaxTree,
    cfg: CfgResult,
    nodes: Seq<DataNode>,
    limit: int,
    state: ExitState,
) -> ExitState
    decreases nodes.len(),
{
    if nodes.len() == 0 {
        state
    } else {
        let next = match nodes[0].function_id {
            Some(function) if is_reference_input(tree, nodes[0]) => record_exits(
                state,
                nodes[0],
                function,
                exits_of(cfg, function),
                limit,
            ),
            _ => state,
        };
        record_outputs(tree, cfg, nodes.drop_first(), limit, next)
    }
}

/// Nothing has been recorded.
pub open spec fn no_exits() -> ExitState {
    ExitState {
        outputs: Seq::empty(),
        counts: Map::empty(),
        diagnostics: Seq::empty(),
        truncated: false,
    }
}

/// The diagnostics, by value.
pub open spec fn report_list(diagnostics: Seq<ExtractDiagnostic>) -> Seq<ExtractDiagnosticView> {
    diagnostics.map_values(|d: ExtractDiagnostic| d@)
}

fn find_exits(cfg: &CfgResult, function: &SymbolId) -> (r: Vec<CfgNode>)
    ensures
        r@ == exits_of(*cfg, *function),
{
    let ghost keep = |n: CfgNode|
        n.function_id == *function && cfg.normal_exit_sources@.contains(n.id);
    let ghost all = cfg.nodes@;
    let mut found: Vec<CfgNode> = Vec::new();
    let mut i: usize = 0;
    assert(all.take(0).filter(keep) =~= Seq::empty()) by {
        reveal(Seq::filter);
    }
    while i < cfg.nodes.len()
        invariant
            i <= all.len(),
            all == cfg.nodes@,
            keep == (|n: CfgNode|
                n.function_id == *function && cfg.normal_exit_sources@.contains(n.id)),
            found@ == all.take(i as int).filter(keep),
        decreases all.len() - i,
    {
        proof {
            lemma_filter_step(all, keep, i as int);
        }
        if cfg.nodes[i].function_id == *function && holds(
            cfg.normal_exit_sources.as_slice(),
            &cfg.nodes[i].id,
        ) {
            found.push(cfg.nodes[i]);
        }
        i += 1;
    }
    assert(all.take(i as int) =~= all);
    found
}

fn make_exit_output(parameter: &DataNode, exit: &CfgNode) -> (r: DataNode)
    ensures
        r == output_at_exit(*parameter, *exit),
{
    DataNode {
        id: parameter_output_id(parameter, exit),
        file_id: parameter.file_id,
        function_id: parameter.function_id,
        kind: DataNodeKind::ParameterOutput,
        binding_id: parameter.binding_id,
        callsite_id: parameter.callsite_id,
        name: parameter.name.clone(),
        access_path: parameter.access_path.clone(),
        arg_index: parameter.arg_index,
        range: if exit.stmt_range.start_byte < exit.stmt_range.end_byte {
            exit.stmt_range
        } else {
            parameter.range
        },
    }
}

/// The counts, by value.
pub open spec fn count_views(counts: Map<SymbolId, usize>) -> Map<SymbolId, int> {
    counts.map_values(|n: usize| n as int)
}

/// Whether some node is a parameter that is written as a reference.
pub open spec fn has_reference_input(tree: SyntaxTree, nodes: Seq<DataNode>) -> bool {
    exists|i: int| 0 <= i < nodes.len() && is_reference_input(tree, #[trigger] nodes[i])
}

/// Add the value of each C++ reference parameter at each normal exit of its function.
/// Every exit has its own use of the binding, which keeps returned values and outputs
/// together without assuming anything of the caller. At most `limit` values are
/// recorded for a function; a function with more is reported once. Says whether
/// something was left out; nothing when `cancel` asks to stop.
pub fn append_parameter_outputs<F: Fn() -> bool>(
    ctx: &ExtractionCtx,
    cfg: &CfgResult,
    limit: usize,
    nodes: &mut Vec<DataNode>,
    diagnostics: &mut Vec<ExtractDiagnostic>,
    cancel: &F,
) -> (r: Option<bool>)
    requires
        limit < usize::MAX,
        call_requires(*cancel, ()),
    ensures
        match r {
            None => ctx.language == Language::Cpp && call_ensures(*cancel, (), true),
            Some(truncated) => {
                let end = if ctx.language == Language::Cpp {
                    record_outputs(ctx.tree, *cfg, old(nodes)@, limit as int, no_exits())
                } else {
                    no_exits()
                };
                &&& final(nodes)@ == old(nodes)@ + end.outputs
                &&& report_list(final(diagnostics)@) == report_list(old(diagnostics)@)
                    + end.diagnostics
                &&& truncated == end.truncated
                &&& ctx.language == Language::Cpp && has_reference_input(ctx.tree, old(nodes)@)
                    ==> call_ensures(*cancel, (), false)
            },
        },
{
    let ghost before = nodes@;
    let ghost told = report_list(diagnostics@);
    assert(before + no_exits().outputs =~= before);
    assert(told + no_exits().diagnostics =~= told);
    if ctx.language != Language::Cpp {
        return Some(false);
    }
    let count: usize = nodes.len();
    let mut counts: IdMap<SymbolId, usize> = IdMap::new();
    let mut truncated = false;
    let ghost mut state = no_exits();
    let ghost end = record_outputs(ctx.tree, *cfg, before, limit as int, state);
    assert(before.skip(0) =~= before);
    assert(count_views(counts@) =~= Map::empty());
    let mut i: usize = 0;
    while i < count
        invariant
            limit < usize::MAX,
            call_requires(*cancel, ()),
            i <= count,
            count == before.len(),
            ctx.language == Language::Cpp,
            nodes@ == before + state.outputs,
            report_list(diagnostics@) == told + state.diagnostics,
            truncated == state.truncated,
            count_views(counts@) == state.counts,
            forall|f: SymbolId| #[trigger]
                counts@.dom().contains(f) ==> counts@[f] <= limit + 1,
            end == record_outputs(
                ctx.tree,
                *cfg,
                before.skip(i as int),
                limit as int,
                state,
            ),
            (exists|k: int| 0 <= k < i && is_reference_input(ctx.tree, #[trigger] before[k]))
                ==> call_ensures(*cancel, (), false),
        decreases count - i,
    {
        assert(before.skip(i as int).drop_first() =~= before.skip(i + 1));
        assert(nodes@[i as int] == before[i as int]);
        if reference_input(&ctx.tree, &nodes[i]) {
            if cancel() {
                return None;
            }
            let parameter = nodes[i].clone();
            if let Some(function) = parameter.function_id {
                let exits = find_exits(cfg, &function);
                let mut used: usize = match counts.get(&function) {
                    None => 0,
                    Some(n) => *n,
                };
                assert(used == count_for(state.counts, function));
                let ghost settled = record_exits(
                    state,
                    parameter,
                    function,
                    exits@,
                    limit as int,
                );
                assert(exits@.skip(0) =~= exits@);
                let mut k: usize = 0;
                while k < exits.len()
                    invariant_except_break
                        settled == record_exits(
                            state,
                            parameter,
                            function,
                            exits@.skip(k as int),
                            limit as int,
                        ),
                    invariant
                        limit < usize::MAX,
                        call_requires(*cancel, ()),
                        k <= exits@.len(),
                        used == count_for(state.counts, function),
                        used <= limit + 1,
                        call_ensures(*cancel, (), false),
                        ctx.language == Language::Cpp,
                        nodes@ == before + state.outputs,
                        report_list(diagnostics@) == told + state.diagnostics,
                        truncated == state.truncated,
                        count_views(counts@) == state.counts,
                        forall|f: SymbolId| #[trigger]
                            counts@.dom().contains(f) ==> counts@[f] <= limit + 1,
                    ensures
                        settled == state,
                    decreases exits@.len() - k,
                {
                    if cancel() {
                        return None;
                    }
                    assert(exits@.skip(k as int).drop_first() =~= exits@.skip(k + 1));
                    let ghost held = counts@;
                    if used >= limit {
                        if used == limit {
                            let ghost listed = diagnostics@;
                            let report = ExtractDiagnostic {
                                level: DiagnosticLevel::Warning,
                                message: Text::new(
                                    "reference_exit_budget_exceeded: remaining parameter/exit states in this function were not examined",
                                ),
                                range: Some(parameter.range),
                            };
                            diagnostics.push(report);
                            used += 1;
                            counts.insert(function, used);
                            proof {
                                assert(report_list(diagnostics@) =~= report_list(listed).push(
                                    report@,
                                ));
                                assert(count_views(counts@) =~= count_views(held).insert(
                                    function,
                                    used as int,
                                ));
                                assert((told + state.diagnostics).push(report@) =~= told
                                    + state.diagnostics.push(report@));
                                state = ExitState {
                                    counts: state.counts.insert(function, used as int),
                                    diagnostics: state.diagnostics.push(
                                        exit_limit(parameter.range),
                                    ),
                                    ..state
                                };
                            }
                        }
                        truncated = true;
                        proof {
                            state = ExitState { truncated: true, ..state };
                        }
                        break;
                    }
                    let output = make_exit_output(&parameter, &exits[k]);
                    nodes.push(output);
                    used += 1;
                    counts.insert(function, used);
                    proof {
                        assert(count_views(counts@) =~= count_views(held).insert(
                            function,
                            used as int,
                        ));
                        assert((before + state.outputs).push(output) =~= before
                            + state.outputs.push(output));
                        state = ExitState {
                            outputs: state.outputs.push(output),
                            counts: state.counts.insert(function, used as int),
                            ..state
                        };
                    }
                    k += 1;
                    proof {
                        if k == exits@.len() {
                            assert(exits@.skip(k as int) =~= Seq::empty());
                        }
                    }
                }
            }
        }
        i += 1;
    }
    assert(before.skip(i as int) =~= Seq::empty());
    assert(has_reference_input(ctx.tree, before) ==> call_ensures(*cancel, (), false));
    Some(truncated)
}

/// How many of some nodes belong to a function.
pub open spec fn output_count(outputs: Seq<DataNode>, function: SymbolId) -> nat
    decreases outputs.len(),
{
    if outputs.len() == 0 {
        0
    } else {
        output_count(outputs.drop_last(), function) + if outputs.last().function_id == Some(
            function,
        ) {
            1nat
        } else {
            0
        }
    }
}

/// What holds of the values at exits however many have been recorded.
spec fn is_within(state: ExitState, limit: int) -> bool {
    &&& forall|f: SymbolId| #[trigger]
        output_count(state.outputs, f) <= limit && output_count(state.outputs, f) <= count_for(
            state.counts,
            f,
        )
    &&& forall|f: SymbolId| #[trigger]
        count_for(state.counts, f) > limit ==> state.diagnostics.len() > 0
    &&& state.truncated == (state.diagnostics.len() > 0)
}

proof fn lemma_exits_within(
    state: ExitState,
    parameter: DataNode,
    function: SymbolId,
    exits: Seq<CfgNode>,
    limit: int,
)
    requires
        is_within(state, limit),
        parameter.function_id == Some(function),
    ensures
        is_within(record_exits(state, parameter, function, exits, limit), limit),
    decreases exits.len(),
{
    let count = count_for(state.counts, function);
    if exits.len() > 0 {
        if count >= limit {
            let next = record_exits(state, parameter, function, exits, limit);
            assert forall|f: SymbolId| #[trigger]
                output_count(next.outputs, f) <= limit && output_count(next.outputs, f)
                    <= count_for(next.counts, f) by {
                assert(output_count(state.outputs, f) <= count_for(state.counts, f));
            }
            assert forall|f: SymbolId| #[trigger]
                count_for(next.counts, f) > limit implies next.diagnostics.len() > 0 by {
                if f != function {
                    assert(count_for(state.counts, f) > limit);
                }
            }
        } else {
            let output = output_at_exit(parameter, exits[0]);
            let next = ExitState {
                outputs: state.outputs.push(output),
                counts: state.counts.insert(function, count + 1),
                ..state
            };
            assert forall|f: SymbolId| #[trigger]
                output_count(next.outputs, f) <= limit && output_count(next.outputs, f)
                    <= count_for(next.counts, f) by {
                assert(next.outputs.drop_last() =~= state.outputs);
                assert(output_count(state.outputs, f) <= count_for(state.counts, f));
            }
            assert forall|f: SymbolId| #[trigger]
                count_for(next.counts, f) > limit implies next.diagnostics.len() > 0 by {
                if f != function {
                    assert(count_for(state.counts, f) > limit);
                }
            }
            lemma_exits_within(next, parameter, function, exits.drop_first(), limit);
        }
    }
}

proof fn lemma_outputs_within(
    tree: SyntaxTree,
    cfg: CfgResult,
    nodes: Seq<DataNode>,
    limit: int,
    state: ExitState,
)
    requires
        is_within(state, limit),
    ensures
        is_within(record_outputs(tree, cfg, nodes, limit, state), limit),
    decreases nodes.len(),
{
    if nodes.len() > 0 {
        let next = match nodes[0].function_id {
            Some(function) if is_reference_input(tree, nodes[0]) => {
                lemma_exits_within(state, nodes[0], function, exits_of(cfg, function), limit);
                record_exits(state, nodes[0], function, exits_of(cfg, function), limit)
            },
            _ => state,
        };
        lemma_outputs_within(tree, cfg, nodes.drop_first(), limit, next);
    }
}

/// At most `limit` values at exits are recorded for a function, and something is left out
/// if and only if it is reported.
pub proof fn outputs_are_bounded_and_gaps_reported(
    tree: SyntaxTree,
    cfg: CfgResult,
    nodes: Seq<DataNode>,
    limit: int,
    function: SymbolId,
)
    requires
        0 <= limit,
    ensures
        ({
            let end = record_outputs(tree, cfg, nodes, limit, no_exits());
            &&& output_count(end.outputs, function) <= limit
            &&& end.truncated == (end.diagnostics.len() > 0)
        }),
{
    lemma_outputs_within(tree, cfg, nodes, limit, no_exits());
}

/// Parentheses around an expression do not matter, and nothing else is taken off.
pub proof fn parentheses_do_not_matter(tree: SyntaxTree, n: usize)
    ensures
        tree.kind_of(n) != Kind::ParenthesizedExpression ==> bare_expression(tree, n) == n,
        tree.kind_of(n) == Kind::ParenthesizedExpression && tree.parts_of(n).len() == 1
            ==> bare_expression(tree, n) == bare_expression(tree, tree.parts_of(n)[0]),
{
}

/// Whether an argument is a name or takes its address, whatever parentheses are around.
pub open spec fn exposes(tree: SyntaxTree, argument: usize, name: usize) -> bool {
    let value = bare_expression(tree, argument);
    tree.kind_of(name) == Kind::Identifier && (value == name || exists|
        operator: usize,
        operand: usize,
    |
        tree.kind_of(value) == Kind::PointerExpression && #[trigger] tree.child_in_role(
            value,
            Field::Operator,
        ) == Some(operator) && tree.text_of(operator) == Some("&".spec_bytes())
            && #[trigger] tree.child_in_role(value, Field::Argument) == Some(operand)
            && bare_expression(tree, operand) == name)
}

/// Whether a node stands in the argument list of a call.
pub open spec fn is_argument_of_call(tree: SyntaxTree, n: usize) -> bool {
    exists|list: usize, call: usize|
        #![trigger tree.kind_of(list), tree.kind_of(call)]
        tree.parent_of(n) == Some(list) && tree.kind_of(list) == Kind::ArgumentList
            && tree.parent_of(list) == Some(call) && tree.kind_of(call) == Kind::CallExpression
}

/// Whether a node is a bound use of a name in a function.
pub open spec fn is_bound_use(node: DataNode, function: Option<SymbolId>, at: TextRange) -> bool {
    &&& node.kind == DataNodeKind::VariableUse
    &&& node.binding_id is Some
    &&& node.function_id == function
    &&& node.range.start_byte == at.start_byte
    &&& node.range.end_byte == at.end_byte
}

proof fn lemma_last_bound_use(
    nodes: Seq<DataNode>,
    function: Option<SymbolId>,
    at: TextRange,
    u: int,
)
    requires
        0 <= u < nodes.len(),
        is_bound_use(nodes[u], function, at),
        forall|v: int| u < v < nodes.len() ==> !is_bound_use(#[trigger] nodes[v], function, at),
    ensures
        binding_use(nodes, function, at.start_byte, at.end_byte) == Some(nodes[u]),
    decreases nodes.len(),
{
    if u < nodes.len() - 1 {
        let fewer = nodes.drop_last();
        assert(!is_bound_use(nodes[nodes.len() - 1], function, at));
        assert forall|v: int| u < v < fewer.len() implies !is_bound_use(
            #[trigger] fewer[v],
            function,
            at,
        ) by {
            assert(!is_bound_use(nodes[v], function, at));
        }
        lemma_last_bound_use(fewer, function, at, u);
    }
}

proof fn lemma_bound_use_is_there(
    nodes: Seq<DataNode>,
    function: Option<SymbolId>,
    at: TextRange,
) -> (u: int)
    requires
        binding_use(nodes, function, at.start_byte, at.end_byte) is Some,
    ensures
        0 <= u < nodes.len(),
        is_bound_use(nodes[u], function, at),
        binding_use(nodes, function, at.start_byte, at.end_byte) == Some(nodes[u]),
    decreases nodes.len(),
{
    let last = nodes.last();
    if is_bound_use(last, function, at) {
        nodes.len() - 1
    } else {
        lemma_bound_use_is_there(nodes.drop_last(), function, at)
    }
}

proof fn lemma_output_is_appended(tree: SyntaxTree, nodes: Seq<DataNode>, count: nat, i: int)
    requires
        0 <= i < count <= nodes.len(),
        output_of(tree, nodes, nodes[i]) is Some,
    ensures
        outputs_of(tree, nodes, count).contains(output_of(tree, nodes, nodes[i])->0),
    decreases count,
{
    let output = output_of(tree, nodes, nodes[i])->0;
    let all = outputs_of(tree, nodes, count);
    let before = outputs_of(tree, nodes, (count - 1) as nat);
    if i == count - 1 {
        assert(all.last() == output);
    } else {
        lemma_output_is_appended(tree, nodes, (count - 1) as nat, i);
        let k = choose|k: int| 0 <= k < before.len() && before[k] == output;
        assert(all[k] == output);
    }
}

proof fn lemma_output_has_argument(tree: SyntaxTree, nodes: Seq<DataNode>, count: nat, k: int) -> (
    i: int)
    requires
        count <= nodes.len(),
        0 <= k < outputs_of(tree, nodes, count).len(),
    ensures
        0 <= i < count,
        output_of(tree, nodes, nodes[i]) == Some(outputs_of(tree, nodes, count)[k]),
    decreases count,
{
    let before = outputs_of(tree, nodes, (count - 1) as nat);
    if k < before.len() {
        lemma_output_has_argument(tree, nodes, (count - 1) as nat, k)
    } else {
        count - 1
    }
}

/// Whether a node is what a call may leave in the binding of a use that its argument exposes.
pub open spec fn is_output_for(output: DataNode, argument: DataNode, bound: DataNode) -> bool {
    &&& output.kind == DataNodeKind::CallOutput
    &&& output.binding_id == bound.binding_id
    &&& output.name == bound.name
    &&& output.access_path == bound.access_path
    &&& output.file_id == bound.file_id
    &&& output.function_id == argument.function_id
    &&& output.range == argument.range
    &&& output.callsite_id == argument.callsite_id
    &&& output.arg_index == argument.arg_index
}

/// An argument that is a name or takes its address may be written by the call: where the
/// name has a bound use in the same function, the appended nodes hold an output of the call
/// with that binding, at the range and the call of the argument.
pub proof fn an_exposed_binding_gets_an_output(
    tree: SyntaxTree,
    nodes: Seq<DataNode>,
    i: int,
    n: usize,
    name: usize,
    u: int,
)
    requires
        0 <= i < nodes.len(),
        0 <= u < nodes.len(),
        nodes[i].kind == DataNodeKind::CallArg,
        nodes[i].function_id is Some,
        nodes[i].callsite_id is Some,
        tree.node_at(nodes[i].range.start_byte, nodes[i].range.end_byte) == Some(n),
        is_argument_of_call(tree, n) || call_range_at(tree, nodes[i].range) is Some,
        exposes(tree, n, name),
        is_bound_use(nodes[u], nodes[i].function_id, tree.range_of(name)),
        forall|v: int|
            u < v < nodes.len() ==> !is_bound_use(
                #[trigger] nodes[v],
                nodes[i].function_id,
                tree.range_of(name),
            ),
    ensures
        exists|k: int|
            0 <= k < outputs_of(tree, nodes, nodes.len()).len() && is_output_for(
                #[trigger] outputs_of(tree, nodes, nodes.len())[k],
                nodes[i],
                nodes[u],
            ),
{
    lemma_last_bound_use(nodes, nodes[i].function_id, tree.range_of(name), u);
    assert(exposed_name(tree, n) == Some(name));
    assert(call_range_at(tree, nodes[i].range) is Some);
    lemma_output_is_appended(tree, nodes, nodes.len(), i);
    let output = output_of(tree, nodes, nodes[i])->0;
    let all = outputs_of(tree, nodes, nodes.len());
    let k = choose|k: int| 0 <= k < all.len() && all[k] == output;
    assert(is_output_for(all[k], nodes[i], nodes[u]));
}

/// Nothing else is appended: every output is that of an argument of a recorded call which
/// exposes a name with a bound use in the same function.
pub proof fn every_output_has_an_exposed_binding(tree: SyntaxTree, nodes: Seq<DataNode>, k: int)
    requires
        0 <= k < outputs_of(tree, nodes, nodes.len()).len(),
    ensures
        exists|i: int, u: int, n: usize, name: usize|
            #![trigger nodes[i], nodes[u], exposes(tree, n, name)]
            {
                &&& 0 <= i < nodes.len()
                &&& 0 <= u < nodes.len()
                &&& nodes[i].kind == DataNodeKind::CallArg
                &&& nodes[i].function_id is Some
                &&& nodes[i].callsite_id is Some
                &&& tree.node_at(nodes[i].range.start_byte, nodes[i].range.end_byte) == Some(n)
                &&& exposes(tree, n, name)
                &&& is_bound_use(nodes[u], nodes[i].function_id, tree.range_of(name))
                &&& is_output_for(
                    outputs_of(tree, nodes, nodes.len())[k],
                    nodes[i],
                    nodes[u],
                )
            },
{
    let i = lemma_output_has_argument(tree, nodes, nodes.len(), k);
    let n = tree.node_at(nodes[i].range.start_byte, nodes[i].range.end_byte)->0;
    let name = exposed_name(tree, n)->0;
    let u = lemma_bound_use_is_there(nodes, nodes[i].function_id, tree.range_of(name));
    assert(exposes(tree, n, name));
    assert(is_output_for(outputs_of(tree, nodes, nodes.len())[k], nodes[i], nodes[u]));
}

proof fn lemma_exits_recorded(
    state: ExitState,
    parameter: DataNode,
    function: SymbolId,
    exits: Seq<CfgNode>,
    limit: int,
)
    ensures
        ({
            let after = record_exits(state, parameter, function, exits, limit);
            &&& state.outputs.is_prefix_of(after.outputs)
            &&& state.truncated ==> after.truncated
            &&& !after.truncated ==> forall|j: int|
                0 <= j < exits.len() ==> after.outputs.contains(
                    output_at_exit(parameter, #[trigger] exits[j]),
                )
        }),
    decreases exits.len(),
{
    let count = count_for(state.counts, function);
    if exits.len() > 0 && count < limit {
        let next = ExitState {
            outputs: state.outputs.push(output_at_exit(parameter, exits[0])),
            counts: state.counts.insert(function, count + 1),
            ..state
        };
        lemma_exits_recorded(next, parameter, function, exits.drop_first(), limit);
        let after = record_exits(state, parameter, function, exits, limit);
        assert(after.outputs[state.outputs.len() as int] == next.outputs[state.outputs.len() as int]);
        assert(state.outputs =~= after.outputs.take(state.outputs.len() as int));
        if !after.truncated {
            assert forall|j: int| 0 <= j < exits.len() implies after.outputs.contains(
                output_at_exit(parameter, #[trigger] exits[j]),
            ) by {
                if j > 0 {
                    assert(exits.drop_first()[j - 1] == exits[j]);
                }
            }
        }
    }
}

proof fn lemma_outputs_recorded(
    tree: SyntaxTree,
    cfg: CfgResult,
    nodes: Seq<DataNode>,
    limit: int,
    state: ExitState,
)
    ensures
        ({
            let after = record_outputs(tree, cfg, nodes, limit, state);
            &&& state.outputs.is_prefix_of(after.outputs)
            &&& state.truncated ==> after.truncated
            &&& !after.truncated ==> forall|i: int, exit: CfgNode|
                #![trigger nodes[i], output_at_exit(nodes[i], exit)]
                0 <= i < nodes.len() && is_reference_input(tree, nodes[i])
                    && nodes[i].function_id is Some && exits_of(
                    cfg,
                    nodes[i].function_id->0,
                ).contains(exit) ==> after.outputs.contains(output_at_exit(nodes[i], exit))
        }),
    decreases nodes.len(),
{
    if nodes.len() > 0 {
        let rest = nodes.drop_first();
        let next = match nodes[0].function_id {
            Some(function) if is_reference_input(tree, nodes[0]) => record_exits(
                state,
                nodes[0],
                function,
                exits_of(cfg, function),
                limit,
            ),
            _ => state,
        };
        if nodes[0].function_id is Some {
            let function = nodes[0].function_id->0;
            lemma_exits_recorded(state, nodes[0], function, exits_of(cfg, function), limit);
        }
        lemma_outputs_recorded(tree, cfg, rest, limit, next);
        let after = record_outputs(tree, cfg, nodes, limit, state);
        assert(state.outputs =~= after.outputs.take(state.outputs.len() as int));
        if !after.truncated {
            assert forall|i: int, exit: CfgNode|
                #![trigger nodes[i], output_at_exit(nodes[i], exit)]
                0 <= i < nodes.len() && is_reference_input(tree, nodes[i])
                    && nodes[i].function_id is Some && exits_of(
                    cfg,
                    nodes[i].function_id->0,
                ).contains(exit) implies after.outputs.contains(
                output_at_exit(nodes[i], exit),
            ) by {
                let output = output_at_exit(nodes[i], exit);
                if i == 0 {
                    let exits = exits_of(cfg, nodes[0].function_id->0);
                    let j = choose|j: int| 0 <= j < exits.len() && exits[j] == exit;
                    assert(next.outputs.contains(output_at_exit(nodes[0], exits[j])));
                    let k = choose|k: int| 0 <= k < next.outputs.len() && next.outputs[k] == output;
                    assert(after.outputs[k] == output);
                } else {
                    assert(rest[i - 1] == nodes[i]);
                    assert(after.outputs.contains(output_at_exit(rest[i - 1], exit)));
                }
            }
        }
    }
}

/// A reference parameter has a value at every normal exit of its function: unless something
/// was left out, the recorded nodes hold an output of the parameter with its binding and its
/// name, at the statement that leaves the function.
pub proof fn a_reference_parameter_has_an_output_at_every_exit(
    tree: SyntaxTree,
    cfg: CfgResult,
    nodes: Seq<DataNode>,
    limit: int,
    i: int,
    exit: CfgNode,
)
    requires
        0 <= i < nodes.len(),
        is_reference_input(tree, nodes[i]),
        cfg.nodes@.contains(exit),
        nodes[i].function_id == Some(exit.function_id),
        cfg.normal_exit_sources@.contains(exit.id),
        !record_outputs(tree, cfg, nodes, limit, no_exits()).truncated,
    ensures
        ({
            let outputs = record_outputs(tree, cfg, nodes, limit, no_exits()).outputs;
            exists|k: int|
                {
                    &&& 0 <= k < outputs.len()
                    &&& (#[trigger] outputs[k]).kind == DataNodeKind::ParameterOutput
                    &&& outputs[k].binding_id == nodes[i].binding_id
                    &&& outputs[k].function_id == nodes[i].function_id
                    &&& outputs[k].file_id == nodes[i].file_id
                    &&& outputs[k].name == nodes[i].name
                    &&& outputs[k].arg_index == nodes[i].arg_index
                    &&& exit.stmt_range.start_byte < exit.stmt_range.end_byte ==> outputs[k].range
                        == exit.stmt_range
                }
        }),
{
    let function = exit.function_id;
    let keep = |n: CfgNode| n.function_id == function && cfg.normal_exit_sources@.contains(n.id);
    let c = choose|c: int| 0 <= c < cfg.nodes@.len() && cfg.nodes@[c] == exit;
    cfg.nodes@.lemma_filter_contains(keep, c);
    assert(exits_of(cfg, function).contains(exit));
    lemma_outputs_recorded(tree, cfg, nodes, limit, no_exits());
    let outputs = record_outputs(tree, cfg, nodes, limit, no_exits()).outputs;
    let output = output_at_exit(nodes[i], exit);
    assert(outputs.contains(output));
    let k = choose|k: int| 0 <= k < outputs.len() && outputs[k] == output;
    assert(outputs[k].kind == DataNodeKind::ParameterOutput);
}

} // verus!
