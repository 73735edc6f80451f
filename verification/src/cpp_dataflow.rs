//! Dataflow in C++ files: which captured nodes are parameters, calls, fields and uses,
//! and what values they take.

use crate::cpp_facts::optional_view;
use crate::cpp_lambdas::{caller_initializers, initializers_of};
use crate::cpp_references::{
    call_crosses_statement, crosses_statement, is_attribute_call, is_attribute_entry,
    is_conversion, is_conversion_callee,
};
use crate::cpp_symbols::{capture_is, is_capture, lemma_bytes_tell_text};
use crate::facts::{
    BindingKind, DataFlowEdge, DataFlowKind, DataNode, DataNodeKind, DataNodeView, SymbolDef,
    SymbolKind, TextRange,
};
use crate::ids::{CallsiteId, DataNodeId, FileId, Identity, SymbolId};
use crate::syntax::{Field, Kind, SyntaxTree};
use crate::text::{copy_bytes, Text};
use vstd::prelude::*;
use vstd::string::StringSliceAdditionalSpecFns;

verus! {

broadcast use {SyntaxTree::parent_comes_first, SyntaxTree::children_come_later};

/// Whether a declarator goes on in its parent: a function is a binding only behind a
/// pointer, or in the body of another.
pub open spec fn goes_on(tree: SyntaxTree, n: usize, parent: usize) -> bool {
    match tree.kind_of(parent) {
        Kind::PointerDeclarator
        | Kind::ReferenceDeclarator
        | Kind::ArrayDeclarator
        | Kind::ParenthesizedDeclarator
        | Kind::InitDeclarator
        | Kind::StructuredBindingDeclarator => true,
        Kind::FunctionDeclarator => tree.kind_of(n) == Kind::ParenthesizedDeclarator
            || tree.kind_of(n) == Kind::PointerDeclarator || tree.has_one_of(
            tree.ancestors_of(parent),
            seq![Kind::FunctionDefinition],
        ),
        _ => false,
    }
}

/// What a declarator binds.
pub open spec fn bound_as(tree: SyntaxTree, n: usize) -> Option<BindingKind>
    decreases n,
{
    match tree.parent_of(n) {
        None => None,
        Some(parent) => match tree.kind_of(parent) {
            Kind::ParameterDeclaration | Kind::OptionalParameterDeclaration => Some(
                BindingKind::Parameter,
            ),
            Kind::Declaration => Some(BindingKind::Local),
            _ => if goes_on(tree, n, parent) && parent < n && (match tree.child_in_role(
                parent,
                Field::Declarator,
            ) {
                None => true,
                Some(declarator) => declarator == n,
            }) {
                bound_as(tree, parent)
            } else {
                None
            },
        },
    }
}

/// What a declarator binds.
pub fn cpp_declarator_binding_kind(tree: &SyntaxTree, from: usize) -> (r: Option<BindingKind>)
    ensures
        r == bound_as(*tree, from),
{
    let functions = [Kind::FunctionDefinition];
    let mut n: usize = from;
    assert(functions@ =~= seq![Kind::FunctionDefinition]);
    loop
        invariant
            functions@ == seq![Kind::FunctionDefinition],
            bound_as(*tree, from) == bound_as(*tree, n),
        decreases n,
    {
        let parent = match tree.parent(n) {
            None => {
                return None;
            },
            Some(parent) => parent,
        };
        match tree.kind(parent) {
            Kind::ParameterDeclaration | Kind::OptionalParameterDeclaration => {
                return Some(BindingKind::Parameter);
            },
            Kind::Declaration => {
                return Some(BindingKind::Local);
            },
            Kind::PointerDeclarator
            | Kind::ReferenceDeclarator
            | Kind::ArrayDeclarator
            | Kind::ParenthesizedDeclarator
            | Kind::InitDeclarator
            | Kind::StructuredBindingDeclarator => {},
            Kind::FunctionDeclarator => {
                let around = tree.ancestors(parent);
                if !(matches!(
                    tree.kind(n),
                    Kind::ParenthesizedDeclarator | Kind::PointerDeclarator
                ) || tree.has_any(around.as_slice(), &functions)) {
                    return None;
                }
            },
            _ => {
                return None;
            },
        }
        if let Some(declarator) = tree.child_by_field(parent, Field::Declarator) {
            if declarator != n {
                return None;
            }
        }
        n = parent;
    }
}

/// What a captured declarator binds, by value.
#[verifier::ext_equal]
pub struct WrittenBindingView {
    pub kind: BindingKind,
    pub name: Seq<u8>,
    pub range: TextRange,
}

/// What a captured declarator binds, as it is written.
#[derive(Debug)]
pub struct WrittenBinding {
    pub kind: BindingKind,
    pub name: Text,
    pub range: TextRange,
}

impl View for WrittenBinding {
    type V = WrittenBindingView;

    open spec fn view(&self) -> WrittenBindingView {
        WrittenBindingView { kind: self.kind, name: self.name@, range: self.range }
    }
}

/// What a captured declarator binds.
pub open spec fn binding_at(tree: SyntaxTree, capture: Seq<u8>, n: usize) -> Option<
    WrittenBindingView,
> {
    match (bound_as(tree, n), tree.text_of(n)) {
        (Some(kind), Some(name)) if is_capture(capture, "lexical.declarator") => Some(
            WrittenBindingView { kind, name, range: tree.range_of(n) },
        ),
        _ => None,
    }
}

/// What a captured declarator binds.
pub fn normalize_cpp_lexical(tree: &SyntaxTree, capture: &str, n: usize) -> (r: Option<
    WrittenBinding,
>)
    ensures
        optional_view(r) == binding_at(*tree, capture.spec_bytes(), n),
{
    if !capture_is(capture, "lexical.declarator") {
        return None;
    }
    match (cpp_declarator_binding_kind(tree, n), tree.node_text(n)) {
        (Some(kind), Some(name)) => Some(
            WrittenBinding { kind, name: Text::from_bytes(name), range: tree.range(n) },
        ),
        _ => None,
    }
}

/// Whether a declarator is that of the function or closure that is defined around it,
/// behind pointers and parentheses.
pub open spec fn declares_callable(tree: SyntaxTree, n: usize) -> bool
    decreases n,
{
    match tree.parent_of(n) {
        None => false,
        Some(parent) => match tree.kind_of(parent) {
            Kind::FunctionDefinition | Kind::LambdaExpression => tree.child_in_role(
                parent,
                Field::Declarator,
            ) == Some(n),
            Kind::PointerDeclarator
            | Kind::ReferenceDeclarator
            | Kind::ParenthesizedDeclarator => parent < n && (match tree.child_in_role(
                parent,
                Field::Declarator,
            ) {
                None => true,
                Some(child) => child == n,
            }) && declares_callable(tree, parent),
            _ => false,
        },
    }
}

fn find_declares_callable(tree: &SyntaxTree, from: usize) -> (r: bool)
    ensures
        r == declares_callable(*tree, from),
{
    let mut n: usize = from;
    loop
        invariant
            declares_callable(*tree, from) == declares_callable(*tree, n),
        decreases n,
    {
        let parent = match tree.parent(n) {
            None => {
                return false;
            },
            Some(parent) => parent,
        };
        match tree.kind(parent) {
            Kind::FunctionDefinition | Kind::LambdaExpression => {
                return tree.child_by_field(parent, Field::Declarator) == Some(n);
            },
            Kind::PointerDeclarator
            | Kind::ReferenceDeclarator
            | Kind::ParenthesizedDeclarator => {
                if let Some(child) = tree.child_by_field(parent, Field::Declarator) {
                    if child != n {
                        return false;
                    }
                }
            },
            _ => {
                return false;
            },
        }
        n = parent;
    }
}

/// Where a parameter stands among those of its list: nothing where it is not one of
/// them, no place where a pack, an explicit object or something else stands before it.
pub open spec fn slot_among(
    tree: SyntaxTree,
    nodes: Seq<usize>,
    parameter: usize,
    index: nat,
) -> Option<Option<u32>>
    decreases nodes.len(),
{
    if nodes.len() == 0 {
        None
    } else if tree.kind_of(nodes[0]) == Kind::Comment {
        slot_among(tree, nodes.drop_first(), parameter, index)
    } else if !(tree.kind_of(nodes[0]) == Kind::ParameterDeclaration || tree.kind_of(nodes[0])
        == Kind::OptionalParameterDeclaration) || tree.has_one_of(
        tree.children_of(nodes[0]),
        seq![Kind::This],
    ) {
        Some(None)
    } else if nodes[0] == parameter {
        Some(Some(index as u32))
    } else {
        slot_among(tree, nodes.drop_first(), parameter, index + 1)
    }
}

/// The parameter that a name declares, and the list that it stands in.
pub open spec fn declared_parameter(tree: SyntaxTree, n: usize) -> Option<(usize, usize)> {
    if bound_as(tree, n) != Some(BindingKind::Parameter) {
        None
    } else {
        match tree.first_of(
            tree.ancestors_of(n),
            seq![Kind::ParameterDeclaration, Kind::OptionalParameterDeclaration],
            Seq::empty(),
        ) {
            None => None,
            Some(parameter) => match (
                tree.child_in_role(parameter, Field::Declarator),
                tree.parent_of(parameter),
            ) {
                (Some(declared), Some(list)) if tree.range_of(declared).covers(tree.range_of(n))
                    && tree.kind_of(list) == Kind::ParameterList => Some((parameter, list)),
                _ => None,
            },
        }
    }
}

/// Whether a name is a parameter of the function or closure around it, and its place
/// among the arguments where this is plain to see.
pub open spec fn parameter_slot(tree: SyntaxTree, n: usize) -> Option<Option<u32>> {
    match declared_parameter(tree, n) {
        None => None,
        Some((parameter, list)) => match tree.parent_of(list) {
            Some(declarator) if (tree.kind_of(declarator) == Kind::FunctionDeclarator
                || tree.kind_of(declarator) == Kind::AbstractFunctionDeclarator)
                && declares_callable(tree, declarator) => if tree.node(list).has_error {
                Some(None)
            } else {
                slot_among(tree, tree.named_children_of(list), parameter, 0)
            },
            _ => None,
        },
    }
}

fn find_declared_parameter(tree: &SyntaxTree, n: usize) -> (r: Option<(usize, usize)>)
    ensures
        r == declared_parameter(*tree, n),
{
    match cpp_declarator_binding_kind(tree, n) {
        Some(BindingKind::Parameter) => {},
        _ => {
            return None;
        },
    }
    let want = [Kind::ParameterDeclaration, Kind::OptionalParameterDeclaration];
    let never: [Kind; 0] = [];
    assert(want@ =~= seq![Kind::ParameterDeclaration, Kind::OptionalParameterDeclaration]);
    assert(never@ =~= Seq::empty());
    let around = tree.ancestors(n);
    match tree.find_first(around.as_slice(), &want, &never) {
        None => None,
        Some(parameter) => match (
            tree.child_by_field(parameter, Field::Declarator),
            tree.parent(parameter),
        ) {
            (Some(declared), Some(list)) => if tree.range(declared).contains_range(&tree.range(n))
                && tree.kind(list) == Kind::ParameterList {
                Some((parameter, list))
            } else {
                None
            },
            _ => None,
        },
    }
}

fn find_slot_among(tree: &SyntaxTree, nodes: &[usize], parameter: usize) -> (r: Option<Option<u32>>)
    ensures
        r == slot_among(*tree, nodes@, parameter, 0),
{
    let this = [Kind::This];
    let mut index: usize = 0;
    let mut i: usize = 0;
    assert(this@ =~= seq![Kind::This]);
    assert(nodes@.skip(0) =~= nodes@);
    while i < nodes.len()
        invariant
            i <= nodes@.len(),
            index <= i,
            this@ == seq![Kind::This],
            slot_among(*tree, nodes@, parameter, 0) == slot_among(
                *tree,
                nodes@.skip(i as int),
                parameter,
                index as nat,
            ),
        decreases nodes@.len() - i,
    {
        assert(nodes@.skip(i as int).drop_first() =~= nodes@.skip(i + 1));
        let n: usize = nodes[i];
        match tree.kind(n) {
            Kind::Comment => {},
            Kind::ParameterDeclaration | Kind::OptionalParameterDeclaration => {
                if tree.has_any(tree.children(n), &this) {
                    return Some(None);
                }
                if n == parameter {
                    return Some(Some(index as u32));
                }
                index += 1;
            },
            _ => {
                return Some(None);
            },
        }
        i += 1;
    }
    None
}

/// Whether a name is a parameter of the function or closure around it, and its place
/// among the arguments.
pub fn cpp_dataflow_parameter_slot(tree: &SyntaxTree, n: usize) -> (r: Option<Option<u32>>)
    ensures
        r == parameter_slot(*tree, n),
{
    let (parameter, list) = match find_declared_parameter(tree, n) {
        None => {
            return None;
        },
        Some(found) => found,
    };
    match tree.parent(list) {
        None => None,
        Some(declarator) => {
            if !matches!(
                tree.kind(declarator),
                Kind::FunctionDeclarator | Kind::AbstractFunctionDeclarator
            ) || !find_declares_callable(tree, declarator) {
                return None;
            }
            if tree.data(list).has_error {
                return Some(None);
            }
            let nodes = tree.named_children(list);
            find_slot_among(tree, nodes.as_slice(), parameter)
        },
    }
}

/// The innermost call or construction from a node outwards.
pub open spec fn invocation_from(tree: SyntaxTree, n: usize) -> Option<usize> {
    tree.first_of(
        tree.lineage_of(n),
        seq![Kind::CallExpression, Kind::NewExpression],
        Seq::empty(),
    )
}

/// The innermost call or construction from a node outwards.
pub fn find_call_expression(tree: &SyntaxTree, n: usize) -> (r: Option<usize>)
    ensures
        r == invocation_from(*tree, n),
{
    let want = [Kind::CallExpression, Kind::NewExpression];
    let never: [Kind; 0] = [];
    assert(want@ =~= seq![Kind::CallExpression, Kind::NewExpression]);
    assert(never@ =~= Seq::empty());
    let around = tree.lineage(n);
    tree.find_first(around.as_slice(), &want, &never)
}

/// The call that a node is the callee of.
pub open spec fn call_of_callee(tree: SyntaxTree, n: usize) -> Option<usize> {
    match tree.parent_of(n) {
        Some(call) if tree.kind_of(call) == Kind::CallExpression && tree.child_in_role(
            call,
            Field::Function,
        ) == Some(n) => Some(call),
        _ => None,
    }
}

fn find_call_of_callee(tree: &SyntaxTree, n: usize) -> (r: Option<usize>)
    ensures
        r == call_of_callee(*tree, n),
{
    match tree.parent(n) {
        None => None,
        Some(call) => if tree.kind(call) == Kind::CallExpression && tree.child_by_field(
            call,
            Field::Function,
        ) == Some(n) {
            Some(call)
        } else {
            None
        },
    }
}

/// The invocation that a callee belongs to.
pub open spec fn target_call(tree: SyntaxTree, n: usize) -> Option<usize> {
    match call_of_callee(tree, n) {
        Some(call) => Some(call),
        None => invocation_from(tree, n),
    }
}

fn find_target_call(tree: &SyntaxTree, n: usize) -> (r: Option<usize>)
    ensures
        r == target_call(*tree, n),
{
    match find_call_of_callee(tree, n) {
        Some(call) => Some(call),
        None => find_call_expression(tree, n),
    }
}

/// The invocation that an argument belongs to.
pub open spec fn argument_call(tree: SyntaxTree, n: usize) -> Option<usize> {
    let outer = match tree.parent_of(n) {
        None => None,
        Some(parent) => invocation_from(tree, parent),
    };
    match outer {
        Some(call) => Some(call),
        None => invocation_from(tree, n),
    }
}

fn find_argument_call(tree: &SyntaxTree, n: usize) -> (r: Option<usize>)
    ensures
        r == argument_call(*tree, n),
{
    let outer = match tree.parent(n) {
        None => None,
        Some(parent) => find_call_expression(tree, parent),
    };
    match outer {
        Some(call) => Some(call),
        None => find_call_expression(tree, n),
    }
}

/// Whether an invocation is none in truth: an entry of an attribute list, or a callee
/// that goes over the end of a statement.
pub open spec fn is_no_call(tree: SyntaxTree, call: Option<usize>) -> bool {
    match call {
        None => false,
        Some(call) => is_attribute_entry(tree, call) || crosses_statement(tree, call),
    }
}

fn no_call(tree: &SyntaxTree, call: Option<usize>) -> (r: bool)
    ensures
        r == is_no_call(*tree, call),
{
    match call {
        None => false,
        Some(call) => is_attribute_call(tree, call) || call_crosses_statement(tree, call),
    }
}

/// Whether a node stands in the argument list of an attribute.
pub open spec fn is_attribute_argument(tree: SyntaxTree, n: usize) -> bool {
    match tree.parent_of(n) {
        None => false,
        Some(list) => match tree.parent_of(list) {
            None => false,
            Some(outer) => tree.kind_of(outer) == Kind::AttributeSpecifier || tree.kind_of(outer)
                == Kind::Attribute,
        },
    }
}

fn attribute_argument(tree: &SyntaxTree, n: usize) -> (r: bool)
    ensures
        r == is_attribute_argument(*tree, n),
{
    match tree.parent(n) {
        None => false,
        Some(list) => match tree.parent(list) {
            None => false,
            Some(outer) => matches!(
                tree.kind(outer),
                Kind::AttributeSpecifier | Kind::Attribute
            ),
        },
    }
}

/// Whether a node is the result of a conversion.
pub open spec fn is_conversion_result(tree: SyntaxTree, n: usize) -> bool {
    tree.kind_of(n) == Kind::CallExpression && match tree.child_in_role(n, Field::Function) {
        None => false,
        Some(callee) => is_conversion(tree, callee),
    }
}

fn conversion_result(tree: &SyntaxTree, n: usize) -> (r: bool)
    ensures
        r == is_conversion_result(*tree, n),
{
    tree.kind(n) == Kind::CallExpression && match tree.child_by_field(n, Field::Function) {
        None => false,
        Some(callee) => is_conversion_callee(tree, callee),
    }
}

/// A dataflow node that is not in a function yet.
pub open spec fn loose_node(
    file: FileId,
    tag: Seq<u8>,
    kind: DataNodeKind,
    callsite: Option<CallsiteId>,
    name: Seq<u8>,
    path: Seq<u8>,
    range: TextRange,
) -> DataNodeView {
    DataNodeView {
        id: DataNodeId::generated(file, None, tag, Some(name), Some(path), range.start_byte),
        file_id: file,
        function_id: None,
        kind,
        binding_id: None,
        callsite_id: callsite,
        name: Some(name),
        access_path: Some(path),
        arg_index: None,
        range,
    }
}

fn make_loose_node(
    file: FileId,
    tag: &str,
    kind: DataNodeKind,
    callsite: Option<CallsiteId>,
    name: &[u8],
    path: &[u8],
    range: TextRange,
) -> (r: DataNode)
    ensures
        r@ == loose_node(file, tag.spec_bytes(), kind, callsite, name@, path@, range),
{
    DataNode {
        id: DataNodeId::generate(&file, None, tag, Some(name), Some(path), range.start_byte),
        file_id: file,
        function_id: None,
        kind,
        binding_id: None,
        callsite_id: callsite,
        name: Some(Text::from_bytes(name)),
        access_path: Some(Text::from_bytes(path)),
        arg_index: None,
        range,
    }
}

/// What a captured node is in the dataflow, by value.
#[verifier::ext_equal]
pub enum FlowView {
    /// Nothing.
    Nothing,
    /// The result of a call.
    CallResult,
    /// A parameter, with its place among the arguments where it is known.
    Parameter(Option<u32>),
    /// Something that a value is assigned to.
    AssignTarget,
    /// A value that is assigned.
    AssignValue,
    /// A value that is returned.
    ReturnValue,
    /// An argument of a call.
    CallArgument,
    /// What a member is taken of.
    Receiver,
    /// A literal.
    Literal,
    /// A field that a value is assigned to.
    FieldTarget(Seq<u8>),
    /// A node of its own.
    Node(DataNodeView),
}

/// What a captured node is in the dataflow.
#[derive(Debug)]
pub enum Flow {
    Nothing,
    CallResult,
    Parameter(Option<u32>),
    AssignTarget,
    AssignValue,
    ReturnValue,
    CallArgument,
    Receiver,
    Literal,
    FieldTarget(Text),
    Node(DataNode),
}

impl View for Flow {
    type V = FlowView;

    open spec fn view(&self) -> FlowView {
        match self {
            Flow::Nothing => FlowView::Nothing,
            Flow::CallResult => FlowView::CallResult,
            Flow::Parameter(index) => FlowView::Parameter(*index),
            Flow::AssignTarget => FlowView::AssignTarget,
            Flow::AssignValue => FlowView::AssignValue,
            Flow::ReturnValue => FlowView::ReturnValue,
            Flow::CallArgument => FlowView::CallArgument,
            Flow::Receiver => FlowView::Receiver,
            Flow::Literal => FlowView::Literal,
            Flow::FieldTarget(text) => FlowView::FieldTarget(text@),
            Flow::Node(node) => FlowView::Node(node@),
        }
    }
}

/// The text of a node; nothing where its range lies outside the text.
pub open spec fn text_or_none(tree: SyntaxTree, n: usize) -> Seq<u8> {
    match tree.text_of(n) {
        None => Seq::empty(),
        Some(text) => text,
    }
}

/// The identity of the call site of an invocation.
pub open spec fn site_of(tree: SyntaxTree, file: FileId, call: Option<usize>) -> Option<CallsiteId> {
    match call {
        None => None,
        Some(call) => Some(
            CallsiteId::generated(
                file,
                tree.range_of(call).start_byte,
                tree.range_of(call).end_byte,
            ),
        ),
    }
}

/// The node of a callee.
pub open spec fn target_flow(tree: SyntaxTree, file: FileId, n: usize) -> FlowView {
    match tree.text_of(n) {
        None => FlowView::Nothing,
        Some(name) => FlowView::Node(
            loose_node(
                file,
                "call_target".spec_bytes(),
                DataNodeKind::CallTarget,
                site_of(tree, file, target_call(tree, n)),
                name,
                name,
                tree.range_of(n),
            ),
        ),
    }
}

/// The node of a field name, with the whole access as its path.
pub open spec fn field_flow(tree: SyntaxTree, file: FileId, n: usize) -> FlowView {
    match tree.text_of(n) {
        None => FlowView::Nothing,
        Some(name) => {
            let path = match tree.parent_of(n) {
                Some(access) if tree.kind_of(access) == Kind::FieldExpression => {
                    match tree.text_of(access) {
                        None => name,
                        Some(text) => text,
                    }
                },
                _ => name,
            };
            FlowView::Node(
                loose_node(
                    file,
                    "field".spec_bytes(),
                    DataNodeKind::Field,
                    None,
                    name,
                    path,
                    tree.range_of(n),
                ),
            )
        },
    }
}

/// The node of a use.
pub open spec fn use_flow(tree: SyntaxTree, file: FileId, n: usize) -> FlowView {
    let text = text_or_none(tree, n);
    if text.len() == 0 {
        FlowView::Nothing
    } else {
        FlowView::Node(
            loose_node(
                file,
                "identifier_use".spec_bytes(),
                DataNodeKind::VariableUse,
                None,
                text,
                text,
                tree.range_of(n),
            ),
        )
    }
}

/// What a captured node is in the dataflow. `declares` tells of a captured use whether
/// it declares a name or a property instead.
pub open spec fn flow_at(
    tree: SyntaxTree,
    file: FileId,
    capture: Seq<u8>,
    n: usize,
    declares: bool,
) -> FlowView {
    if is_capture(capture, "df.call_result") {
        if is_conversion_result(tree, n) || is_no_call(tree, Some(n)) {
            FlowView::Nothing
        } else {
            FlowView::CallResult
        }
    } else if is_capture(capture, "df.call_target") {
        if is_no_call(tree, target_call(tree, n)) {
            FlowView::Nothing
        } else {
            target_flow(tree, file, n)
        }
    } else if is_capture(capture, "df.call_arg") {
        if is_attribute_argument(tree, n) || is_no_call(tree, argument_call(tree, n)) {
            FlowView::Nothing
        } else {
            FlowView::CallArgument
        }
    } else if is_capture(capture, "df.parameter") {
        match parameter_slot(tree, n) {
            None => FlowView::Nothing,
            Some(index) => FlowView::Parameter(index),
        }
    } else if is_capture(capture, "df.assign_target") {
        if bound_as(tree, n) == Some(BindingKind::Parameter) {
            FlowView::Nothing
        } else {
            FlowView::AssignTarget
        }
    } else if is_capture(capture, "df.mutation_target") {
        FlowView::AssignTarget
    } else if is_capture(capture, "df.assign_value") || is_capture(capture, "df.mutation_value") {
        FlowView::AssignValue
    } else if is_capture(capture, "df.return_value") {
        FlowView::ReturnValue
    } else if is_capture(capture, "df.field_name") {
        field_flow(tree, file, n)
    } else if is_capture(capture, "df.receiver") {
        FlowView::Receiver
    } else if is_capture(capture, "df.literal") {
        FlowView::Literal
    } else if is_capture(capture, "df.identifier_use") {
        if parameter_slot(tree, n) is Some || declares {
            FlowView::Nothing
        } else {
            use_flow(tree, file, n)
        }
    } else if is_capture(capture, "df.mutation_read") {
        use_flow(tree, file, n)
    } else if is_capture(capture, "df.assign_field_target") {
        FlowView::FieldTarget(text_or_none(tree, n))
    } else {
        FlowView::Nothing
    }
}

fn find_text_or_none(tree: &SyntaxTree, n: usize) -> (r: Vec<u8>)
    ensures
        r@ == text_or_none(*tree, n),
{
    match tree.node_text(n) {
        None => {
            let none: Vec<u8> = Vec::new();
            assert(none@ =~= Seq::empty());
            none
        },
        Some(text) => copy_bytes(text),
    }
}

fn find_site(tree: &SyntaxTree, file: FileId, call: Option<usize>) -> (r: Option<CallsiteId>)
    ensures
        r == site_of(*tree, file, call),
{
    match call {
        None => None,
        Some(call) => Some(
            CallsiteId::from_file_range(
                &file,
                tree.range(call).start_byte,
                tree.range(call).end_byte,
            ),
        ),
    }
}

fn find_target_flow(tree: &SyntaxTree, file: FileId, n: usize) -> (r: Flow)
    ensures
        r@ == target_flow(*tree, file, n),
{
    match tree.node_text(n) {
        None => Flow::Nothing,
        Some(name) => Flow::Node(
            make_loose_node(
                file,
                "call_target",
                DataNodeKind::CallTarget,
                find_site(tree, file, find_target_call(tree, n)),
                name,
                name,
                tree.range(n),
            ),
        ),
    }
}

fn find_field_flow(tree: &SyntaxTree, file: FileId, n: usize) -> (r: Flow)
    ensures
        r@ == field_flow(*tree, file, n),
{
    match tree.node_text(n) {
        None => Flow::Nothing,
        Some(name) => {
            let path = match tree.parent(n) {
                None => name,
                Some(access) => if tree.kind(access) == Kind::FieldExpression {
                    match tree.node_text(access) {
                        None => name,
                        Some(text) => text,
                    }
                } else {
                    name
                },
            };
            Flow::Node(
                make_loose_node(
                    file,
                    "field",
                    DataNodeKind::Field,
                    None,
                    name,
                    path,
                    tree.range(n),
                ),
            )
        },
    }
}

fn find_use_flow(tree: &SyntaxTree, file: FileId, n: usize) -> (r: Flow)
    ensures
        r@ == use_flow(*tree, file, n),
{
    let text = find_text_or_none(tree, n);
    if text.len() == 0 {
        Flow::Nothing
    } else {
        Flow::Node(
            make_loose_node(
                file,
                "identifier_use",
                DataNodeKind::VariableUse,
                None,
                text.as_slice(),
                text.as_slice(),
                tree.range(n),
            ),
        )
    }
}

/// What a captured node is in the dataflow. `declares` tells of a captured use whether
/// it declares a name or a property instead.
pub fn normalize_cpp_dataflow_builder(
    tree: &SyntaxTree,
    file_id: FileId,
    capture: &str,
    n: usize,
    declares: bool,
) -> (r: Flow)
    ensures
        r@ == flow_at(*tree, file_id, capture.spec_bytes(), n, declares),
{
    if capture_is(capture, "df.call_result") {
        if conversion_result(tree, n) || no_call(tree, Some(n)) {
            Flow::Nothing
        } else {
            Flow::CallResult
        }
    } else if capture_is(capture, "df.call_target") {
        if no_call(tree, find_target_call(tree, n)) {
            Flow::Nothing
        } else {
            find_target_flow(tree, file_id, n)
        }
    } else if capture_is(capture, "df.call_arg") {
        if attribute_argument(tree, n) || no_call(tree, find_argument_call(tree, n)) {
            Flow::Nothing
        } else {
            Flow::CallArgument
        }
    } else if capture_is(capture, "df.parameter") {
        match cpp_dataflow_parameter_slot(tree, n) {
            None => Flow::Nothing,
            Some(index) => Flow::Parameter(index),
        }
    } else if capture_is(capture, "df.assign_target") {
        match cpp_declarator_binding_kind(tree, n) {
            Some(BindingKind::Parameter) => Flow::Nothing,
            _ => Flow::AssignTarget,
        }
    } else if capture_is(capture, "df.mutation_target") {
        Flow::AssignTarget
    } else if capture_is(capture, "df.assign_value") || capture_is(capture, "df.mutation_value") {
        Flow::AssignValue
    } else if capture_is(capture, "df.return_value") {
        Flow::ReturnValue
    } else if capture_is(capture, "df.field_name") {
        find_field_flow(tree, file_id, n)
    } else if capture_is(capture, "df.receiver") {
        Flow::Receiver
    } else if capture_is(capture, "df.literal") {
        Flow::Literal
    } else if capture_is(capture, "df.identifier_use") {
        if cpp_dataflow_parameter_slot(tree, n).is_some() || declares {
            Flow::Nothing
        } else {
            find_use_flow(tree, file_id, n)
        }
    } else if capture_is(capture, "df.mutation_read") {
        find_use_flow(tree, file_id, n)
    } else if capture_is(capture, "df.assign_field_target") {
        Flow::FieldTarget(Text::from_vec(find_text_or_none(tree, n)))
    } else {
        Flow::Nothing
    }
}

/// Whether a symbol is a callable that is defined over a range.
pub open spec fn is_defined_over(symbol: SymbolDef, range: TextRange) -> bool {
    (symbol.kind == SymbolKind::Function || symbol.kind == SymbolKind::Method || symbol.kind
        == SymbolKind::Constructor) && symbol.range.same_bytes(range)
}

/// The only callable that is defined over a range.
pub open spec fn only_callable_over(symbols: Seq<SymbolDef>, range: TextRange) -> Option<SymbolId> {
    let found = symbols.filter(|s: SymbolDef| is_defined_over(s, range));
    if found.len() == 1 {
        Some(found[0].id)
    } else {
        None
    }
}

fn find_only_callable_over(symbols: &[SymbolDef], range: TextRange) -> (r: Option<SymbolId>)
    ensures
        r == only_callable_over(symbols@, range),
{
    let ghost keep = |s: SymbolDef| is_defined_over(s, range);
    let mut found: Vec<SymbolId> = Vec::new();
    let mut i: usize = 0;
    assert(symbols@.take(0).filter(keep) =~= Seq::empty()) by {
        reveal(Seq::filter);
    }
    assert(found@ =~= symbols@.take(0).filter(keep).map_values(|s: SymbolDef| s.id));
    while i < symbols.len()
        invariant
            i <= symbols@.len(),
            keep == (|s: SymbolDef| is_defined_over(s, range)),
            found@ == symbols@.take(i as int).filter(keep).map_values(|s: SymbolDef| s.id),
        decreases symbols@.len() - i,
    {
        proof {
            crate::collections::lemma_filter_step(symbols@, keep, i as int);
        }
        let ghost before = symbols@.take(i as int).filter(keep);
        let symbol = &symbols[i];
        if matches!(
            symbol.kind,
            SymbolKind::Function | SymbolKind::Method | SymbolKind::Constructor
        ) && symbol.range.start_byte == range.start_byte && symbol.range.end_byte
            == range.end_byte {
            found.push(symbol.id);
            assert(found@ =~= before.push(*symbol).map_values(|s: SymbolDef| s.id));
        }
        i += 1;
    }
    assert(symbols@.take(i as int) =~= symbols@);
    if found.len() == 1 {
        Some(found[0])
    } else {
        None
    }
}

/// Whether a node stands in the captures of the closure that it was counted to.
pub open spec fn is_capture_initializer(
    initializers: Map<SymbolId, TextRange>,
    node: DataNode,
) -> bool {
    match node.function_id {
        None => false,
        Some(id) => initializers.dom().contains(id) && initializers[id].covers(node.range),
    }
}

/// A node with the callable that evaluates it: what stands in the captures of a closure
/// belongs to the callable around it.
pub open spec fn with_owner(
    initializers: Map<SymbolId, TextRange>,
    symbols: Seq<SymbolDef>,
    node: DataNode,
    owner: Option<TextRange>,
) -> DataNode {
    if is_capture_initializer(initializers, node) {
        DataNode {
            function_id: match owner {
                None => None,
                Some(range) => only_callable_over(symbols, range),
            },
            ..node
        }
    } else {
        node
    }
}

/// Give the nodes in the captures of closures to the callables that evaluate them.
/// `owners` holds the range of the callable whose code each node is part of.
pub fn capture_initializer_owners(
    tree: &SyntaxTree,
    symbols: &[SymbolDef],
    nodes: &mut Vec<DataNode>,
    owners: &[Option<TextRange>],
)
    requires
        owners@.len() == old(nodes)@.len(),
    ensures
        final(nodes)@.len() == old(nodes)@.len(),
        forall|i: int|
            0 <= i < old(nodes)@.len() ==> #[trigger] final(nodes)@[i] == with_owner(
                initializers_of(*tree, symbols@),
                symbols@,
                old(nodes)@[i],
                owners@[i],
            ),
{
    let initializers = caller_initializers(tree, symbols);
    let ghost map = initializers_of(*tree, symbols@);
    let mut i: usize = 0;
    while i < nodes.len()
        invariant
            i <= nodes@.len(),
            nodes@.len() == old(nodes)@.len(),
            owners@.len() == nodes@.len(),
            initializers@ == map,
            forall|k: int|
                0 <= k < i ==> #[trigger] nodes@[k] == with_owner(
                    map,
                    symbols@,
                    old(nodes)@[k],
                    owners@[k],
                ),
            forall|k: int| i <= k < nodes@.len() ==> nodes@[k] == old(nodes)@[k],
        decreases nodes@.len() - i,
    {
        let inside = match nodes[i].function_id {
            None => false,
            Some(id) => match initializers.get(&id) {
                None => false,
                Some(range) => range.contains_range(&nodes[i].range),
            },
        };
        if inside {
            let mut node = nodes[i].clone();
            node.function_id = match owners[i] {
                None => None,
                Some(range) => find_only_callable_over(symbols, range),
            };
            nodes.set(i, node);
        }
        i += 1;
    }
}

/// Where a receiver is written, and the dataflow node of it.
#[derive(Clone, Copy, PartialEq, Eq, Structural, Debug)]
pub struct ReceiverPosition {
    pub start_byte: u32,
    pub end_byte: u32,
    pub id: DataNodeId,
}

/// The node of a receiver at a place.
pub open spec fn receiver_at(positions: Seq<ReceiverPosition>, range: TextRange) -> Option<
    DataNodeId,
>
    decreases positions.len(),
{
    if positions.len() == 0 {
        None
    } else if positions[0].start_byte == range.start_byte && positions[0].end_byte
        == range.end_byte {
        Some(positions[0].id)
    } else {
        receiver_at(positions.drop_first(), range)
    }
}

fn find_receiver_at(positions: &[ReceiverPosition], range: TextRange) -> (r: Option<DataNodeId>)
    ensures
        r == receiver_at(positions@, range),
{
    let mut i: usize = 0;
    assert(positions@.skip(0) =~= positions@);
    while i < positions.len()
        invariant
            i <= positions@.len(),
            receiver_at(positions@, range) == receiver_at(positions@.skip(i as int), range),
        decreases positions@.len() - i,
    {
        assert(positions@.skip(i as int).drop_first() =~= positions@.skip(i + 1));
        if positions[i].start_byte == range.start_byte && positions[i].end_byte
            == range.end_byte {
            return Some(positions[i].id);
        }
        i += 1;
    }
    None
}

/// The last node with an identity.
pub open spec fn node_with(nodes: Seq<DataNode>, id: DataNodeId) -> Option<DataNode>
    decreases nodes.len(),
{
    if nodes.len() == 0 {
        None
    } else if nodes.last().id == id {
        Some(nodes.last())
    } else {
        node_with(nodes.drop_last(), id)
    }
}

/// The last node with an identity.
pub fn find_node_with<'a>(nodes: &'a [DataNode], id: &DataNodeId) -> (r: Option<&'a DataNode>)
    ensures
        match r {
            None => node_with(nodes@, *id) is None,
            Some(node) => node_with(nodes@, *id) == Some(*node),
        },
{
    let mut i: usize = nodes.len();
    assert(nodes@.take(i as int) =~= nodes@);
    while i > 0
        invariant
            i <= nodes@.len(),
            node_with(nodes@, *id) == node_with(nodes@.take(i as int), *id),
        decreases i,
    {
        assert(nodes@.take(i as int).drop_last() =~= nodes@.take(i - 1));
        if nodes[i - 1].id.same(id) {
            return Some(&nodes[i - 1]);
        }
        i -= 1;
    }
    None
}

/// Whether a node is the member access of a field, or that of its name.
pub open spec fn is_access_over(tree: SyntaxTree, n: usize, range: TextRange) -> bool {
    tree.kind_of(n) == Kind::FieldExpression && (tree.range_of(n).same_bytes(range) || match (
    tree.child_in_role(n, Field::Field)) {
        None => false,
        Some(name) => tree.range_of(name).same_bytes(range),
    })
}

/// The member access of a field from a node outwards.
pub open spec fn access_over(tree: SyntaxTree, n: usize, range: TextRange) -> Option<usize>
    decreases n,
{
    if is_access_over(tree, n, range) {
        Some(n)
    } else {
        match tree.parent_of(n) {
            Some(above) if above < n => access_over(tree, above, range),
            _ => None,
        }
    }
}

fn find_access_over(tree: &SyntaxTree, from: usize, range: TextRange) -> (r: Option<usize>)
    ensures
        r == access_over(*tree, from, range),
{
    let mut n: usize = from;
    loop
        invariant
            access_over(*tree, from, range) == access_over(*tree, n, range),
        decreases n,
    {
        let own = tree.range(n);
        let named = match tree.child_by_field(n, Field::Field) {
            None => false,
            Some(name) => {
                let other = tree.range(name);
                other.start_byte == range.start_byte && other.end_byte == range.end_byte
            },
        };
        if tree.kind(n) == Kind::FieldExpression && ((own.start_byte == range.start_byte
            && own.end_byte == range.end_byte) || named) {
            return Some(n);
        }
        match tree.parent(n) {
            None => {
                return None;
            },
            Some(above) => {
                n = above;
            },
        }
    }
}

/// The node of the written receiver of a field, where it is in the same function.
pub open spec fn receiver_of(
    tree: SyntaxTree,
    positions: Seq<ReceiverPosition>,
    nodes: Seq<DataNode>,
    field: DataNode,
) -> Option<DataNodeId> {
    match tree.node_at(field.range.start_byte, field.range.end_byte) {
        None => None,
        Some(n) => match access_over(tree, n, field.range) {
            None => None,
            Some(access) => match tree.child_in_role(access, Field::Argument) {
                None => None,
                Some(receiver) => match receiver_at(positions, tree.range_of(receiver)) {
                    None => None,
                    Some(id) => match node_with(nodes, id) {
                        Some(node) if node.function_id == field.function_id => Some(id),
                        _ => None,
                    },
                },
            },
        },
    }
}

fn find_receiver_of(
    tree: &SyntaxTree,
    positions: &[ReceiverPosition],
    nodes: &[DataNode],
    field: &DataNode,
) -> (r: Option<DataNodeId>)
    ensures
        r == receiver_of(*tree, positions@, nodes@, *field),
{
    match tree.descendant_for_byte_range(field.range.start_byte, field.range.end_byte) {
        None => None,
        Some(n) => match find_access_over(tree, n, field.range) {
            None => None,
            Some(access) => match tree.child_by_field(access, Field::Argument) {
                None => None,
                Some(receiver) => match find_receiver_at(positions, tree.range(receiver)) {
                    None => None,
                    Some(id) => match find_node_with(nodes, &id) {
                        None => None,
                        Some(node) => if node.function_id == field.function_id {
                            Some(id)
                        } else {
                            None
                        },
                    },
                },
            },
        },
    }
}

/// How sure it is that a field takes the value of its receiver, in hundredths.
pub const RECEIVER_CONFIDENCE: u8 = 80;

/// The edges from receivers to the fields among the first nodes.
pub open spec fn receiver_edges(
    tree: SyntaxTree,
    positions: Seq<ReceiverPosition>,
    nodes: Seq<DataNode>,
    count: nat,
) -> Seq<DataFlowEdge>
    decreases count,
{
    if count == 0 || count > nodes.len() {
        Seq::empty()
    } else {
        let before = receiver_edges(tree, positions, nodes, (count - 1) as nat);
        let field = nodes[count - 1];
        match receiver_of(tree, positions, nodes, field) {
            Some(id) if field.kind == DataNodeKind::Field => before.push(
                DataFlowEdge::made(
                    id,
                    field.id,
                    DataFlowKind::FieldLoad,
                    field.range,
                    RECEIVER_CONFIDENCE,
                ),
            ),
            _ => before,
        }
    }
}

/// Whether an identity is that of a field.
pub open spec fn is_field_id(nodes: Seq<DataNode>, id: DataNodeId) -> bool {
    exists|i: int|
        0 <= i < nodes.len() && (#[trigger] nodes[i]).kind == DataNodeKind::Field && nodes[i].id
            == id
}

/// Whether an edge loads a field by its name alone.
pub open spec fn loads_by_name(nodes: Seq<DataNode>, edge: DataFlowEdge) -> bool {
    edge.kind == DataFlowKind::FieldLoad && is_field_id(nodes, edge.target)
}

/// Edges in which fields take their values from the receivers that are written, in
/// place of those found by name.
pub open spec fn with_receivers(
    tree: SyntaxTree,
    positions: Seq<ReceiverPosition>,
    nodes: Seq<DataNode>,
    edges: Seq<DataFlowEdge>,
) -> Seq<DataFlowEdge> {
    edges.filter(|e: DataFlowEdge| !loads_by_name(nodes, e)) + receiver_edges(
        tree,
        positions,
        nodes,
        nodes.len(),
    )
}

fn find_field_id(nodes: &[DataNode], id: &DataNodeId) -> (r: bool)
    ensures
        r == is_field_id(nodes@, *id),
{
    let mut i: usize = 0;
    while i < nodes.len()
        invariant
            i <= nodes@.len(),
            forall|k: int|
                0 <= k < i ==> !((#[trigger] nodes@[k]).kind == DataNodeKind::Field && nodes@[k].id
                    == *id),
        decreases nodes@.len() - i,
    {
        if nodes[i].kind == DataNodeKind::Field && nodes[i].id.same(id) {
            assert(nodes@[i as int].kind == DataNodeKind::Field);
            return true;
        }
        i += 1;
    }
    false
}

/// Let fields take their values from the receivers that are written. An earlier
/// declaration of the same name does not stand for that expression.
pub fn field_receivers(
    tree: &SyntaxTree,
    positions: &[ReceiverPosition],
    nodes: &[DataNode],
    edges: &mut Vec<DataFlowEdge>,
)
    ensures
        final(edges)@ == with_receivers(*tree, positions@, nodes@, old(edges)@),
{
    let ghost all = edges@;
    let ghost keep = |e: DataFlowEdge| !loads_by_name(nodes@, e);
    let mut kept: Vec<DataFlowEdge> = Vec::new();
    let mut i: usize = 0;
    assert(all.take(0).filter(keep) =~= Seq::empty()) by {
        reveal(Seq::filter);
    }
    while i < edges.len()
        invariant
            i <= edges@.len(),
            edges@ == all,
            keep == (|e: DataFlowEdge| !loads_by_name(nodes@, e)),
            kept@ == all.take(i as int).filter(keep),
        decreases edges@.len() - i,
    {
        proof {
            crate::collections::lemma_filter_step(all, keep, i as int);
        }
        let edge = edges[i];
        if !(edge.kind == DataFlowKind::FieldLoad && find_field_id(nodes, &edge.target)) {
            kept.push(edge);
        }
        i += 1;
    }
    assert(all.take(i as int) =~= all);
    let ghost first = kept@;
    let mut j: usize = 0;
    assert(kept@ =~= first + receiver_edges(*tree, positions@, nodes@, 0));
    while j < nodes.len()
        invariant
            j <= nodes@.len(),
            kept@ == first + receiver_edges(*tree, positions@, nodes@, j as nat),
        decreases nodes@.len() - j,
    {
        let field = &nodes[j];
        if field.kind == DataNodeKind::Field {
            if let Some(id) = find_receiver_of(tree, positions, nodes, field) {
                kept.push(
                    DataFlowEdge::between(
                        id,
                        field.id,
                        DataFlowKind::FieldLoad,
                        field.range,
                        RECEIVER_CONFIDENCE,
                    ),
                );
            }
        }
        assert(kept@ =~= first + receiver_edges(*tree, positions@, nodes@, (j + 1) as nat));
        j += 1;
    }
    *edges = kept;
}

proof fn lemma_kept_by_filter<T>(items: Seq<T>, keep: spec_fn(T) -> bool, i: int)
    requires
        0 <= i < items.filter(keep).len(),
    ensures
        keep(items.filter(keep)[i]),
    decreases items.len(),
{
    reveal(Seq::filter);
    if items.len() > 0 {
        let before = items.drop_last().filter(keep);
        if i < before.len() {
            lemma_kept_by_filter(items.drop_last(), keep, i);
        }
    }
}

proof fn lemma_receiver_edges(
    tree: SyntaxTree,
    positions: Seq<ReceiverPosition>,
    nodes: Seq<DataNode>,
    count: nat,
    i: int,
)
    requires
        count <= nodes.len(),
        0 <= i < receiver_edges(tree, positions, nodes, count).len(),
    ensures
        exists|k: int|
            0 <= k < nodes.len() && (#[trigger] nodes[k]).id == receiver_edges(
                tree,
                positions,
                nodes,
                count,
            )[i].target && receiver_of(tree, positions, nodes, nodes[k]) == Some(
                receiver_edges(tree, positions, nodes, count)[i].source,
            ),
    decreases count,
{
    if count > 0 {
        let before = receiver_edges(tree, positions, nodes, (count - 1) as nat);
        if i < before.len() {
            lemma_receiver_edges(tree, positions, nodes, (count - 1) as nat, i);
        } else {
            assert(nodes[count - 1].id == receiver_edges(tree, positions, nodes, count)[i].target);
        }
    }
}

/// Every load of a field that is left comes from the receiver that is written.
pub proof fn fields_load_from_their_receivers(
    tree: SyntaxTree,
    positions: Seq<ReceiverPosition>,
    nodes: Seq<DataNode>,
    edges: Seq<DataFlowEdge>,
    i: int,
)
    requires
        0 <= i < with_receivers(tree, positions, nodes, edges).len(),
        loads_by_name(nodes, with_receivers(tree, positions, nodes, edges)[i]),
    ensures
        exists|k: int|
            0 <= k < nodes.len() && (#[trigger] nodes[k]).id == with_receivers(
                tree,
                positions,
                nodes,
                edges,
            )[i].target && receiver_of(tree, positions, nodes, nodes[k]) == Some(
                with_receivers(tree, positions, nodes, edges)[i].source,
            ),
{
    let keep = |e: DataFlowEdge| !loads_by_name(nodes, e);
    let kept = edges.filter(keep);
    if i < kept.len() {
        lemma_kept_by_filter(edges, keep, i);
    } else {
        lemma_receiver_edges(tree, positions, nodes, nodes.len(), i - kept.len());
    }
}

proof fn lemma_flow_captures_differ()
    ensures
        "df.call_result".spec_bytes() != "df.call_target".spec_bytes(),
        "df.call_result".spec_bytes() != "df.call_arg".spec_bytes(),
        "df.call_result".spec_bytes() != "df.parameter".spec_bytes(),
        "df.call_result".spec_bytes() != "df.assign_target".spec_bytes(),
        "df.call_result".spec_bytes() != "df.mutation_target".spec_bytes(),
        "df.call_result".spec_bytes() != "df.assign_value".spec_bytes(),
        "df.call_result".spec_bytes() != "df.mutation_value".spec_bytes(),
        "df.call_result".spec_bytes() != "df.return_value".spec_bytes(),
        "df.call_result".spec_bytes() != "df.field_name".spec_bytes(),
        "df.call_result".spec_bytes() != "df.receiver".spec_bytes(),
        "df.call_result".spec_bytes() != "df.literal".spec_bytes(),
        "df.call_result".spec_bytes() != "df.identifier_use".spec_bytes(),
        "df.call_result".spec_bytes() != "df.mutation_read".spec_bytes(),
        "df.call_result".spec_bytes() != "df.assign_field_target".spec_bytes(),
        "df.call_target".spec_bytes() != "df.call_arg".spec_bytes(),
        "df.call_target".spec_bytes() != "df.parameter".spec_bytes(),
        "df.call_target".spec_bytes() != "df.assign_target".spec_bytes(),
        "df.call_target".spec_bytes() != "df.mutation_target".spec_bytes(),
        "df.call_target".spec_bytes() != "df.assign_value".spec_bytes(),
        "df.call_target".spec_bytes() != "df.mutation_value".spec_bytes(),
        "df.call_target".spec_bytes() != "df.return_value".spec_bytes(),
        "df.call_target".spec_bytes() != "df.field_name".spec_bytes(),
        "df.call_target".spec_bytes() != "df.receiver".spec_bytes(),
        "df.call_target".spec_bytes() != "df.literal".spec_bytes(),
        "df.call_target".spec_bytes() != "df.identifier_use".spec_bytes(),
        "df.call_target".spec_bytes() != "df.mutation_read".spec_bytes(),
        "df.call_target".spec_bytes() != "df.assign_field_target".spec_bytes(),
        "df.call_arg".spec_bytes() != "df.parameter".spec_bytes(),
        "df.call_arg".spec_bytes() != "df.assign_target".spec_bytes(),
        "df.call_arg".spec_bytes() != "df.mutation_target".spec_bytes(),
        "df.call_arg".spec_bytes() != "df.assign_value".spec_bytes(),
        "df.call_arg".spec_bytes() != "df.mutation_value".spec_bytes(),
        "df.call_arg".spec_bytes() != "df.return_value".spec_bytes(),
        "df.call_arg".spec_bytes() != "df.field_name".spec_bytes(),
        "df.call_arg".spec_bytes() != "df.receiver".spec_bytes(),
        "df.call_arg".spec_bytes() != "df.literal".spec_bytes(),
        "df.call_arg".spec_bytes() != "df.identifier_use".spec_bytes(),
        "df.call_arg".spec_bytes() != "df.mutation_read".spec_bytes(),
        "df.call_arg".spec_bytes() != "df.assign_field_target".spec_bytes(),
        "df.parameter".spec_bytes() != "df.assign_target".spec_bytes(),
        "df.parameter".spec_bytes() != "df.mutation_target".spec_bytes(),
        "df.parameter".spec_bytes() != "df.assign_value".spec_bytes(),
        "df.parameter".spec_bytes() != "df.mutation_value".spec_bytes(),
        "df.parameter".spec_bytes() != "df.return_value".spec_bytes(),
        "df.parameter".spec_bytes() != "df.field_name".spec_bytes(),
        "df.parameter".spec_bytes() != "df.receiver".spec_bytes(),
        "df.parameter".spec_bytes() != "df.literal".spec_bytes(),
        "df.parameter".spec_bytes() != "df.identifier_use".spec_bytes(),
        "df.parameter".spec_bytes() != "df.mutation_read".spec_bytes(),
        "df.parameter".spec_bytes() != "df.assign_field_target".spec_bytes(),
        "df.assign_target".spec_bytes() != "df.mutation_target".spec_bytes(),
        "df.assign_target".spec_bytes() != "df.assign_value".spec_bytes(),
        "df.assign_target".spec_bytes() != "df.mutation_value".spec_bytes(),
        "df.assign_target".spec_bytes() != "df.return_value".spec_bytes(),
        "df.assign_target".spec_bytes() != "df.field_name".spec_bytes(),
        "df.assign_target".spec_bytes() != "df.receiver".spec_bytes(),
        "df.assign_target".spec_bytes() != "df.literal".spec_bytes(),
        "df.assign_target".spec_bytes() != "df.identifier_use".spec_bytes(),
        "df.assign_target".spec_bytes() != "df.mutation_read".spec_bytes(),
        "df.assign_target".spec_bytes() != "df.assign_field_target".spec_bytes(),
        "df.mutation_target".spec_bytes() != "df.assign_value".spec_bytes(),
        "df.mutation_target".spec_bytes() != "df.mutation_value".spec_bytes(),
        "df.mutation_target".spec_bytes() != "df.return_value".spec_bytes(),
        "df.mutation_target".spec_bytes() != "df.field_name".spec_bytes(),
        "df.mutation_target".spec_bytes() != "df.receiver".spec_bytes(),
        "df.mutation_target".spec_bytes() != "df.literal".spec_bytes(),
        "df.mutation_target".spec_bytes() != "df.identifier_use".spec_bytes(),
        "df.mutation_target".spec_bytes() != "df.mutation_read".spec_bytes(),
        "df.mutation_target".spec_bytes() != "df.assign_field_target".spec_bytes(),
        "df.assign_value".spec_bytes() != "df.mutation_value".spec_bytes(),
        "df.assign_value".spec_bytes() != "df.return_value".spec_bytes(),
        "df.assign_value".spec_bytes() != "df.field_name".spec_bytes(),
        "df.assign_value".spec_bytes() != "df.receiver".spec_bytes(),
        "df.assign_value".spec_bytes() != "df.literal".spec_bytes(),
        "df.assign_value".spec_bytes() != "df.identifier_use".spec_bytes(),
        "df.assign_value".spec_bytes() != "df.mutation_read".spec_bytes(),
        "df.assign_value".spec_bytes() != "df.assign_field_target".spec_bytes(),
        "df.mutation_value".spec_bytes() != "df.return_value".spec_bytes(),
        "df.mutation_value".spec_bytes() != "df.field_name".spec_bytes(),
        "df.mutation_value".spec_bytes() != "df.receiver".spec_bytes(),
        "df.mutation_value".spec_bytes() != "df.literal".spec_bytes(),
        "df.mutation_value".spec_bytes() != "df.identifier_use".spec_bytes(),
        "df.mutation_value".spec_bytes() != "df.mutation_read".spec_bytes(),
        "df.mutation_value".spec_bytes() != "df.assign_field_target".spec_bytes(),
        "df.return_value".spec_bytes() != "df.field_name".spec_bytes(),
        "df.return_value".spec_bytes() != "df.receiver".spec_bytes(),
        "df.return_value".spec_bytes() != "df.literal".spec_bytes(),
        "df.return_value".spec_bytes() != "df.identifier_use".spec_bytes(),
        "df.return_value".spec_bytes() != "df.mutation_read".spec_bytes(),
        "df.return_value".spec_bytes() != "df.assign_field_target".spec_bytes(),
        "df.field_name".spec_bytes() != "df.receiver".spec_bytes(),
        "df.field_name".spec_bytes() != "df.literal".spec_bytes(),
        "df.field_name".spec_bytes() != "df.identifier_use".spec_bytes(),
        "df.field_name".spec_bytes() != "df.mutation_read".spec_bytes(),
        "df.field_name".spec_bytes() != "df.assign_field_target".spec_bytes(),
        "df.receiver".spec_bytes() != "df.literal".spec_bytes(),
        "df.receiver".spec_bytes() != "df.identifier_use".spec_bytes(),
        "df.receiver".spec_bytes() != "df.mutation_read".spec_bytes(),
        "df.receiver".spec_bytes() != "df.assign_field_target".spec_bytes(),
        "df.literal".spec_bytes() != "df.identifier_use".spec_bytes(),
        "df.literal".spec_bytes() != "df.mutation_read".spec_bytes(),
        "df.literal".spec_bytes() != "df.assign_field_target".spec_bytes(),
        "df.identifier_use".spec_bytes() != "df.mutation_read".spec_bytes(),
        "df.identifier_use".spec_bytes() != "df.assign_field_target".spec_bytes(),
        "df.mutation_read".spec_bytes() != "df.assign_field_target".spec_bytes(),
{
    reveal_strlit("df.call_result");
    reveal_strlit("df.call_target");
    reveal_strlit("df.call_arg");
    reveal_strlit("df.parameter");
    reveal_strlit("df.assign_target");
    reveal_strlit("df.mutation_target");
    reveal_strlit("df.assign_value");
    reveal_strlit("df.mutation_value");
    reveal_strlit("df.return_value");
    reveal_strlit("df.field_name");
    reveal_strlit("df.receiver");
    reveal_strlit("df.literal");
    reveal_strlit("df.identifier_use");
    reveal_strlit("df.mutation_read");
    reveal_strlit("df.assign_field_target");
    assert("df.call_result".spec_bytes() != "df.call_target".spec_bytes()) by {
        assert("df.call_result"@[8] != "df.call_target"@[8]);
        if "df.call_result".spec_bytes() == "df.call_target".spec_bytes() {
            lemma_bytes_tell_text("df.call_result", "df.call_target");
        }
    }
    assert("df.call_result".spec_bytes() != "df.call_arg".spec_bytes()) by {
        assert("df.call_result"@.len() != "df.call_arg"@.len());
        if "df.call_result".spec_bytes() == "df.call_arg".spec_bytes() {
            lemma_bytes_tell_text("df.call_result", "df.call_arg");
        }
    }
    assert("df.call_result".spec_bytes() != "df.parameter".spec_bytes()) by {
        assert("df.call_result"@.len() != "df.parameter"@.len());
        if "df.call_result".spec_bytes() == "df.parameter".spec_bytes() {
            lemma_bytes_tell_text("df.call_result", "df.parameter");
        }
    }
    assert("df.call_result".spec_bytes() != "df.assign_target".spec_bytes()) by {
        assert("df.call_result"@.len() != "df.assign_target"@.len());
        if "df.call_result".spec_bytes() == "df.assign_target".spec_bytes() {
            lemma_bytes_tell_text("df.call_result", "df.assign_target");
        }
    }
    assert("df.call_result".spec_bytes() != "df.mutation_target".spec_bytes()) by {
        assert("df.call_result"@.len() != "df.mutation_target"@.len());
        if "df.call_result".spec_bytes() == "df.mutation_target".spec_bytes() {
            lemma_bytes_tell_text("df.call_result", "df.mutation_target");
        }
    }
    assert("df.call_result".spec_bytes() != "df.assign_value".spec_bytes()) by {
        assert("df.call_result"@.len() != "df.assign_value"@.len());
        if "df.call_result".spec_bytes() == "df.assign_value".spec_bytes() {
            lemma_bytes_tell_text("df.call_result", "df.assign_value");
        }
    }
    assert("df.call_result".spec_bytes() != "df.mutation_value".spec_bytes()) by {
        assert("df.call_result"@.len() != "df.mutation_value"@.len());
        if "df.call_result".spec_bytes() == "df.mutation_value".spec_bytes() {
            lemma_bytes_tell_text("df.call_result", "df.mutation_value");
        }
    }
    assert("df.call_result".spec_bytes() != "df.return_value".spec_bytes()) by {
        assert("df.call_result"@.len() != "df.return_value"@.len());
        if "df.call_result".spec_bytes() == "df.return_value".spec_bytes() {
            lemma_bytes_tell_text("df.call_result", "df.return_value");
        }
    }
    assert("df.call_result".spec_bytes() != "df.field_name".spec_bytes()) by {
        assert("df.call_result"@.len() != "df.field_name"@.len());
        if "df.call_result".spec_bytes() == "df.field_name".spec_bytes() {
            lemma_bytes_tell_text("df.call_result", "df.field_name");
        }
    }
    assert("df.call_result".spec_bytes() != "df.receiver".spec_bytes()) by {
        assert("df.call_result"@.len() != "df.receiver"@.len());
        if "df.call_result".spec_bytes() == "df.receiver".spec_bytes() {
            lemma_bytes_tell_text("df.call_result", "df.receiver");
        }
    }
    assert("df.call_result".spec_bytes() != "df.literal".spec_bytes()) by {
        assert("df.call_result"@.len() != "df.literal"@.len());
        if "df.call_result".spec_bytes() == "df.literal".spec_bytes() {
            lemma_bytes_tell_text("df.call_result", "df.literal");
        }
    }
    assert("df.call_result".spec_bytes() != "df.identifier_use".spec_bytes()) by {
        assert("df.call_result"@.len() != "df.identifier_use"@.len());
        if "df.call_result".spec_bytes() == "df.identifier_use".spec_bytes() {
            lemma_bytes_tell_text("df.call_result", "df.identifier_use");
        }
    }
    assert("df.call_result".spec_bytes() != "df.mutation_read".spec_bytes()) by {
        assert("df.call_result"@.len() != "df.mutation_read"@.len());
        if "df.call_result".spec_bytes() == "df.mutation_read".spec_bytes() {
            lemma_bytes_tell_text("df.call_result", "df.mutation_read");
        }
    }
    assert("df.call_result".spec_bytes() != "df.assign_field_target".spec_bytes()) by {
        assert("df.call_result"@.len() != "df.assign_field_target"@.len());
        if "df.call_result".spec_bytes() == "df.assign_field_target".spec_bytes() {
            lemma_bytes_tell_text("df.call_result", "df.assign_field_target");
        }
    }
    assert("df.call_target".spec_bytes() != "df.call_arg".spec_bytes()) by {
        assert("df.call_target"@.len() != "df.call_arg"@.len());
        if "df.call_target".spec_bytes() == "df.call_arg".spec_bytes() {
            lemma_bytes_tell_text("df.call_target", "df.call_arg");
        }
    }
    assert("df.call_target".spec_bytes() != "df.parameter".spec_bytes()) by {
        assert("df.call_target"@.len() != "df.parameter"@.len());
        if "df.call_target".spec_bytes() == "df.parameter".spec_bytes() {
            lemma_bytes_tell_text("df.call_target", "df.parameter");
        }
    }
    assert("df.call_target".spec_bytes() != "df.assign_target".spec_bytes()) by {
        assert("df.call_target"@.len() != "df.assign_target"@.len());
        if "df.call_target".spec_bytes() == "df.assign_target".spec_bytes() {
            lemma_bytes_tell_text("df.call_target", "df.assign_target");
        }
    }
    assert("df.call_target".spec_bytes() != "df.mutation_target".spec_bytes()) by {
        assert("df.call_target"@.len() != "df.mutation_target"@.len());
        if "df.call_target".spec_bytes() == "df.mutation_target".spec_bytes() {
            lemma_bytes_tell_text("df.call_target", "df.mutation_target");
        }
    }
    assert("df.call_target".spec_bytes() != "df.assign_value".spec_bytes()) by {
        assert("df.call_target"@.len() != "df.assign_value"@.len());
        if "df.call_target".spec_bytes() == "df.assign_value".spec_bytes() {
            lemma_bytes_tell_text("df.call_target", "df.assign_value");
        }
    }
    assert("df.call_target".spec_bytes() != "df.mutation_value".spec_bytes()) by {
        assert("df.call_target"@.len() != "df.mutation_value"@.len());
        if "df.call_target".spec_bytes() == "df.mutation_value".spec_bytes() {
            lemma_bytes_tell_text("df.call_target", "df.mutation_value");
        }
    }
    assert("df.call_target".spec_bytes() != "df.return_value".spec_bytes()) by {
        assert("df.call_target"@.len() != "df.return_value"@.len());
        if "df.call_target".spec_bytes() == "df.return_value".spec_bytes() {
            lemma_bytes_tell_text("df.call_target", "df.return_value");
        }
    }
    assert("df.call_target".spec_bytes() != "df.field_name".spec_bytes()) by {
        assert("df.call_target"@.len() != "df.field_name"@.len());
        if "df.call_target".spec_bytes() == "df.field_name".spec_bytes() {
            lemma_bytes_tell_text("df.call_target", "df.field_name");
        }
    }
    assert("df.call_target".spec_bytes() != "df.receiver".spec_bytes()) by {
        assert("df.call_target"@.len() != "df.receiver"@.len());
        if "df.call_target".spec_bytes() == "df.receiver".spec_bytes() {
            lemma_bytes_tell_text("df.call_target", "df.receiver");
        }
    }
    assert("df.call_target".spec_bytes() != "df.literal".spec_bytes()) by {
        assert("df.call_target"@.len() != "df.literal"@.len());
        if "df.call_target".spec_bytes() == "df.literal".spec_bytes() {
            lemma_bytes_tell_text("df.call_target", "df.literal");
        }
    }
    assert("df.call_target".spec_bytes() != "df.identifier_use".spec_bytes()) by {
        assert("df.call_target"@.len() != "df.identifier_use"@.len());
        if "df.call_target".spec_bytes() == "df.identifier_use".spec_bytes() {
            lemma_bytes_tell_text("df.call_target", "df.identifier_use");
        }
    }
    assert("df.call_target".spec_bytes() != "df.mutation_read".spec_bytes()) by {
        assert("df.call_target"@.len() != "df.mutation_read"@.len());
        if "df.call_target".spec_bytes() == "df.mutation_read".spec_bytes() {
            lemma_bytes_tell_text("df.call_target", "df.mutation_read");
        }
    }
    assert("df.call_target".spec_bytes() != "df.assign_field_target".spec_bytes()) by {
        assert("df.call_target"@.len() != "df.assign_field_target"@.len());
        if "df.call_target".spec_bytes() == "df.assign_field_target".spec_bytes() {
            lemma_bytes_tell_text("df.call_target", "df.assign_field_target");
        }
    }
    assert("df.call_arg".spec_bytes() != "df.parameter".spec_bytes()) by {
        assert("df.call_arg"@.len() != "df.parameter"@.len());
        if "df.call_arg".spec_bytes() == "df.parameter".spec_bytes() {
            lemma_bytes_tell_text("df.call_arg", "df.parameter");
        }
    }
    assert("df.call_arg".spec_bytes() != "df.assign_target".spec_bytes()) by {
        assert("df.call_arg"@.len() != "df.assign_target"@.len());
        if "df.call_arg".spec_bytes() == "df.assign_target".spec_bytes() {
            lemma_bytes_tell_text("df.call_arg", "df.assign_target");
        }
    }
    assert("df.call_arg".spec_bytes() != "df.mutation_target".spec_bytes()) by {
        assert("df.call_arg"@.len() != "df.mutation_target"@.len());
        if "df.call_arg".spec_bytes() == "df.mutation_target".spec_bytes() {
            lemma_bytes_tell_text("df.call_arg", "df.mutation_target");
        }
    }
    assert("df.call_arg".spec_bytes() != "df.assign_value".spec_bytes()) by {
        assert("df.call_arg"@.len() != "df.assign_value"@.len());
        if "df.call_arg".spec_bytes() == "df.assign_value".spec_bytes() {
            lemma_bytes_tell_text("df.call_arg", "df.assign_value");
        }
    }
    assert("df.call_arg".spec_bytes() != "df.mutation_value".spec_bytes()) by {
        assert("df.call_arg"@.len() != "df.mutation_value"@.len());
        if "df.call_arg".spec_bytes() == "df.mutation_value".spec_bytes() {
            lemma_bytes_tell_text("df.call_arg", "df.mutation_value");
        }
    }
    assert("df.call_arg".spec_bytes() != "df.return_value".spec_bytes()) by {
        assert("df.call_arg"@.len() != "df.return_value"@.len());
        if "df.call_arg".spec_bytes() == "df.return_value".spec_bytes() {
            lemma_bytes_tell_text("df.call_arg", "df.return_value");
        }
    }
    assert("df.call_arg".spec_bytes() != "df.field_name".spec_bytes()) by {
        assert("df.call_arg"@.len() != "df.field_name"@.len());
        if "df.call_arg".spec_bytes() == "df.field_name".spec_bytes() {
            lemma_bytes_tell_text("df.call_arg", "df.field_name");
        }
    }
    assert("df.call_arg".spec_bytes() != "df.receiver".spec_bytes()) by {
        assert("df.call_arg"@[3] != "df.receiver"@[3]);
        if "df.call_arg".spec_bytes() == "df.receiver".spec_bytes() {
            lemma_bytes_tell_text("df.call_arg", "df.receiver");
        }
    }
    assert("df.call_arg".spec_bytes() != "df.literal".spec_bytes()) by {
        assert("df.call_arg"@.len() != "df.literal"@.len());
        if "df.call_arg".spec_bytes() == "df.literal".spec_bytes() {
            lemma_bytes_tell_text("df.call_arg", "df.literal");
        }
    }
    assert("df.call_arg".spec_bytes() != "df.identifier_use".spec_bytes()) by {
        assert("df.call_arg"@.len() != "df.identifier_use"@.len());
        if "df.call_arg".spec_bytes() == "df.identifier_use".spec_bytes() {
            lemma_bytes_tell_text("df.call_arg", "df.identifier_use");
        }
    }
    assert("df.call_arg".spec_bytes() != "df.mutation_read".spec_bytes()) by {
        assert("df.call_arg"@.len() != "df.mutation_read"@.len());
        if "df.call_arg".spec_bytes() == "df.mutation_read".spec_bytes() {
            lemma_bytes_tell_text("df.call_arg", "df.mutation_read");
        }
    }
    assert("df.call_arg".spec_bytes() != "df.assign_field_target".spec_bytes()) by {
        assert("df.call_arg"@.len() != "df.assign_field_target"@.len());
        if "df.call_arg".spec_bytes() == "df.assign_field_target".spec_bytes() {
            lemma_bytes_tell_text("df.call_arg", "df.assign_field_target");
        }
    }
    assert("df.parameter".spec_bytes() != "df.assign_target".spec_bytes()) by {
        assert("df.parameter"@.len() != "df.assign_target"@.len());
        if "df.parameter".spec_bytes() == "df.assign_target".spec_bytes() {
            lemma_bytes_tell_text("df.parameter", "df.assign_target");
        }
    }
    assert("df.parameter".spec_bytes() != "df.mutation_target".spec_bytes()) by {
        assert("df.parameter"@.len() != "df.mutation_target"@.len());
        if "df.parameter".spec_bytes() == "df.mutation_target".spec_bytes() {
            lemma_bytes_tell_text("df.parameter", "df.mutation_target");
        }
    }
    assert("df.parameter".spec_bytes() != "df.assign_value".spec_bytes()) by {
        assert("df.parameter"@.len() != "df.assign_value"@.len());
        if "df.parameter".spec_bytes() == "df.assign_value".spec_bytes() {
            lemma_bytes_tell_text("df.parameter", "df.assign_value");
        }
    }
    assert("df.parameter".spec_bytes() != "df.mutation_value".spec_bytes()) by {
        assert("df.parameter"@.len() != "df.mutation_value"@.len());
        if "df.parameter".spec_bytes() == "df.mutation_value".spec_bytes() {
            lemma_bytes_tell_text("df.parameter", "df.mutation_value");
        }
    }
    assert("df.parameter".spec_bytes() != "df.return_value".spec_bytes()) by {
        assert("df.parameter"@.len() != "df.return_value"@.len());
        if "df.parameter".spec_bytes() == "df.return_value".spec_bytes() {
            lemma_bytes_tell_text("df.parameter", "df.return_value");
        }
    }
    assert("df.parameter".spec_bytes() != "df.field_name".spec_bytes()) by {
        assert("df.parameter"@.len() != "df.field_name"@.len());
        if "df.parameter".spec_bytes() == "df.field_name".spec_bytes() {
            lemma_bytes_tell_text("df.parameter", "df.field_name");
        }
    }
    assert("df.parameter".spec_bytes() != "df.receiver".spec_bytes()) by {
        assert("df.parameter"@.len() != "df.receiver"@.len());
        if "df.parameter".spec_bytes() == "df.receiver".spec_bytes() {
            lemma_bytes_tell_text("df.parameter", "df.receiver");
        }
    }
    assert("df.parameter".spec_bytes() != "df.literal".spec_bytes()) by {
        assert("df.parameter"@.len() != "df.literal"@.len());
        if "df.parameter".spec_bytes() == "df.literal".spec_bytes() {
            lemma_bytes_tell_text("df.parameter", "df.literal");
        }
    }
    assert("df.parameter".spec_bytes() != "df.identifier_use".spec_bytes()) by {
        assert("df.parameter"@.len() != "df.identifier_use"@.len());
        if "df.parameter".spec_bytes() == "df.identifier_use".spec_bytes() {
            lemma_bytes_tell_text("df.parameter", "df.identifier_use");
        }
    }
    assert("df.parameter".spec_bytes() != "df.mutation_read".spec_bytes()) by {
        assert("df.parameter"@.len() != "df.mutation_read"@.len());
        if "df.parameter".spec_bytes() == "df.mutation_read".spec_bytes() {
            lemma_bytes_tell_text("df.parameter", "df.mutation_read");
        }
    }
    assert("df.parameter".spec_bytes() != "df.assign_field_target".spec_bytes()) by {
        assert("df.parameter"@.len() != "df.assign_field_target"@.len());
        if "df.parameter".spec_bytes() == "df.assign_field_target".spec_bytes() {
            lemma_bytes_tell_text("df.parameter", "df.assign_field_target");
        }
    }
    assert("df.assign_target".spec_bytes() != "df.mutation_target".spec_bytes()) by {
        assert("df.assign_target"@.len() != "df.mutation_target"@.len());
        if "df.assign_target".spec_bytes() == "df.mutation_target".spec_bytes() {
            lemma_bytes_tell_text("df.assign_target", "df.mutation_target");
        }
    }
    assert("df.assign_target".spec_bytes() != "df.assign_value".spec_bytes()) by {
        assert("df.assign_target"@.len() != "df.assign_value"@.len());
        if "df.assign_target".spec_bytes() == "df.assign_value".spec_bytes() {
            lemma_bytes_tell_text("df.assign_target", "df.assign_value");
        }
    }
    assert("df.assign_target".spec_bytes() != "df.mutation_value".spec_bytes()) by {
        assert("df.assign_target"@.len() != "df.mutation_value"@.len());
        if "df.assign_target".spec_bytes() == "df.mutation_value".spec_bytes() {
            lemma_bytes_tell_text("df.assign_target", "df.mutation_value");
        }
    }
    assert("df.assign_target".spec_bytes() != "df.return_value".spec_bytes()) by {
        assert("df.assign_target"@.len() != "df.return_value"@.len());
        if "df.assign_target".spec_bytes() == "df.return_value".spec_bytes() {
            lemma_bytes_tell_text("df.assign_target", "df.return_value");
        }
    }
    assert("df.assign_target".spec_bytes() != "df.field_name".spec_bytes()) by {
        assert("df.assign_target"@.len() != "df.field_name"@.len());
        if "df.assign_target".spec_bytes() == "df.field_name".spec_bytes() {
            lemma_bytes_tell_text("df.assign_target", "df.field_name");
        }
    }
    assert("df.assign_target".spec_bytes() != "df.receiver".spec_bytes()) by {
        assert("df.assign_target"@.len() != "df.receiver"@.len());
        if "df.assign_target".spec_bytes() == "df.receiver".spec_bytes() {
            lemma_bytes_tell_text("df.assign_target", "df.receiver");
        }
    }
    assert("df.assign_target".spec_bytes() != "df.literal".spec_bytes()) by {
        assert("df.assign_target"@.len() != "df.literal"@.len());
        if "df.assign_target".spec_bytes() == "df.literal".spec_bytes() {
            lemma_bytes_tell_text("df.assign_target", "df.literal");
        }
    }
    assert("df.assign_target".spec_bytes() != "df.identifier_use".spec_bytes()) by {
        assert("df.assign_target"@.len() != "df.identifier_use"@.len());
        if "df.assign_target".spec_bytes() == "df.identifier_use".spec_bytes() {
            lemma_bytes_tell_text("df.assign_target", "df.identifier_use");
        }
    }
    assert("df.assign_target".spec_bytes() != "df.mutation_read".spec_bytes()) by {
        assert("df.assign_target"@[3] != "df.mutation_read"@[3]);
        if "df.assign_target".spec_bytes() == "df.mutation_read".spec_bytes() {
            lemma_bytes_tell_text("df.assign_target", "df.mutation_read");
        }
    }
    assert("df.assign_target".spec_bytes() != "df.assign_field_target".spec_bytes()) by {
        assert("df.assign_target"@.len() != "df.assign_field_target"@.len());
        if "df.assign_target".spec_bytes() == "df.assign_field_target".spec_bytes() {
            lemma_bytes_tell_text("df.assign_target", "df.assign_field_target");
        }
    }
    assert("df.mutation_target".spec_bytes() != "df.assign_value".spec_bytes()) by {
        assert("df.mutation_target"@.len() != "df.assign_value"@.len());
        if "df.mutation_target".spec_bytes() == "df.assign_value".spec_bytes() {
            lemma_bytes_tell_text("df.mutation_target", "df.assign_value");
        }
    }
    assert("df.mutation_target".spec_bytes() != "df.mutation_value".spec_bytes()) by {
        assert("df.mutation_target"@.len() != "df.mutation_value"@.len());
        if "df.mutation_target".spec_bytes() == "df.mutation_value".spec_bytes() {
            lemma_bytes_tell_text("df.mutation_target", "df.mutation_value");
        }
    }
    assert("df.mutation_target".spec_bytes() != "df.return_value".spec_bytes()) by {
        assert("df.mutation_target"@.len() != "df.return_value"@.len());
        if "df.mutation_target".spec_bytes() == "df.return_value".spec_bytes() {
            lemma_bytes_tell_text("df.mutation_target", "df.return_value");
        }
    }
    assert("df.mutation_target".spec_bytes() != "df.field_name".spec_bytes()) by {
        assert("df.mutation_target"@.len() != "df.field_name"@.len());
        if "df.mutation_target".spec_bytes() == "df.field_name".spec_bytes() {
            lemma_bytes_tell_text("df.mutation_target", "df.field_name");
        }
    }
    assert("df.mutation_target".spec_bytes() != "df.receiver".spec_bytes()) by {
        assert("df.mutation_target"@.len() != "df.receiver"@.len());
        if "df.mutation_target".spec_bytes() == "df.receiver".spec_bytes() {
            lemma_bytes_tell_text("df.mutation_target", "df.receiver");
        }
    }
    assert("df.mutation_target".spec_bytes() != "df.literal".spec_bytes()) by {
        assert("df.mutation_target"@.len() != "df.literal"@.len());
        if "df.mutation_target".spec_bytes() == "df.literal".spec_bytes() {
            lemma_bytes_tell_text("df.mutation_target", "df.literal");
        }
    }
    assert("df.mutation_target".spec_bytes() != "df.identifier_use".spec_bytes()) by {
        assert("df.mutation_target"@.len() != "df.identifier_use"@.len());
        if "df.mutation_target".spec_bytes() == "df.identifier_use".spec_bytes() {
            lemma_bytes_tell_text("df.mutation_target", "df.identifier_use");
        }
    }
    assert("df.mutation_target".spec_bytes() != "df.mutation_read".spec_bytes()) by {
        assert("df.mutation_target"@.len() != "df.mutation_read"@.len());
        if "df.mutation_target".spec_bytes() == "df.mutation_read".spec_bytes() {
            lemma_bytes_tell_text("df.mutation_target", "df.mutation_read");
        }
    }
    assert("df.mutation_target".spec_bytes() != "df.assign_field_target".spec_bytes()) by {
        assert("df.mutation_target"@.len() != "df.assign_field_target"@.len());
        if "df.mutation_target".spec_bytes() == "df.assign_field_target".spec_bytes() {
            lemma_bytes_tell_text("df.mutation_target", "df.assign_field_target");
        }
    }
    assert("df.assign_value".spec_bytes() != "df.mutation_value".spec_bytes()) by {
        assert("df.assign_value"@.len() != "df.mutation_value"@.len());
        if "df.assign_value".spec_bytes() == "df.mutation_value".spec_bytes() {
            lemma_bytes_tell_text("df.assign_value", "df.mutation_value");
        }
    }
    assert("df.assign_value".spec_bytes() != "df.return_value".spec_bytes()) by {
        assert("df.assign_value"@[3] != "df.return_value"@[3]);
        if "df.assign_value".spec_bytes() == "df.return_value".spec_bytes() {
            lemma_bytes_tell_text("df.assign_value", "df.return_value");
        }
    }
    assert("df.assign_value".spec_bytes() != "df.field_name".spec_bytes()) by {
        assert("df.assign_value"@.len() != "df.field_name"@.len());
        if "df.assign_value".spec_bytes() == "df.field_name".spec_bytes() {
            lemma_bytes_tell_text("df.assign_value", "df.field_name");
        }
    }
    assert("df.assign_value".spec_bytes() != "df.receiver".spec_bytes()) by {
        assert("df.assign_value"@.len() != "df.receiver"@.len());
        if "df.assign_value".spec_bytes() == "df.receiver".spec_bytes() {
            lemma_bytes_tell_text("df.assign_value", "df.receiver");
        }
    }
    assert("df.assign_value".spec_bytes() != "df.literal".spec_bytes()) by {
        assert("df.assign_value"@.len() != "df.literal"@.len());
        if "df.assign_value".spec_bytes() == "df.literal".spec_bytes() {
            lemma_bytes_tell_text("df.assign_value", "df.literal");
        }
    }
    assert("df.assign_value".spec_bytes() != "df.identifier_use".spec_bytes()) by {
        assert("df.assign_value"@.len() != "df.identifier_use"@.len());
        if "df.assign_value".spec_bytes() == "df.identifier_use".spec_bytes() {
            lemma_bytes_tell_text("df.assign_value", "df.identifier_use");
        }
    }
    assert("df.assign_value".spec_bytes() != "df.mutation_read".spec_bytes()) by {
        assert("df.assign_value"@.len() != "df.mutation_read"@.len());
        if "df.assign_value".spec_bytes() == "df.mutation_read".spec_bytes() {
            lemma_bytes_tell_text("df.assign_value", "df.mutation_read");
        }
    }
    assert("df.assign_value".spec_bytes() != "df.assign_field_target".spec_bytes()) by {
        assert("df.assign_value"@.len() != "df.assign_field_target"@.len());
        if "df.assign_value".spec_bytes() == "df.assign_field_target".spec_bytes() {
            lemma_bytes_tell_text("df.assign_value", "df.assign_field_target");
        }
    }
    assert("df.mutation_value".spec_bytes() != "df.return_value".spec_bytes()) by {
        assert("df.mutation_value"@.len() != "df.return_value"@.len());
        if "df.mutation_value".spec_bytes() == "df.return_value".spec_bytes() {
            lemma_bytes_tell_text("df.mutation_value", "df.return_value");
        }
    }
    assert("df.mutation_value".spec_bytes() != "df.field_name".spec_bytes()) by {
        assert("df.mutation_value"@.len() != "df.field_name"@.len());
        if "df.mutation_value".spec_bytes() == "df.field_name".spec_bytes() {
            lemma_bytes_tell_text("df.mutation_value", "df.field_name");
        }
    }
    assert("df.mutation_value".spec_bytes() != "df.receiver".spec_bytes()) by {
        assert("df.mutation_value"@.len() != "df.receiver"@.len());
        if "df.mutation_value".spec_bytes() == "df.receiver".spec_bytes() {
            lemma_bytes_tell_text("df.mutation_value", "df.receiver");
        }
    }
    assert("df.mutation_value".spec_bytes() != "df.literal".spec_bytes()) by {
        assert("df.mutation_value"@.len() != "df.literal"@.len());
        if "df.mutation_value".spec_bytes() == "df.literal".spec_bytes() {
            lemma_bytes_tell_text("df.mutation_value", "df.literal");
        }
    }
    assert("df.mutation_value".spec_bytes() != "df.identifier_use".spec_bytes()) by {
        assert("df.mutation_value"@[3] != "df.identifier_use"@[3]);
        if "df.mutation_value".spec_bytes() == "df.identifier_use".spec_bytes() {
            lemma_bytes_tell_text("df.mutation_value", "df.identifier_use");
        }
    }
    assert("df.mutation_value".spec_bytes() != "df.mutation_read".spec_bytes()) by {
        assert("df.mutation_value"@.len() != "df.mutation_read"@.len());
        if "df.mutation_value".spec_bytes() == "df.mutation_read".spec_bytes() {
            lemma_bytes_tell_text("df.mutation_value", "df.mutation_read");
        }
    }
    assert("df.mutation_value".spec_bytes() != "df.assign_field_target".spec_bytes()) by {
        assert("df.mutation_value"@.len() != "df.assign_field_target"@.len());
        if "df.mutation_value".spec_bytes() == "df.assign_field_target".spec_bytes() {
            lemma_bytes_tell_text("df.mutation_value", "df.assign_field_target");
        }
    }
    assert("df.return_value".spec_bytes() != "df.field_name".spec_bytes()) by {
        assert("df.return_value"@.len() != "df.field_name"@.len());
        if "df.return_value".spec_bytes() == "df.field_name".spec_bytes() {
            lemma_bytes_tell_text("df.return_value", "df.field_name");
        }
    }
    assert("df.return_value".spec_bytes() != "df.receiver".spec_bytes()) by {
        assert("df.return_value"@.len() != "df.receiver"@.len());
        if "df.return_value".spec_bytes() == "df.receiver".spec_bytes() {
            lemma_bytes_tell_text("df.return_value", "df.receiver");
        }
    }
    assert("df.return_value".spec_bytes() != "df.literal".spec_bytes()) by {
        assert("df.return_value"@.len() != "df.literal"@.len());
        if "df.return_value".spec_bytes() == "df.literal".spec_bytes() {
            lemma_bytes_tell_text("df.return_value", "df.literal");
        }
    }
    assert("df.return_value".spec_bytes() != "df.identifier_use".spec_bytes()) by {
        assert("df.return_value"@.len() != "df.identifier_use"@.len());
        if "df.return_value".spec_bytes() == "df.identifier_use".spec_bytes() {
            lemma_bytes_tell_text("df.return_value", "df.identifier_use");
        }
    }
    assert("df.return_value".spec_bytes() != "df.mutation_read".spec_bytes()) by {
        assert("df.return_value"@.len() != "df.mutation_read"@.len());
        if "df.return_value".spec_bytes() == "df.mutation_read".spec_bytes() {
            lemma_bytes_tell_text("df.return_value", "df.mutation_read");
        }
    }
    assert("df.return_value".spec_bytes() != "df.assign_field_target".spec_bytes()) by {
        assert("df.return_value"@.len() != "df.assign_field_target"@.len());
        if "df.return_value".spec_bytes() == "df.assign_field_target".spec_bytes() {
            lemma_bytes_tell_text("df.return_value", "df.assign_field_target");
        }
    }
    assert("df.field_name".spec_bytes() != "df.receiver".spec_bytes()) by {
        assert("df.field_name"@.len() != "df.receiver"@.len());
        if "df.field_name".spec_bytes() == "df.receiver".spec_bytes() {
            lemma_bytes_tell_text("df.field_name", "df.receiver");
        }
    }
    assert("df.field_name".spec_bytes() != "df.literal".spec_bytes()) by {
        assert("df.field_name"@.len() != "df.literal"@.len());
        if "df.field_name".spec_bytes() == "df.literal".spec_bytes() {
            lemma_bytes_tell_text("df.field_name", "df.literal");
        }
    }
    assert("df.field_name".spec_bytes() != "df.identifier_use".spec_bytes()) by {
        assert("df.field_name"@.len() != "df.identifier_use"@.len());
        if "df.field_name".spec_bytes() == "df.identifier_use".spec_bytes() {
            lemma_bytes_tell_text("df.field_name", "df.identifier_use");
        }
    }
    assert("df.field_name".spec_bytes() != "df.mutation_read".spec_bytes()) by {
        assert("df.field_name"@.len() != "df.mutation_read"@.len());
        if "df.field_name".spec_bytes() == "df.mutation_read".spec_bytes() {
            lemma_bytes_tell_text("df.field_name", "df.mutation_read");
        }
    }
    assert("df.field_name".spec_bytes() != "df.assign_field_target".spec_bytes()) by {
        assert("df.field_name"@.len() != "df.assign_field_target"@.len());
        if "df.field_name".spec_bytes() == "df.assign_field_target".spec_bytes() {
            lemma_bytes_tell_text("df.field_name", "df.assign_field_target");
        }
    }
    assert("df.receiver".spec_bytes() != "df.literal".spec_bytes()) by {
        assert("df.receiver"@.len() != "df.literal"@.len());
        if "df.receiver".spec_bytes() == "df.literal".spec_bytes() {
            lemma_bytes_tell_text("df.receiver", "df.literal");
        }
    }
    assert("df.receiver".spec_bytes() != "df.identifier_use".spec_bytes()) by {
        assert("df.receiver"@.len() != "df.identifier_use"@.len());
        if "df.receiver".spec_bytes() == "df.identifier_use".spec_bytes() {
            lemma_bytes_tell_text("df.receiver", "df.identifier_use");
        }
    }
    assert("df.receiver".spec_bytes() != "df.mutation_read".spec_bytes()) by {
        assert("df.receiver"@.len() != "df.mutation_read"@.len());
        if "df.receiver".spec_bytes() == "df.mutation_read".spec_bytes() {
            lemma_bytes_tell_text("df.receiver", "df.mutation_read");
        }
    }
    assert("df.receiver".spec_bytes() != "df.assign_field_target".spec_bytes()) by {
        assert("df.receiver"@.len() != "df.assign_field_target"@.len());
        if "df.receiver".spec_bytes() == "df.assign_field_target".spec_bytes() {
            lemma_bytes_tell_text("df.receiver", "df.assign_field_target");
        }
    }
    assert("df.literal".spec_bytes() != "df.identifier_use".spec_bytes()) by {
        assert("df.literal"@.len() != "df.identifier_use"@.len());
        if "df.literal".spec_bytes() == "df.identifier_use".spec_bytes() {
            lemma_bytes_tell_text("df.literal", "df.identifier_use");
        }
    }
    assert("df.literal".spec_bytes() != "df.mutation_read".spec_bytes()) by {
        assert("df.literal"@.len() != "df.mutation_read"@.len());
        if "df.literal".spec_bytes() == "df.mutation_read".spec_bytes() {
            lemma_bytes_tell_text("df.literal", "df.mutation_read");
        }
    }
    assert("df.literal".spec_bytes() != "df.assign_field_target".spec_bytes()) by {
        assert("df.literal"@.len() != "df.assign_field_target"@.len());
        if "df.literal".spec_bytes() == "df.assign_field_target".spec_bytes() {
            lemma_bytes_tell_text("df.literal", "df.assign_field_target");
        }
    }
    assert("df.identifier_use".spec_bytes() != "df.mutation_read".spec_bytes()) by {
        assert("df.identifier_use"@.len() != "df.mutation_read"@.len());
        if "df.identifier_use".spec_bytes() == "df.mutation_read".spec_bytes() {
            lemma_bytes_tell_text("df.identifier_use", "df.mutation_read");
        }
    }
    assert("df.identifier_use".spec_bytes() != "df.assign_field_target".spec_bytes()) by {
        assert("df.identifier_use"@.len() != "df.assign_field_target"@.len());
        if "df.identifier_use".spec_bytes() == "df.assign_field_target".spec_bytes() {
            lemma_bytes_tell_text("df.identifier_use", "df.assign_field_target");
        }
    }
    assert("df.mutation_read".spec_bytes() != "df.assign_field_target".spec_bytes()) by {
        assert("df.mutation_read"@.len() != "df.assign_field_target"@.len());
        if "df.mutation_read".spec_bytes() == "df.assign_field_target".spec_bytes() {
            lemma_bytes_tell_text("df.mutation_read", "df.assign_field_target");
        }
    }
}

/// Values, targets, receivers and literals are taken as they are captured: what is assigned
/// or returned, what a member is taken of, a literal, and a field that is written.
pub proof fn a_captured_value_is_taken_as_it_is(
    tree: SyntaxTree,
    file: FileId,
    capture: &str,
    n: usize,
    declares: bool,
)
    ensures
        ({
            let flow = flow_at(tree, file, capture.spec_bytes(), n, declares);
            &&& capture@ == "df.assign_value"@ ==> flow == FlowView::AssignValue
            &&& capture@ == "df.mutation_value"@ ==> flow == FlowView::AssignValue
            &&& capture@ == "df.mutation_target"@ ==> flow == FlowView::AssignTarget
            &&& capture@ == "df.return_value"@ ==> flow == FlowView::ReturnValue
            &&& capture@ == "df.receiver"@ ==> flow == FlowView::Receiver
            &&& capture@ == "df.literal"@ ==> flow == FlowView::Literal
            &&& capture@ == "df.assign_field_target"@ && tree.text_of(n) is Some ==> flow
                == FlowView::FieldTarget(tree.text_of(n)->0)
        }),
{
    lemma_flow_captures_differ();
}

/// A target of an assignment is one unless it is a parameter.
pub proof fn a_captured_target_is_assigned(
    tree: SyntaxTree,
    file: FileId,
    n: usize,
    declares: bool,
)
    ensures
        ({
            let flow = flow_at(tree, file, "df.assign_target".spec_bytes(), n, declares);
            if bound_as(tree, n) == Some(BindingKind::Parameter) {
                flow == FlowView::Nothing
            } else {
                flow == FlowView::AssignTarget
            }
        }),
{
    lemma_flow_captures_differ();
}

/// A name that is used has a node of its own: where it declares nothing and its text can be
/// read, a use of a variable with that name stands at the range of the name. What is read
/// before it is changed is a use in any case.
pub proof fn a_captured_use_has_a_node(
    tree: SyntaxTree,
    file: FileId,
    capture: &str,
    n: usize,
    declares: bool,
    name: Seq<u8>,
)
    requires
        capture@ == "df.mutation_read"@ || (capture@ == "df.identifier_use"@ && !declares
            && parameter_slot(tree, n) is None),
        tree.text_of(n) == Some(name),
        name.len() > 0,
    ensures
        flow_at(tree, file, capture.spec_bytes(), n, declares) matches FlowView::Node(node)
            && node.kind == DataNodeKind::VariableUse && node.name == Some(name)
            && node.access_path == Some(name) && node.range == tree.range_of(n) && node.file_id
            == file,
{
    lemma_flow_captures_differ();
}

/// A field that is accessed has a node of its own, named by the field, with the whole access
/// as its path.
pub proof fn a_captured_field_has_a_node(
    tree: SyntaxTree,
    file: FileId,
    n: usize,
    declares: bool,
    access: usize,
    name: Seq<u8>,
    path: Seq<u8>,
)
    requires
        tree.text_of(n) == Some(name),
        tree.parent_of(n) == Some(access),
        tree.kind_of(access) == Kind::FieldExpression,
        tree.text_of(access) == Some(path),
    ensures
        flow_at(tree, file, "df.field_name".spec_bytes(), n, declares) matches FlowView::Node(node)
            && node.kind == DataNodeKind::Field && node.name == Some(name) && node.access_path
            == Some(path) && node.range == tree.range_of(n) && node.file_id == file,
{
    lemma_flow_captures_differ();
}

/// A function that is called has a node of its own, named as it is written, with the identity
/// of the call.
pub proof fn a_captured_callee_has_a_node(
    tree: SyntaxTree,
    file: FileId,
    n: usize,
    declares: bool,
    call: usize,
    name: Seq<u8>,
)
    requires
        tree.text_of(n) == Some(name),
        tree.parent_of(n) == Some(call),
        tree.kind_of(call) == Kind::CallExpression,
        tree.child_in_role(call, Field::Function) == Some(n),
        !is_attribute_entry(tree, call),
        !crosses_statement(tree, call),
    ensures
        flow_at(tree, file, "df.call_target".spec_bytes(), n, declares) matches FlowView::Node(node)
            && node.kind == DataNodeKind::CallTarget && node.name == Some(name) && node.range
            == tree.range_of(n) && node.callsite_id == Some(
            CallsiteId::generated(
                file,
                tree.range_of(call).start_byte,
                tree.range_of(call).end_byte,
            ),
        ),
{
    lemma_flow_captures_differ();
}

/// A declarator that stands directly in a declaration binds a local, one that stands
/// directly in the declaration of a parameter binds a parameter, with the name that is
/// written.
pub proof fn a_declarator_binds_its_name(
    tree: SyntaxTree,
    n: usize,
    parent: usize,
    name: Seq<u8>,
)
    requires
        tree.parent_of(n) == Some(parent),
        tree.text_of(n) == Some(name),
    ensures
        ({
            let found = binding_at(tree, "lexical.declarator".spec_bytes(), n);
            let kind = tree.kind_of(parent);
            &&& kind == Kind::Declaration ==> found == Some(
                WrittenBindingView { kind: BindingKind::Local, name, range: tree.range_of(n) },
            )
            &&& kind == Kind::ParameterDeclaration || kind == Kind::OptionalParameterDeclaration
                ==> found == Some(
                WrittenBindingView { kind: BindingKind::Parameter, name, range: tree.range_of(n) },
            )
        }),
{
}

/// Pointers, references, arrays, parentheses and initial values around a declarator do not
/// change what it binds.
pub proof fn declarators_bind_through_others(tree: SyntaxTree, n: usize, parent: usize)
    requires
        tree.parent_of(n) == Some(parent),
        tree.kind_of(parent) == Kind::PointerDeclarator || tree.kind_of(parent)
            == Kind::ReferenceDeclarator || tree.kind_of(parent) == Kind::ArrayDeclarator
            || tree.kind_of(parent) == Kind::ParenthesizedDeclarator || tree.kind_of(parent)
            == Kind::InitDeclarator || tree.kind_of(parent) == Kind::StructuredBindingDeclarator,
        tree.child_in_role(parent, Field::Declarator) is None || tree.child_in_role(
            parent,
            Field::Declarator,
        ) == Some(n),
    ensures
        bound_as(tree, n) == bound_as(tree, parent),
{
}

/// An argument of a call is one, unless the list is that of an attribute or the call is none.
pub proof fn a_captured_argument_is_one(
    tree: SyntaxTree,
    file: FileId,
    n: usize,
    declares: bool,
    list: usize,
    call: usize,
)
    requires
        tree.parent_of(n) == Some(list),
        tree.parent_of(list) == Some(call),
        tree.kind_of(call) != Kind::AttributeSpecifier,
        tree.kind_of(call) != Kind::Attribute,
        match argument_call(tree, n) {
            None => true,
            Some(found) => !is_attribute_entry(tree, found) && !crosses_statement(tree, found),
        },
    ensures
        flow_at(tree, file, "df.call_arg".spec_bytes(), n, declares) == FlowView::CallArgument,
{
    lemma_flow_captures_differ();
}

/// A call gives a result, unless it is a conversion or no call in truth.
pub proof fn a_captured_call_gives_a_result(
    tree: SyntaxTree,
    file: FileId,
    n: usize,
    declares: bool,
)
    requires
        !is_conversion_result(tree, n),
        !is_attribute_entry(tree, n),
        !crosses_statement(tree, n),
    ensures
        flow_at(tree, file, "df.call_result".spec_bytes(), n, declares) == FlowView::CallResult,
{
    lemma_flow_captures_differ();
}

/// Whether nodes are the declarations of parameters, none of which is the object itself.
pub open spec fn are_plain_parameters(tree: SyntaxTree, nodes: Seq<usize>) -> bool {
    forall|i: int|
        0 <= i < nodes.len() ==> (tree.kind_of(#[trigger] nodes[i]) == Kind::ParameterDeclaration
            || tree.kind_of(nodes[i]) == Kind::OptionalParameterDeclaration) && !tree.has_one_of(
            tree.children_of(nodes[i]),
            seq![Kind::This],
        )
}

/// The place of a parameter among the arguments is its place in the list.
pub proof fn a_parameter_has_its_place(
    tree: SyntaxTree,
    nodes: Seq<usize>,
    index: nat,
    k: int,
)
    requires
        are_plain_parameters(tree, nodes),
        nodes.no_duplicates(),
        0 <= k < nodes.len(),
        index + k <= u32::MAX,
    ensures
        slot_among(tree, nodes, nodes[k], index) == Some(Some((index + k) as u32)),
    decreases nodes.len(),
{
    if k > 0 {
        let rest = nodes.drop_first();
        assert(are_plain_parameters(tree, rest)) by {
            assert forall|i: int| 0 <= i < rest.len() implies (tree.kind_of(#[trigger] rest[i])
                == Kind::ParameterDeclaration || tree.kind_of(rest[i])
                == Kind::OptionalParameterDeclaration) && !tree.has_one_of(
                tree.children_of(rest[i]),
                seq![Kind::This],
            ) by {
                assert(rest[i] == nodes[i + 1]);
            }
        }
        assert(nodes[0] != nodes[k]);
        assert(rest[k - 1] == nodes[k]);
        a_parameter_has_its_place(tree, rest, index + 1, k - 1);
    }
}

} // verus!
