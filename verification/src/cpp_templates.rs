//! Function templates as they are written. There is no lookup, substitution or
//! selection of overloads here.

use crate::cpp_facts::{
    lemma_push_text, lemma_push_view, optional_list, text_views, views, CppDeclaredType,
    CppTemplateCall, DeclaredTypeView, TemplateCallView,
};
use crate::cpp_names::{find_separator, has_separator};
use crate::cpp_tokens::{find_last_separator, is_token, last_separator, token_is, LESS};
use crate::cpp_types::{join_scope, scoped, template_argument_type, template_type_argument};
use crate::facts::{ReferenceUse, TextRange};
use crate::ids::ReferenceId;
use crate::syntax::{Field, Kind, SyntaxTree};
use crate::text::{append_bytes, copy_bytes, same_bytes, Text};
use vstd::prelude::*;
use vstd::string::StringSliceAdditionalSpecFns;

verus! {

broadcast use {SyntaxTree::parent_comes_first, SyntaxTree::children_come_later};

/// The kinds of declarations that can be callables.
pub open spec fn callable_kinds() -> Seq<Kind> {
    seq![Kind::FunctionDefinition, Kind::Declaration, Kind::FieldDeclaration]
}

/// The declarator behind pointers and references.
pub open spec fn behind_pointers(tree: SyntaxTree, n: usize) -> Option<usize>
    decreases tree.count() - n,
    via behind_pointers_decreases
{
    if tree.kind_of(n) == Kind::PointerDeclarator || tree.kind_of(n) == Kind::ReferenceDeclarator {
        match inner_of(tree, n) {
            None => None,
            Some(inner) => behind_pointers(tree, inner),
        }
    } else {
        Some(n)
    }
}

/// The declarator inside a pointer or reference; that of a reference may have no role.
pub open spec fn inner_of(tree: SyntaxTree, n: usize) -> Option<usize> {
    match tree.child_in_role(n, Field::Declarator) {
        Some(inner) => Some(inner),
        None => tree.sole_part_of(n),
    }
}

proof fn lemma_inner_of(tree: SyntaxTree, n: usize)
    ensures
        inner_of(tree, n) is Some ==> n < inner_of(tree, n)->0 < tree.count(),
{
    tree.child_in_role_is_child(n, Field::Declarator);
    if tree.parts_of(n).len() > 0 {
        tree.parts_are_children(n, 0);
    }
}

#[via_fn]
proof fn behind_pointers_decreases(tree: SyntaxTree, n: usize) {
    lemma_inner_of(tree, n);
}

/// The declarator behind pointers and references.
pub fn find_behind_pointers(tree: &SyntaxTree, from: usize) -> (r: Option<usize>)
    ensures
        r == behind_pointers(*tree, from),
{
    let mut n: usize = from;
    while matches!(tree.kind(n), Kind::PointerDeclarator | Kind::ReferenceDeclarator)
        invariant
            behind_pointers(*tree, from) == behind_pointers(*tree, n),
        decreases tree.count() - n,
    {
        proof {
            lemma_inner_of(*tree, n);
        }
        let inner = match tree.child_by_field(n, Field::Declarator) {
            Some(inner) => Some(inner),
            None => tree.sole_part(n),
        };
        match inner {
            None => {
                return None;
            },
            Some(inner) => {
                n = inner;
            },
        }
    }
    Some(n)
}

/// The name of a function as it is written, without template arguments.
pub open spec fn function_written(tree: SyntaxTree, n: usize) -> Option<Seq<u8>>
    decreases tree.count() - n,
    via function_written_decreases
{
    match tree.kind_of(n) {
        Kind::Identifier
        | Kind::FieldIdentifier
        | Kind::NamespaceIdentifier
        | Kind::TypeIdentifier => tree.text_of(n),
        Kind::TemplateFunction | Kind::TemplateMethod => match tree.child_in_role(n, Field::Name) {
            None => None,
            Some(name) => function_written(tree, name),
        },
        Kind::QualifiedIdentifier => match tree.child_in_role(n, Field::Name) {
            None => None,
            Some(last) => {
                let prefix = match tree.child_in_role(n, Field::Scope) {
                    None => Some(Seq::empty()),
                    Some(scope) => function_written(tree, scope),
                };
                match (prefix, function_written(tree, last)) {
                    (Some(prefix), Some(name)) => Some(scoped(prefix, name)),
                    _ => None,
                }
            },
        },
        _ => None,
    }
}

#[via_fn]
proof fn function_written_decreases(tree: SyntaxTree, n: usize) {
    tree.child_in_role_is_child(n, Field::Name);
    tree.child_in_role_is_child(n, Field::Scope);
}

fn find_function_written(tree: &SyntaxTree, n: usize) -> (r: Option<Vec<u8>>)
    ensures
        match r {
            None => function_written(*tree, n) is None,
            Some(name) => function_written(*tree, n) == Some(name@),
        },
    decreases tree.count() - n,
{
    proof {
        tree.child_in_role_is_child(n, Field::Name);
        tree.child_in_role_is_child(n, Field::Scope);
    }
    match tree.kind(n) {
        Kind::Identifier
        | Kind::FieldIdentifier
        | Kind::NamespaceIdentifier
        | Kind::TypeIdentifier => match tree.node_text(n) {
            None => None,
            Some(text) => Some(copy_bytes(text)),
        },
        Kind::TemplateFunction | Kind::TemplateMethod => match tree.child_by_field(n, Field::Name) {
            None => None,
            Some(name) => find_function_written(tree, name),
        },
        Kind::QualifiedIdentifier => {
            let last = match tree.child_by_field(n, Field::Name) {
                None => {
                    return None;
                },
                Some(last) => last,
            };
            let prefix = match tree.child_by_field(n, Field::Scope) {
                None => {
                    let none: Vec<u8> = Vec::new();
                    assert(none@ =~= Seq::empty());
                    none
                },
                Some(scope) => match find_function_written(tree, scope) {
                    None => {
                        return None;
                    },
                    Some(prefix) => prefix,
                },
            };
            match find_function_written(tree, last) {
                None => None,
                Some(name) => Some(join_scope(prefix.as_slice(), name.as_slice())),
            }
        },
        _ => None,
    }
}

/// The name of the function that a template declares. Forms that are not supported
/// otherwise, and specializations, have one too.
pub open spec fn template_function_name(tree: SyntaxTree, n: usize) -> Option<Seq<u8>> {
    if tree.kind_of(n) != Kind::TemplateDeclaration {
        None
    } else {
        match tree.first_of(tree.named_children_of(n), callable_kinds(), Seq::empty()) {
            None => None,
            Some(declaration) => match tree.child_in_role(declaration, Field::Declarator) {
                None => None,
                Some(outer) => match behind_pointers(tree, outer) {
                    Some(function) if tree.kind_of(function) == Kind::FunctionDeclarator => {
                        match tree.child_in_role(function, Field::Declarator) {
                            None => None,
                            Some(name) => function_written(tree, name),
                        }
                    },
                    _ => None,
                },
            },
        }
    }
}

/// The name of the function that a template declares.
pub fn function_name(tree: &SyntaxTree, n: usize) -> (r: Option<Vec<u8>>)
    ensures
        match r {
            None => template_function_name(*tree, n) is None,
            Some(name) => template_function_name(*tree, n) == Some(name@),
        },
{
    if tree.kind(n) != Kind::TemplateDeclaration {
        return None;
    }
    let children = tree.named_children(n);
    let want = [Kind::FunctionDefinition, Kind::Declaration, Kind::FieldDeclaration];
    let stop: [Kind; 0] = [];
    assert(want@ =~= callable_kinds());
    assert(stop@ =~= Seq::empty());
    let declaration = match tree.find_first(children.as_slice(), &want, &stop) {
        None => {
            return None;
        },
        Some(declaration) => declaration,
    };
    let outer = match tree.child_by_field(declaration, Field::Declarator) {
        None => {
            return None;
        },
        Some(outer) => outer,
    };
    let function = match find_behind_pointers(tree, outer) {
        None => {
            return None;
        },
        Some(function) => function,
    };
    if tree.kind(function) != Kind::FunctionDeclarator {
        return None;
    }
    match tree.child_by_field(function, Field::Declarator) {
        None => None,
        Some(name) => find_function_written(tree, name),
    }
}

/// A callee with template arguments: the nodes of its name and of the arguments, what
/// it is written as without them, and what it is called on.
#[verifier::ext_equal]
pub struct CalleeView {
    pub name: usize,
    pub arguments: usize,
    pub text: Seq<u8>,
    pub receiver: Option<Seq<u8>>,
}

/// What stands before the last `::` of a text.
pub open spec fn scope_before(text: Seq<u8>) -> Option<Seq<u8>> {
    match last_separator(text, text.len() as int) {
        None => None,
        Some(at) => Some(text.take(at as int)),
    }
}

/// The callee behind what is already known of it. A callable that a call returns is
/// another invocation, never the name inside it.
pub open spec fn callee_from(
    tree: SyntaxTree,
    n: usize,
    prefix: Seq<u8>,
    receiver: Option<Seq<u8>>,
) -> Option<CalleeView>
    decreases tree.count() - n,
    via callee_from_decreases
{
    match tree.kind_of(n) {
        Kind::TemplateFunction | Kind::TemplateMethod => match (
            tree.child_in_role(n, Field::Name),
            tree.child_in_role(n, Field::Arguments),
        ) {
            (Some(name), Some(arguments)) => match tree.text_of(name) {
                Some(own) if tree.kind_of(name) == Kind::Identifier || tree.kind_of(name)
                    == Kind::FieldIdentifier => Some(
                    CalleeView {
                        name,
                        arguments,
                        text: prefix + own,
                        receiver: match receiver {
                            Some(object) => Some(object),
                            None => scope_before(prefix + own),
                        },
                    },
                ),
                _ => None,
            },
            _ => None,
        },
        Kind::ParenthesizedExpression | Kind::DependentName => match tree.sole_part_of(n) {
            None => None,
            Some(inner) => callee_from(tree, inner, prefix, receiver),
        },
        Kind::QualifiedIdentifier => match tree.child_in_role(n, Field::Name) {
            None => None,
            Some(last) => {
                let scope = match tree.child_in_role(n, Field::Scope) {
                    None => Some(Seq::empty()),
                    Some(scope) => tree.text_of(scope),
                };
                match scope {
                    Some(scope) if has_separator(tree, n) => callee_from(
                        tree,
                        last,
                        prefix + scope + "::".spec_bytes(),
                        receiver,
                    ),
                    _ => None,
                }
            },
        },
        Kind::FieldExpression => match (
            crate::cpp_annotation_sites::role_text(tree, n, Field::Argument),
            crate::cpp_annotation_sites::role_text(tree, n, Field::Operator),
            tree.child_in_role(n, Field::Field),
        ) {
            (Some(object), Some(operator), Some(field)) => if token_is(operator, ".") || token_is(
                operator,
                "->",
            ) {
                callee_from(
                    tree,
                    field,
                    prefix + object + operator,
                    match receiver {
                        Some(outer) => Some(outer),
                        None => Some(object),
                    },
                )
            } else {
                None
            },
            _ => None,
        },
        _ => None,
    }
}

#[via_fn]
proof fn callee_from_decreases(
    tree: SyntaxTree,
    n: usize,
    prefix: Seq<u8>,
    receiver: Option<Seq<u8>>,
) {
    tree.child_in_role_is_child(n, Field::Name);
    tree.child_in_role_is_child(n, Field::Field);
    if tree.parts_of(n).len() > 0 {
        tree.parts_are_children(n, 0);
    }
}

/// The callee with template arguments that a node is.
pub open spec fn callee_of(tree: SyntaxTree, n: usize) -> Option<CalleeView> {
    if tree.node(n).has_error {
        None
    } else {
        callee_from(tree, n, Seq::empty(), None)
    }
}

/// A callee with template arguments.
pub struct Callee {
    pub name: usize,
    pub arguments: usize,
    pub text: Vec<u8>,
    pub receiver: Option<Vec<u8>>,
}

/// The bytes of a text that may be absent.
pub open spec fn optional_vec(text: Option<Vec<u8>>) -> Option<Seq<u8>> {
    match text {
        None => None,
        Some(bytes) => Some(bytes@),
    }
}

impl View for Callee {
    type V = CalleeView;

    open spec fn view(&self) -> CalleeView {
        CalleeView {
            name: self.name,
            arguments: self.arguments,
            text: self.text@,
            receiver: optional_vec(self.receiver),
        }
    }
}

fn find_scope_before(text: &[u8]) -> (r: Option<Vec<u8>>)
    ensures
        optional_vec(r) == scope_before(text@),
{
    match find_last_separator(text) {
        None => None,
        Some(at) => {
            let part = &text[0..at];
            assert(part@ =~= text@.take(at as int));
            Some(copy_bytes(part))
        },
    }
}

/// The callee with template arguments that a node is.
pub fn callee(tree: &SyntaxTree, from: usize) -> (r: Option<Callee>)
    ensures
        match r {
            None => callee_of(*tree, from) is None,
            Some(found) => callee_of(*tree, from) == Some(found@),
        },
{
    if tree.data(from).has_error {
        return None;
    }
    let mut n: usize = from;
    let mut prefix: Vec<u8> = Vec::new();
    let mut receiver: Option<Vec<u8>> = None;
    assert(prefix@ =~= Seq::empty());
    loop
        invariant
            callee_of(*tree, from) == callee_from(*tree, n, prefix@, optional_vec(receiver)),
        decreases tree.count() - n,
    {
        proof {
            tree.child_in_role_is_child(n, Field::Name);
            tree.child_in_role_is_child(n, Field::Field);
            if tree.parts_of(n).len() > 0 {
                tree.parts_are_children(n, 0);
            }
        }
        match tree.kind(n) {
            Kind::TemplateFunction | Kind::TemplateMethod => {
                let name = match tree.child_by_field(n, Field::Name) {
                    None => {
                        return None;
                    },
                    Some(name) => name,
                };
                let arguments = match tree.child_by_field(n, Field::Arguments) {
                    None => {
                        return None;
                    },
                    Some(arguments) => arguments,
                };
                if !matches!(tree.kind(name), Kind::Identifier | Kind::FieldIdentifier) {
                    return None;
                }
                let own = match tree.node_text(name) {
                    None => {
                        return None;
                    },
                    Some(own) => own,
                };
                let mut text = prefix;
                append_bytes(&mut text, own);
                let on = match receiver {
                    Some(object) => Some(object),
                    None => find_scope_before(text.as_slice()),
                };
                let found = Callee { name, arguments, text, receiver: on };
                assert(callee_of(*tree, from)->0 =~= found@);
                return Some(found);
            },
            Kind::ParenthesizedExpression | Kind::DependentName => {
                match tree.sole_part(n) {
                    None => {
                        return None;
                    },
                    Some(inner) => {
                        n = inner;
                    },
                }
            },
            Kind::QualifiedIdentifier => {
                let last = match tree.child_by_field(n, Field::Name) {
                    None => {
                        return None;
                    },
                    Some(last) => last,
                };
                if !find_separator(tree, n) {
                    return None;
                }
                let ghost before = prefix@;
                match tree.child_by_field(n, Field::Scope) {
                    None => {
                        assert(before + Seq::<u8>::empty() =~= before);
                    },
                    Some(scope) => match tree.node_text(scope) {
                        None => {
                            return None;
                        },
                        Some(text) => {
                            append_bytes(&mut prefix, text);
                        },
                    },
                }
                append_bytes(&mut prefix, "::".as_bytes());
                n = last;
            },
            Kind::FieldExpression => {
                let object = match crate::cpp_annotation_sites::find_role_text(
                    tree,
                    n,
                    Field::Argument,
                ) {
                    None => {
                        return None;
                    },
                    Some(object) => object,
                };
                let operator = match crate::cpp_annotation_sites::find_role_text(
                    tree,
                    n,
                    Field::Operator,
                ) {
                    None => {
                        return None;
                    },
                    Some(operator) => operator,
                };
                let field = match tree.child_by_field(n, Field::Field) {
                    None => {
                        return None;
                    },
                    Some(field) => field,
                };
                if !is_token(operator, ".") && !is_token(operator, "->") {
                    return None;
                }
                append_bytes(&mut prefix, object);
                append_bytes(&mut prefix, operator);
                if receiver.is_none() {
                    receiver = Some(copy_bytes(object));
                }
                n = field;
            },
            _ => {
                return None;
            },
        }
    }
}

/// The innermost node that has exactly a range, from a node outward.
pub open spec fn exact_node(tree: SyntaxTree, n: usize, range: TextRange) -> Option<usize>
    decreases n,
{
    if tree.range_of(n).same_bytes(range) {
        Some(n)
    } else {
        match tree.parent_of(n) {
            None => None,
            Some(p) => exact_node(tree, p, range),
        }
    }
}

/// The innermost node that has exactly a range, from a node outward.
pub fn find_exact_node(tree: &SyntaxTree, from: usize, range: &TextRange) -> (r: Option<usize>)
    ensures
        r == exact_node(*tree, from, *range),
{
    let mut n: usize = from;
    loop
        invariant
            exact_node(*tree, from, *range) == exact_node(*tree, n, *range),
        decreases n,
    {
        let own = tree.range(n);
        if own.start_byte == range.start_byte && own.end_byte == range.end_byte {
            return Some(n);
        }
        match tree.parent(n) {
            None => {
                return None;
            },
            Some(p) => {
                n = p;
            },
        }
    }
}

/// The types that nodes are; none where one is not a type.
pub open spec fn argument_types(tree: SyntaxTree, nodes: Seq<usize>) -> Option<
    Seq<DeclaredTypeView>,
>
    decreases nodes.len(),
{
    if nodes.len() == 0 {
        Some(Seq::empty())
    } else {
        match (
            argument_types(tree, nodes.drop_last()),
            template_argument_type(tree, nodes.last()),
        ) {
            (Some(before), Some(last)) => Some(before.push(last)),
            _ => None,
        }
    }
}

/// Once one node is no type, the list is none.
proof fn lemma_no_types(tree: SyntaxTree, nodes: Seq<usize>, count: int)
    requires
        0 <= count <= nodes.len(),
        argument_types(tree, nodes.take(count)) is None,
    ensures
        argument_types(tree, nodes) is None,
    decreases nodes.len() - count,
{
    if count == nodes.len() {
        assert(nodes.take(count) =~= nodes);
    } else {
        assert(nodes.take(count + 1).drop_last() =~= nodes.take(count));
        lemma_no_types(tree, nodes, count + 1);
    }
}

fn read_argument_types(tree: &SyntaxTree, nodes: &[usize]) -> (r: Option<Vec<CppDeclaredType>>)
    ensures
        optional_list(r) == argument_types(*tree, nodes@),
{
    let mut types: Vec<CppDeclaredType> = Vec::new();
    let mut i: usize = 0;
    assert(views(types@) =~= Seq::empty());
    while i < nodes.len()
        invariant
            i <= nodes@.len(),
            argument_types(*tree, nodes@.take(i as int)) == Some(views(types@)),
        decreases nodes@.len() - i,
    {
        assert(nodes@.take(i + 1).drop_last() =~= nodes@.take(i as int));
        match template_type_argument(tree, nodes[i]) {
            None => {
                proof {
                    lemma_no_types(*tree, nodes@, i + 1);
                }
                return None;
            },
            Some(found) => {
                proof {
                    lemma_push_view(types@, found);
                }
                types.push(found);
            },
        }
        i += 1;
    }
    assert(nodes@.take(i as int) =~= nodes@);
    Some(types)
}

/// Whether a text holds a byte.
pub open spec fn has_byte(text: Seq<u8>, b: u8) -> bool {
    text.contains(b)
}

/// Whether a text holds a byte.
pub fn find_byte(text: &[u8], b: u8) -> (r: bool)
    ensures
        r == has_byte(text@, b),
{
    let mut i: usize = 0;
    while i < text.len()
        invariant
            i <= text@.len(),
            forall|k: int| 0 <= k < i ==> text@[k] != b,
        decreases text@.len() - i,
    {
        if text[i] == b {
            assert(text@[i as int] == b);
            return true;
        }
        i += 1;
    }
    false
}

/// The call around a recorded reference.
pub open spec fn call_around(tree: SyntaxTree, range: TextRange) -> Option<usize> {
    match tree.node_at(range.start_byte, range.end_byte) {
        None => None,
        Some(inner) => match exact_node(tree, inner, range) {
            None => None,
            Some(at) => tree.first_of(
                tree.lineage_of(at),
                seq![Kind::CallExpression],
                seq![Kind::FunctionDefinition, Kind::LambdaExpression],
            ),
        },
    }
}

/// The written callee of a recorded call with template arguments.
pub open spec fn template_call_of(
    tree: SyntaxTree,
    id: ReferenceId,
    range: TextRange,
    text: Seq<u8>,
) -> Option<TemplateCallView> {
    if !has_byte(text, LESS) {
        None
    } else {
        match call_around(tree, range) {
            None => None,
            Some(call) => match tree.child_in_role(call, Field::Function) {
                Some(function) if tree.range_of(function).covers(range) => match callee_of(
                    tree,
                    function,
                ) {
                    None => None,
                    Some(part) => match tree.text_of(part.name) {
                        None => None,
                        Some(name) => Some(
                            TemplateCallView {
                                reference_id: id,
                                name,
                                text: part.text,
                                receiver: part.receiver,
                                name_range: tree.range_of(part.name),
                                arguments_range: tree.range_of(part.arguments),
                                arguments: argument_types(tree, tree.parts_of(part.arguments)),
                            },
                        ),
                    },
                },
                _ => None,
            },
        }
    }
}

/// The written callee of a recorded call with template arguments. The identity and
/// the range of the reference stay as they are; the spelling is for later lookup.
pub fn template_call(tree: &SyntaxTree, reference: &ReferenceUse) -> (r: Option<CppTemplateCall>)
    ensures
        match r {
            None => template_call_of(
                *tree,
                reference.id,
                reference.range,
                reference.text@,
            ) is None,
            Some(call) => template_call_of(
                *tree,
                reference.id,
                reference.range,
                reference.text@,
            ) == Some(call@),
        },
{
    if !find_byte(reference.text.as_bytes(), LESS) {
        return None;
    }
    let range = reference.range;
    let inner = match tree.descendant_for_byte_range(range.start_byte, range.end_byte) {
        None => {
            return None;
        },
        Some(inner) => inner,
    };
    let at = match find_exact_node(tree, inner, &range) {
        None => {
            return None;
        },
        Some(at) => at,
    };
    let lineage = tree.lineage(at);
    let want = [Kind::CallExpression];
    let stop = [Kind::FunctionDefinition, Kind::LambdaExpression];
    assert(want@ =~= seq![Kind::CallExpression]);
    assert(stop@ =~= seq![Kind::FunctionDefinition, Kind::LambdaExpression]);
    let call = match tree.find_first(lineage.as_slice(), &want, &stop) {
        None => {
            return None;
        },
        Some(call) => call,
    };
    let function = match tree.child_by_field(call, Field::Function) {
        None => {
            return None;
        },
        Some(function) => function,
    };
    if !tree.range(function).contains_range(&range) {
        return None;
    }
    let part = match callee(tree, function) {
        None => {
            return None;
        },
        Some(part) => part,
    };
    let name = match tree.node_text(part.name) {
        None => {
            return None;
        },
        Some(name) => name,
    };
    let nodes = tree.parts(part.arguments);
    let found = CppTemplateCall {
        reference_id: reference.id,
        name: Text::from_bytes(name),
        text: Text::from_bytes(part.text.as_slice()),
        receiver: match &part.receiver {
            None => None,
            Some(receiver) => Some(Text::from_bytes(receiver.as_slice())),
        },
        name_range: tree.range(part.name),
        arguments_range: tree.range(part.arguments),
        arguments: read_argument_types(tree, nodes.as_slice()),
    };
    assert(template_call_of(*tree, reference.id, reference.range, reference.text@)->0 =~= found@);
    Some(found)
}

/// The name of a plain type parameter.
pub open spec fn type_parameter(tree: SyntaxTree, n: usize) -> Option<Seq<u8>> {
    if tree.kind_of(n) != Kind::TypeParameterDeclaration || tree.node(n).has_error {
        None
    } else {
        match tree.sole_part_of(n) {
            Some(id) if tree.kind_of(id) == Kind::TypeIdentifier => tree.text_of(id),
            _ => None,
        }
    }
}

/// The names of plain type parameters, all different.
pub open spec fn type_parameters(tree: SyntaxTree, nodes: Seq<usize>) -> Option<Seq<Seq<u8>>>
    decreases nodes.len(),
{
    if nodes.len() == 0 {
        Some(Seq::empty())
    } else {
        match (type_parameters(tree, nodes.drop_last()), type_parameter(tree, nodes.last())) {
            (Some(names), Some(name)) => if names.contains(name) {
                None
            } else {
                Some(names.push(name))
            },
            _ => None,
        }
    }
}

/// The names of the parameters of a template: plain types, at least one. An empty list
/// belongs to a specialization.
pub open spec fn parameter_list(tree: SyntaxTree, list: usize) -> Option<Seq<Seq<u8>>> {
    match type_parameters(tree, tree.parts_of(list)) {
        Some(names) if names.len() > 0 => Some(names),
        _ => None,
    }
}

proof fn lemma_parameters_stay(tree: SyntaxTree, nodes: Seq<usize>, count: int)
    requires
        0 <= count <= nodes.len(),
        type_parameters(tree, nodes.take(count)) is None,
    ensures
        type_parameters(tree, nodes) is None,
    decreases nodes.len(),
{
    if count == nodes.len() {
        assert(nodes.take(count) =~= nodes);
    } else {
        assert(nodes.drop_last().take(count) =~= nodes.take(count));
        lemma_parameters_stay(tree, nodes.drop_last(), count);
    }
}

/// Whether a computed list of names is the one that is meant.
pub open spec fn names_match(r: Option<Vec<Text>>, want: Option<Seq<Seq<u8>>>) -> bool {
    match r {
        None => want is None,
        Some(names) => want == Some(text_views(names@)),
    }
}

fn has_text(names: &[Text], name: &[u8]) -> (r: bool)
    ensures
        r == text_views(names@).contains(name@),
{
    let ghost views = text_views(names@);
    let mut i: usize = 0;
    while i < names.len()
        invariant
            i <= names@.len(),
            views == text_views(names@),
            forall|k: int| 0 <= k < i ==> views[k] != name@,
        decreases names@.len() - i,
    {
        assert(views[i as int] == names@[i as int]@);
        if same_bytes(names[i].as_bytes(), name) {
            assert(views[i as int] == name@);
            return true;
        }
        i += 1;
    }
    false
}

fn find_type_parameter(tree: &SyntaxTree, n: usize) -> (r: Option<&[u8]>)
    ensures
        match r {
            None => type_parameter(*tree, n) is None,
            Some(name) => type_parameter(*tree, n) == Some(name@),
        },
{
    if tree.kind(n) != Kind::TypeParameterDeclaration || tree.data(n).has_error {
        return None;
    }
    match tree.sole_part(n) {
        None => None,
        Some(id) => if tree.kind(id) == Kind::TypeIdentifier {
            tree.node_text(id)
        } else {
            None
        },
    }
}

/// The names of the parameters of a template.
pub fn read_parameter_list(tree: &SyntaxTree, list: usize) -> (r: Option<Vec<Text>>)
    ensures
        names_match(r, parameter_list(*tree, list)),
{
    let nodes = tree.parts(list);
    let mut names: Vec<Text> = Vec::new();
    let mut i: usize = 0;
    assert(text_views(names@) =~= Seq::empty());
    while i < nodes.len()
        invariant
            i <= nodes@.len(),
            nodes@ == tree.parts_of(list),
            type_parameters(*tree, nodes@.take(i as int)) == Some(text_views(names@)),
        decreases nodes@.len() - i,
    {
        proof {
            assert(nodes@.take(i + 1).drop_last() =~= nodes@.take(i as int));
            if type_parameters(*tree, nodes@.take(i + 1)) is None {
                lemma_parameters_stay(*tree, nodes@, i + 1);
            }
        }
        let name = match find_type_parameter(tree, nodes[i]) {
            None => {
                return None;
            },
            Some(name) => name,
        };
        if has_text(names.as_slice(), name) {
            return None;
        }
        let ghost before = names@;
        let item = Text::from_bytes(name);
        names.push(item);
        proof {
            lemma_push_text(before, item);
        }
        i += 1;
    }
    assert(nodes@.take(i as int) =~= nodes@);
    if names.len() == 0 {
        return None;
    }
    Some(names)
}

/// Whether a node is none of two others and no comment.
pub open spec fn is_third(tree: SyntaxTree, a: usize, b: usize, n: usize) -> bool {
    n != a && n != b && tree.kind_of(n) != Kind::Comment
}

/// Whether a node has a named child besides two others and comments.
pub open spec fn has_third(tree: SyntaxTree, n: usize, a: usize, b: usize) -> bool {
    exists|k: int|
        0 <= k < tree.named_children_of(n).len() && is_third(
            tree,
            a,
            b,
            #[trigger] tree.named_children_of(n)[k],
        )
}

/// Whether a node has a named child besides two others and comments.
pub fn find_third(tree: &SyntaxTree, n: usize, a: usize, b: usize) -> (r: bool)
    ensures
        r == has_third(*tree, n, a, b),
{
    let children = tree.named_children(n);
    let mut i: usize = 0;
    while i < children.len()
        invariant
            i <= children@.len(),
            children@ == tree.named_children_of(n),
            forall|k: int| 0 <= k < i ==> !is_third(*tree, a, b, #[trigger] children@[k]),
        decreases children@.len() - i,
    {
        let c: usize = children[i];
        if c != a && c != b && tree.kind(c) != Kind::Comment {
            assert(is_third(*tree, a, b, tree.named_children_of(n)[i as int]));
            return true;
        }
        i += 1;
    }
    false
}

/// The nodes of a kind among some.
pub open spec fn of_kind(tree: SyntaxTree, nodes: Seq<usize>, kind: Kind) -> Seq<usize> {
    nodes.filter(|n: usize| tree.kind_of(n) == kind)
}

/// The nodes of a kind among some.
pub fn keep_kind(tree: &SyntaxTree, nodes: &[usize], kind: Kind) -> (r: Vec<usize>)
    ensures
        r@ == of_kind(*tree, nodes@, kind),
{
    let ghost keep = |n: usize| tree.kind_of(n) == kind;
    let mut found: Vec<usize> = Vec::new();
    let mut i: usize = 0;
    assert(nodes@.take(0).filter(keep) =~= Seq::empty()) by {
        reveal(Seq::filter);
    }
    while i < nodes.len()
        invariant
            i <= nodes@.len(),
            keep == (|n: usize| tree.kind_of(n) == kind),
            found@ == nodes@.take(i as int).filter(keep),
        decreases nodes@.len() - i,
    {
        proof {
            crate::collections::lemma_filter_step(nodes@, keep, i as int);
        }
        if tree.kind(nodes[i]) == kind {
            found.push(nodes[i]);
        }
        i += 1;
    }
    assert(nodes@.take(i as int) =~= nodes@);
    found
}

/// Whether a node is a class around a range.
pub open spec fn is_record_around(tree: SyntaxTree, n: usize, range: TextRange) -> bool {
    (tree.kind_of(n) == Kind::ClassSpecifier || tree.kind_of(n) == Kind::StructSpecifier)
        && tree.range_of(n).covers(range)
}

/// Whether one of some nodes is a class around a range.
pub open spec fn has_record_around(
    tree: SyntaxTree,
    nodes: Seq<usize>,
    range: TextRange,
) -> bool {
    exists|k: int| 0 <= k < nodes.len() && is_record_around(tree, #[trigger] nodes[k], range)
}

fn find_record_around(tree: &SyntaxTree, nodes: &[usize], range: &TextRange) -> (r: bool)
    ensures
        r == has_record_around(*tree, nodes@, *range),
{
    let mut i: usize = 0;
    while i < nodes.len()
        invariant
            i <= nodes@.len(),
            forall|k: int| 0 <= k < i ==> !is_record_around(*tree, #[trigger] nodes@[k], *range),
        decreases nodes@.len() - i,
    {
        let n: usize = nodes[i];
        if matches!(tree.kind(n), Kind::ClassSpecifier | Kind::StructSpecifier) && tree.range(
            n,
        ).contains_range(range) {
            assert(is_record_around(*tree, nodes@[i as int], *range));
            return true;
        }
        i += 1;
    }
    false
}

/// What templates say of a callable: nothing where it is not supported, no names
/// where there is no template, or the names of the parameters of its own template.
/// The operator of a class template is supported as if there were none.
pub open spec fn function_parameters_of(
    tree: SyntaxTree,
    name: usize,
) -> Option<Option<Seq<Seq<u8>>>> {
    match tree.first_of(tree.ancestors_of(name), callable_kinds(), Seq::empty()) {
        None => None,
        Some(declaration) => {
            let templates = of_kind(
                tree,
                tree.ancestors_of(declaration),
                Kind::TemplateDeclaration,
            );
            if templates.len() == 0 {
                Some(None)
            } else if templates.len() > 1 {
                None
            } else if tree.parent_of(declaration) != Some(templates[0]) {
                if tree.kind_of(name) == Kind::OperatorName && has_record_around(
                    tree,
                    tree.named_children_of(templates[0]),
                    tree.range_of(name),
                ) {
                    Some(None)
                } else {
                    None
                }
            } else {
                match tree.child_in_role(templates[0], Field::Parameters) {
                    None => None,
                    Some(list) => if has_third(tree, templates[0], declaration, list) {
                        None
                    } else {
                        match parameter_list(tree, list) {
                            None => None,
                            Some(names) => Some(Some(names)),
                        }
                    },
                }
            }
        },
    }
}

/// What templates say of a callable.
pub fn function_parameters(tree: &SyntaxTree, name: usize) -> (r: Option<Option<Vec<Text>>>)
    ensures
        match r {
            None => function_parameters_of(*tree, name) is None,
            Some(names) => function_parameters_of(*tree, name) == Some(
                crate::cpp_facts::optional_texts(names),
            ),
        },
{
    let want = [Kind::FunctionDefinition, Kind::Declaration, Kind::FieldDeclaration];
    let stop: [Kind; 0] = [];
    assert(want@ =~= callable_kinds());
    assert(stop@ =~= Seq::empty());
    let around = tree.ancestors(name);
    let declaration = match tree.find_first(around.as_slice(), &want, &stop) {
        None => {
            return None;
        },
        Some(declaration) => declaration,
    };
    let outer = tree.ancestors(declaration);
    let templates = keep_kind(tree, outer.as_slice(), Kind::TemplateDeclaration);
    if templates.len() == 0 {
        return Some(None);
    }
    if templates.len() > 1 {
        return None;
    }
    let template: usize = templates[0];
    if tree.parent(declaration) != Some(template) {
        let children = tree.named_children(template);
        if tree.kind(name) == Kind::OperatorName && find_record_around(
            tree,
            children.as_slice(),
            &tree.range(name),
        ) {
            return Some(None);
        }
        return None;
    }
    let list = match tree.child_by_field(template, Field::Parameters) {
        None => {
            return None;
        },
        Some(list) => list,
    };
    if find_third(tree, template, declaration, list) {
        return None;
    }
    match read_parameter_list(tree, list) {
        None => None,
        Some(names) => Some(Some(names)),
    }
}

/// The names of the parameters of the template of a class that is in no other
/// template or class.
pub open spec fn class_template_parameters(tree: SyntaxTree, n: usize) -> Option<Seq<Seq<u8>>> {
    match (tree.parent_of(n), tree.child_in_role(n, Field::Name)) {
        (Some(template), Some(name)) => if tree.kind_of(template) != Kind::TemplateDeclaration
            || tree.has_one_of(
            tree.ancestors_of(template),
            seq![Kind::TemplateDeclaration, Kind::ClassSpecifier, Kind::StructSpecifier],
        ) || tree.kind_of(name) != Kind::TypeIdentifier {
            None
        } else {
            match tree.child_in_role(template, Field::Parameters) {
                None => None,
                Some(list) => if has_third(tree, template, n, list) {
                    None
                } else {
                    parameter_list(tree, list)
                },
            }
        },
        _ => None,
    }
}

/// The names of the parameters of the template of a class.
pub fn template_parameters(tree: &SyntaxTree, n: usize) -> (r: Option<Vec<Text>>)
    ensures
        names_match(r, class_template_parameters(*tree, n)),
{
    let template = match tree.parent(n) {
        None => {
            return None;
        },
        Some(template) => template,
    };
    let name = match tree.child_by_field(n, Field::Name) {
        None => {
            return None;
        },
        Some(name) => name,
    };
    let want = [Kind::TemplateDeclaration, Kind::ClassSpecifier, Kind::StructSpecifier];
    assert(want@ =~= seq![
        Kind::TemplateDeclaration,
        Kind::ClassSpecifier,
        Kind::StructSpecifier,
    ]);
    let around = tree.ancestors(template);
    if tree.kind(template) != Kind::TemplateDeclaration || tree.has_any(around.as_slice(), &want)
        || tree.kind(name) != Kind::TypeIdentifier {
        return None;
    }
    match tree.child_by_field(template, Field::Parameters) {
        None => None,
        Some(list) => if find_third(tree, template, n, list) {
            None
        } else {
            read_parameter_list(tree, list)
        },
    }
}

} // verus!
