//! References in C++ files: what captured calls, types and fields refer to, as they are
//! written.

use crate::cpp_annotation_sites::{find_role_text, role_text};
use crate::cpp_facts::{lemma_push_view, optional_view, views};
use crate::cpp_lambdas::{lambda_name, name as closure_name, unwrap_parentheses, unwrapped};
use crate::cpp_symbols::{
    capture_is, cpp_reference_kind, is_capture, lemma_bytes_tell_text, reference_kind,
};
use crate::cpp_templates::{find_byte, has_byte, optional_vec};
use crate::cpp_tokens::{
    find_last_separator, is_token, last_separator, token_is, tokens, tokens_of, SEMICOLON,
};
use crate::facts::{
    DiagnosticLevel, ExtractDiagnostic, ExtractDiagnosticView, ReferenceKind, ReferenceUse,
    TextRange,
};
use crate::ids::{FileId, ReferenceId};
use crate::syntax::{get_slice, slice_of, Field, Kind, SyntaxTree};
use crate::text::{byte_views, copy_bytes, optional_bytes, Text};
use vstd::prelude::*;
use vstd::string::StringSliceAdditionalSpecFns;

verus! {

broadcast use {SyntaxTree::parent_comes_first, SyntaxTree::children_come_later};

/// Whether a callee is a conversion: the grammar also gives those as calls.
pub open spec fn is_conversion(tree: SyntaxTree, n: usize) -> bool {
    tree.kind_of(n) == Kind::PrimitiveType || (tree.kind_of(n) == Kind::TemplateFunction && match (
    role_text(tree, n, Field::Name)) {
        None => false,
        Some(name) => token_is(name, "static_cast") || token_is(name, "dynamic_cast") || token_is(
            name,
            "const_cast",
        ) || token_is(name, "reinterpret_cast"),
    })
}

/// Whether a callee is a conversion.
pub fn is_conversion_callee(tree: &SyntaxTree, n: usize) -> (r: bool)
    ensures
        r == is_conversion(*tree, n),
{
    tree.kind(n) == Kind::PrimitiveType || (tree.kind(n) == Kind::TemplateFunction && match (
    find_role_text(tree, n, Field::Name)) {
        None => false,
        Some(name) => is_token(name, "static_cast") || is_token(name, "dynamic_cast") || is_token(
            name,
            "const_cast",
        ) || is_token(name, "reinterpret_cast"),
    })
}

/// The outermost comma expression around a node, or itself.
pub open spec fn comma_top(tree: SyntaxTree, n: usize) -> usize
    decreases n,
{
    match tree.parent_of(n) {
        Some(above) if above < n && tree.kind_of(above) == Kind::CommaExpression => comma_top(
            tree,
            above,
        ),
        _ => n,
    }
}

/// Whether a node is a token that is written: it has no parts, is there, and is no
/// comment.
pub open spec fn is_written_token(tree: SyntaxTree, n: usize) -> bool {
    tree.children_of(n).len() == 0 && tree.kind_of(n) != Kind::Comment && !tree.node(n).missing
}

/// The last written token before a node. Nodes are counted in the order in which they
/// start, an outer one before its parts.
pub open spec fn token_before(tree: SyntaxTree, n: usize) -> Option<usize>
    decreases n,
{
    if n == 0 {
        None
    } else if is_written_token(tree, (n - 1) as usize) {
        Some((n - 1) as usize)
    } else {
        token_before(tree, (n - 1) as usize)
    }
}

fn find_token_before(tree: &SyntaxTree, from: usize) -> (r: Option<usize>)
    ensures
        r == token_before(*tree, from),
{
    let mut n: usize = from;
    while n > 0
        invariant
            token_before(*tree, from) == token_before(*tree, n),
        decreases n,
    {
        n -= 1;
        if tree.children(n).len() == 0 && tree.kind(n) != Kind::Comment && !tree.data(n).missing {
            return Some(n);
        }
    }
    None
}

/// The parent of a node, where it is of a kind.
pub open spec fn parent_of_kind(tree: SyntaxTree, n: usize, kind: Kind) -> Option<usize> {
    match tree.parent_of(n) {
        Some(above) if tree.kind_of(above) == kind => Some(above),
        _ => None,
    }
}

fn find_parent_of_kind(tree: &SyntaxTree, n: usize, kind: Kind) -> (r: Option<usize>)
    ensures
        r == parent_of_kind(*tree, n, kind),
{
    match tree.parent(n) {
        None => None,
        Some(above) => if tree.kind(above) == kind {
            Some(above)
        } else {
            None
        },
    }
}

/// Whether a node is the word that introduces attributes.
pub open spec fn is_attribute_word(tree: SyntaxTree, n: usize) -> bool {
    match tree.text_of(n) {
        None => false,
        Some(text) => token_is(text, "__attribute__") || token_is(text, "__attribute"),
    }
}

/// Whether a call is an entry of an attribute list with parameters, which the grammar
/// gives as a call. Where the grammar does not know the place of the list, the word
/// before its double parentheses tells.
pub open spec fn is_attribute_entry(tree: SyntaxTree, call: usize) -> bool {
    tree.kind_of(call) == Kind::CallExpression && match tree.parent_of(call) {
        None => false,
        Some(parent) => {
            ||| tree.kind_of(parent) == Kind::ArgumentList && parent_of_kind(
                tree,
                parent,
                Kind::AttributeSpecifier,
            ) is Some
            ||| match parent_of_kind(tree, comma_top(tree, call), Kind::ParenthesizedExpression) {
                None => false,
                Some(inner) => match parent_of_kind(tree, inner, Kind::ParenthesizedExpression) {
                    None => false,
                    Some(outer) => match token_before(tree, outer) {
                        None => false,
                        Some(token) => is_attribute_word(tree, token),
                    },
                },
            }
        },
    }
}

fn find_comma_top(tree: &SyntaxTree, from: usize) -> (r: usize)
    ensures
        r == comma_top(*tree, from),
{
    let mut n: usize = from;
    loop
        invariant
            comma_top(*tree, from) == comma_top(*tree, n),
        decreases n,
    {
        match find_parent_of_kind(tree, n, Kind::CommaExpression) {
            None => {
                return n;
            },
            Some(above) => {
                n = above;
            },
        }
    }
}

/// Whether a call is an entry of an attribute list.
pub fn is_attribute_call(tree: &SyntaxTree, call: usize) -> (r: bool)
    ensures
        r == is_attribute_entry(*tree, call),
{
    if tree.kind(call) != Kind::CallExpression {
        return false;
    }
    let parent = match tree.parent(call) {
        None => {
            return false;
        },
        Some(parent) => parent,
    };
    if tree.kind(parent) == Kind::ArgumentList && find_parent_of_kind(
        tree,
        parent,
        Kind::AttributeSpecifier,
    ).is_some() {
        return true;
    }
    let top = find_comma_top(tree, call);
    match find_parent_of_kind(tree, top, Kind::ParenthesizedExpression) {
        None => false,
        Some(inner) => match find_parent_of_kind(tree, inner, Kind::ParenthesizedExpression) {
            None => false,
            Some(outer) => match find_token_before(tree, outer) {
                None => false,
                Some(token) => match tree.node_text(token) {
                    None => false,
                    Some(text) => is_token(text, "__attribute__") || is_token(text, "__attribute"),
                },
            },
        },
    }
}

/// The number of written arguments of a call, where it is plain to see.
pub open spec fn arity_of(tree: SyntaxTree, call: usize) -> Option<u32> {
    match tree.child_in_role(call, Field::Arguments) {
        None => None,
        Some(list) => if tree.node(list).has_error || tree.has_one_of(
            tree.parts_of(list),
            seq![Kind::ParameterPackExpansion],
        ) || tree.parts_of(list).len() > u32::MAX {
            None
        } else {
            Some(tree.parts_of(list).len() as u32)
        },
    }
}

/// The number of written arguments of a call.
pub fn call_arity(tree: &SyntaxTree, call: usize) -> (r: Option<u32>)
    ensures
        r == arity_of(*tree, call),
{
    let packs = [Kind::ParameterPackExpansion];
    assert(packs@ =~= seq![Kind::ParameterPackExpansion]);
    match tree.child_by_field(call, Field::Arguments) {
        None => None,
        Some(list) => {
            let parts = tree.parts(list);
            if tree.data(list).has_error || tree.has_any(parts.as_slice(), &packs) || parts.len() as u64
                > u32::MAX as u64 {
                None
            } else {
                Some(parts.len() as u32)
            }
        },
    }
}

/// The name that a callee ends with. Parentheses can change what a name means, so they
/// are not looked into.
pub open spec fn called_name(tree: SyntaxTree, n: usize) -> Option<usize>
    decreases tree.count() - n,
    via called_name_decreases
{
    match tree.kind_of(n) {
        Kind::Identifier | Kind::FieldIdentifier | Kind::TypeIdentifier => Some(n),
        Kind::QualifiedIdentifier => match tree.child_in_role(n, Field::Name) {
            None => None,
            Some(name) => called_name(tree, name),
        },
        Kind::FieldExpression => match tree.child_in_role(n, Field::Field) {
            Some(field) if tree.kind_of(field) == Kind::FieldIdentifier => Some(field),
            _ => None,
        },
        _ => None,
    }
}

#[via_fn]
proof fn called_name_decreases(tree: SyntaxTree, n: usize) {
    tree.child_in_role_is_child(n, Field::Name);
}

/// The name that a callee ends with.
pub fn callee_name(tree: &SyntaxTree, from: usize) -> (r: Option<usize>)
    ensures
        r == called_name(*tree, from),
{
    let mut n: usize = from;
    loop
        invariant
            called_name(*tree, from) == called_name(*tree, n),
        decreases tree.count() - n,
    {
        proof {
            tree.child_in_role_is_child(n, Field::Name);
        }
        match tree.kind(n) {
            Kind::Identifier | Kind::FieldIdentifier | Kind::TypeIdentifier => {
                return Some(n);
            },
            Kind::QualifiedIdentifier => match tree.child_by_field(n, Field::Name) {
                None => {
                    return None;
                },
                Some(name) => {
                    n = name;
                },
            },
            Kind::FieldExpression => {
                return match tree.child_by_field(n, Field::Field) {
                    None => None,
                    Some(field) => if tree.kind(field) == Kind::FieldIdentifier {
                        Some(field)
                    } else {
                        None
                    },
                };
            },
            _ => {
                return None;
            },
        }
    }
}

/// The outermost qualified name that a node is a part of.
pub open spec fn qualified_around(tree: SyntaxTree, n: usize) -> Option<usize>
    decreases n,
{
    match tree.parent_of(n) {
        Some(above) if above < n && tree.kind_of(above) == Kind::QualifiedIdentifier => {
            match qualified_around(tree, above) {
                None => Some(above),
                Some(outer) => Some(outer),
            }
        },
        _ => None,
    }
}

fn find_qualified_around(tree: &SyntaxTree, from: usize) -> (r: Option<usize>)
    ensures
        r == qualified_around(*tree, from),
{
    let mut found: Option<usize> = None;
    let mut n: usize = from;
    loop
        invariant
            qualified_around(*tree, from) == match qualified_around(*tree, n) {
                None => found,
                Some(outer) => Some(outer),
            },
        decreases n,
    {
        match find_parent_of_kind(tree, n, Kind::QualifiedIdentifier) {
            None => {
                return found;
            },
            Some(above) => {
                found = Some(above);
                n = above;
            },
        }
    }
}

/// What stands before the last separator of a name, where there is something.
pub open spec fn prefix_of(full: Seq<u8>) -> Option<Seq<u8>> {
    match last_separator(full, full.len() as int) {
        Some(at) if at > 0 => Some(full.take(at as int)),
        _ => None,
    }
}

/// The whole name that a simple name is a part of, and what it is looked up in.
pub open spec fn qualified_text(tree: SyntaxTree, n: usize, name: Seq<u8>) -> (
    Seq<u8>,
    Option<Seq<u8>>,
) {
    match qualified_around(tree, n) {
        None => (name, None),
        Some(outer) => {
            let full = match tree.text_of(outer) {
                None => name,
                Some(text) => text,
            };
            (full, prefix_of(full))
        },
    }
}

/// The whole name that a simple name is a part of, and what it is looked up in.
pub fn qualified_call_text_and_receiver(tree: &SyntaxTree, n: usize, name: &[u8]) -> (r: (
    Vec<u8>,
    Option<Vec<u8>>,
))
    ensures
        (r.0@, optional_vec(r.1)) == qualified_text(*tree, n, name@),
{
    match find_qualified_around(tree, n) {
        None => (copy_bytes(name), None),
        Some(outer) => {
            let full = match tree.node_text(outer) {
                None => copy_bytes(name),
                Some(text) => copy_bytes(text),
            };
            let receiver = match find_last_separator(full.as_slice()) {
                None => None,
                Some(at) => if at > 0 {
                    let part = &full[0..at];
                    assert(part@ =~= full@.take(at as int));
                    Some(copy_bytes(part))
                } else {
                    None
                },
            };
            (full, receiver)
        },
    }
}

/// What a captured node refers to, by value.
#[verifier::ext_equal]
pub struct WrittenReferenceView {
    pub kind: ReferenceKind,
    pub text: Seq<u8>,
    pub name: Seq<u8>,
    pub range: TextRange,
    pub receiver: Option<Seq<u8>>,
    pub arity: Option<u32>,
}

/// What a captured node refers to, as it is written.
#[derive(Debug)]
pub struct WrittenReference {
    pub kind: ReferenceKind,
    pub text: Text,
    pub name: Text,
    pub range: TextRange,
    pub receiver: Option<Text>,
    pub arity: Option<u32>,
}

impl View for WrittenReference {
    type V = WrittenReferenceView;

    open spec fn view(&self) -> WrittenReferenceView {
        WrittenReferenceView {
            kind: self.kind,
            text: self.text@,
            name: self.name@,
            range: self.range,
            receiver: optional_bytes(self.receiver),
            arity: self.arity,
        }
    }
}

/// A call of something that has no simple name.
pub open spec fn plain_call(
    text: Seq<u8>,
    name: Seq<u8>,
    range: TextRange,
    arity: Option<u32>,
) -> WrittenReferenceView {
    WrittenReferenceView { kind: ReferenceKind::Call, text, name, range, receiver: None, arity }
}

fn make_call(text: &[u8], name: Vec<u8>, range: TextRange, arity: Option<u32>) -> (r:
    WrittenReference)
    ensures
        r@ == plain_call(text@, name@, range, arity),
{
    WrittenReference {
        kind: ReferenceKind::Call,
        text: Text::from_bytes(text),
        name: Text::from_vec(name),
        range,
        receiver: None,
        arity,
    }
}

/// The range of a call up to its arguments.
pub open spec fn callee_range(tree: SyntaxTree, call: usize, list: usize) -> TextRange {
    let at = tree.range_of(list);
    TextRange {
        end_byte: at.start_byte,
        end_line: at.start_line,
        end_column: at.start_column,
        ..tree.range_of(call)
    }
}

/// Whether a part of a call stands before its arguments and is not the callee.
pub open spec fn is_stray(tree: SyntaxTree, n: usize, list: usize, c: usize) -> bool {
    c != n && tree.range_of(c).start_byte < tree.range_of(list).start_byte && tree.kind_of(c)
        != Kind::Comment
}

/// Whether something else than the callee stands before the arguments of a call: the
/// callee is then only a fragment of what is written.
pub open spec fn has_stray(tree: SyntaxTree, call: usize, n: usize, list: usize) -> bool {
    exists|i: int|
        0 <= i < tree.children_of(call).len() && is_stray(
            tree,
            n,
            list,
            #[trigger] tree.children_of(call)[i],
        )
}

fn find_stray(tree: &SyntaxTree, call: usize, n: usize, list: usize) -> (r: bool)
    ensures
        r == has_stray(*tree, call, n, list),
{
    let children = tree.children(call);
    let mut i: usize = 0;
    while i < children.len()
        invariant
            i <= children@.len(),
            children@ == tree.children_of(call),
            forall|k: int|
                0 <= k < i ==> !is_stray(*tree, n, list, #[trigger] tree.children_of(call)[k]),
        decreases children@.len() - i,
    {
        let c: usize = children[i];
        if c != n && tree.range(c).start_byte < tree.range(list).start_byte && tree.kind(c)
            != Kind::Comment {
            assert(is_stray(*tree, n, list, tree.children_of(call)[i as int]));
            return true;
        }
        i += 1;
    }
    false
}

/// A call of a closure where it is written.
pub open spec fn lambda_call(tree: SyntaxTree, n: usize) -> Option<WrittenReferenceView> {
    match unwrapped(tree, n) {
        Some(lambda) if tree.kind_of(lambda) == Kind::LambdaExpression => match (
            tree.child_in_role(lambda, Field::Captures),
            tree.parent_of(n),
            tree.text_of(n),
        ) {
            (Some(captures), Some(call), Some(text)) => Some(
                plain_call(
                    text,
                    lambda_name(tree, lambda),
                    tree.range_of(captures),
                    arity_of(tree, call),
                ),
            ),
            _ => None,
        },
        _ => None,
    }
}

/// A call of a closure where it is written.
pub fn reference(tree: &SyntaxTree, n: usize) -> (r: Option<WrittenReference>)
    ensures
        optional_view(r) == lambda_call(*tree, n),
{
    let lambda = match unwrap_parentheses(tree, n) {
        None => {
            return None;
        },
        Some(lambda) => lambda,
    };
    if tree.kind(lambda) != Kind::LambdaExpression {
        return None;
    }
    match (tree.child_by_field(lambda, Field::Captures), tree.parent(n), tree.node_text(n)) {
        (Some(captures), Some(call), Some(text)) => Some(
            make_call(
                text,
                closure_name(tree, lambda),
                tree.range(captures),
                call_arity(tree, call),
            ),
        ),
        _ => None,
    }
}

/// The number of arguments of the call that a name is the callee of.
pub open spec fn name_arity(tree: SyntaxTree, n: usize) -> Option<u32>
    decreases n,
{
    match tree.parent_of(n) {
        None => None,
        Some(above) => match tree.kind_of(above) {
            Kind::CallExpression => if tree.child_in_role(above, Field::Function) == Some(n) {
                arity_of(tree, above)
            } else {
                None
            },
            Kind::QualifiedIdentifier | Kind::FieldExpression => if above < n {
                name_arity(tree, above)
            } else {
                None
            },
            _ => None,
        },
    }
}

fn find_name_arity(tree: &SyntaxTree, from: usize) -> (r: Option<u32>)
    ensures
        r == name_arity(*tree, from),
{
    let mut n: usize = from;
    loop
        invariant
            name_arity(*tree, from) == name_arity(*tree, n),
        decreases n,
    {
        let above = match tree.parent(n) {
            None => {
                return None;
            },
            Some(above) => above,
        };
        match tree.kind(above) {
            Kind::CallExpression => {
                return if tree.child_by_field(above, Field::Function) == Some(n) {
                    call_arity(tree, above)
                } else {
                    None
                };
            },
            Kind::QualifiedIdentifier | Kind::FieldExpression => {
                n = above;
            },
            _ => {
                return None;
            },
        }
    }
}

/// The member access that a node is the name of.
pub open spec fn access_of(tree: SyntaxTree, n: usize) -> Option<usize> {
    match parent_of_kind(tree, n, Kind::FieldExpression) {
        Some(access) if tree.child_in_role(access, Field::Field) == Some(n) => Some(access),
        _ => None,
    }
}

/// A reference by a simple name.
pub open spec fn name_reference(tree: SyntaxTree, kind: ReferenceKind, n: usize) -> Option<
    WrittenReferenceView,
> {
    match tree.text_of(n) {
        None => None,
        Some(name) => {
            let arity = if kind == ReferenceKind::Call {
                name_arity(tree, n)
            } else {
                None
            };
            match access_of(tree, n) {
                Some(access) => match tree.text_of(access) {
                    None => None,
                    Some(text) => Some(
                        WrittenReferenceView {
                            kind,
                            text,
                            name,
                            range: tree.range_of(n),
                            receiver: role_text(tree, access, Field::Argument),
                            arity,
                        },
                    ),
                },
                None => {
                    let (text, receiver) = qualified_text(tree, n, name);
                    Some(
                        WrittenReferenceView {
                            kind,
                            text,
                            name,
                            range: tree.range_of(n),
                            receiver,
                            arity,
                        },
                    )
                },
            }
        },
    }
}

fn find_name_reference(tree: &SyntaxTree, kind: ReferenceKind, n: usize) -> (r: Option<
    WrittenReference,
>)
    ensures
        optional_view(r) == name_reference(*tree, kind, n),
{
    let name = match tree.node_text(n) {
        None => {
            return None;
        },
        Some(name) => name,
    };
    let arity = if kind == ReferenceKind::Call {
        find_name_arity(tree, n)
    } else {
        None
    };
    let access = match find_parent_of_kind(tree, n, Kind::FieldExpression) {
        None => None,
        Some(access) => if tree.child_by_field(access, Field::Field) == Some(n) {
            Some(access)
        } else {
            None
        },
    };
    let (text, receiver) = match access {
        Some(access) => {
            let text = match tree.node_text(access) {
                None => {
                    return None;
                },
                Some(text) => Text::from_bytes(text),
            };
            let receiver = match find_role_text(tree, access, Field::Argument) {
                None => None,
                Some(receiver) => Some(Text::from_bytes(receiver)),
            };
            (text, receiver)
        },
        None => {
            let (text, receiver) = qualified_call_text_and_receiver(tree, n, name);
            let receiver = match receiver {
                None => None,
                Some(receiver) => Some(Text::from_vec(receiver)),
            };
            (Text::from_vec(text), receiver)
        },
    };
    Some(
        WrittenReference {
            kind,
            text,
            name: Text::from_bytes(name),
            range: tree.range(n),
            receiver,
            arity,
        },
    )
}

/// What the callee of a call refers to.
pub open spec fn callee_reference(tree: SyntaxTree, n: usize) -> Option<WrittenReferenceView> {
    match tree.parent_of(n) {
        None => None,
        Some(call) => match tree.child_in_role(call, Field::Arguments) {
            None => None,
            Some(list) => if is_attribute_entry(tree, call) {
                None
            } else if has_stray(tree, call, n, list) {
                match slice_of(
                    tree.text(),
                    tree.range_of(call).start_byte as int,
                    tree.range_of(list).start_byte as int,
                ) {
                    None => None,
                    Some(text) => Some(
                        plain_call(
                            text,
                            text,
                            callee_range(tree, call, list),
                            arity_of(tree, call),
                        ),
                    ),
                }
            } else if is_conversion(tree, n) {
                None
            } else if lambda_call(tree, n) is Some {
                lambda_call(tree, n)
            } else {
                match called_name(tree, n) {
                    Some(name) => name_reference(tree, ReferenceKind::Call, name),
                    None => match tree.text_of(n) {
                        None => None,
                        Some(text) => Some(
                            plain_call(text, text, tree.range_of(n), arity_of(tree, call)),
                        ),
                    },
                }
            },
        },
    }
}

/// What a captured node refers to.
pub open spec fn reference_at(tree: SyntaxTree, capture: Seq<u8>, n: usize) -> Option<
    WrittenReferenceView,
> {
    if is_capture(capture, "reference.expression_call") {
        callee_reference(tree, n)
    } else {
        match reference_kind(capture) {
            None => None,
            Some(kind) => name_reference(tree, kind, n),
        }
    }
}

fn find_callee_reference(tree: &SyntaxTree, n: usize) -> (r: Option<WrittenReference>)
    ensures
        optional_view(r) == callee_reference(*tree, n),
{
    let call = match tree.parent(n) {
        None => {
            return None;
        },
        Some(call) => call,
    };
    if is_attribute_call(tree, call) {
        return None;
    }
    let list = match tree.child_by_field(call, Field::Arguments) {
        None => {
            return None;
        },
        Some(list) => list,
    };
    if find_stray(tree, call, n, list) {
        let at = tree.range(list);
        let mut range = tree.range(call);
        let text = match get_slice(
            tree.source(),
            range.start_byte as usize,
            at.start_byte as usize,
        ) {
            None => {
                return None;
            },
            Some(text) => text,
        };
        range.end_byte = at.start_byte;
        range.end_line = at.start_line;
        range.end_column = at.start_column;
        return Some(make_call(text, copy_bytes(text), range, call_arity(tree, call)));
    }
    if is_conversion_callee(tree, n) {
        return None;
    }
    if let Some(found) = reference(tree, n) {
        return Some(found);
    }
    match callee_name(tree, n) {
        Some(name) => find_name_reference(tree, ReferenceKind::Call, name),
        None => match tree.node_text(n) {
            None => None,
            Some(text) => Some(
                make_call(text, copy_bytes(text), tree.range(n), call_arity(tree, call)),
            ),
        },
    }
}

/// What a captured node refers to.
pub fn normalize_cpp_reference(tree: &SyntaxTree, capture: &str, n: usize) -> (r: Option<
    WrittenReference,
>)
    ensures
        optional_view(r) == reference_at(*tree, capture.spec_bytes(), n),
{
    if capture_is(capture, "reference.expression_call") {
        return find_callee_reference(tree, n);
    }
    match cpp_reference_kind(capture) {
        None => None,
        Some(kind) => find_name_reference(tree, kind, n),
    }
}

/// The reference in a file. Which symbol it comes from is found out later.
pub fn make_reference_use(file_id: FileId, written: WrittenReference) -> (r: ReferenceUse)
    ensures
        r.id == ReferenceId::generated(
            file_id,
            None,
            written@.range.start_byte,
            written@.range.end_byte,
            written@.text,
            written@.kind.name().spec_bytes(),
        ),
        r.file_id == file_id,
        r.source_symbol is None,
        r.scope_id is None,
        r.kind == written@.kind,
        r.text@ == written@.text,
        r.name@ == written@.name,
        optional_bytes(r.receiver) == written@.receiver,
        r.arity == written@.arity,
        r.range == written@.range,
        r.binding_id is None,
        r.resolved is None,
{
    ReferenceUse {
        id: ReferenceId::generate(
            &file_id,
            None,
            written.range.start_byte,
            written.range.end_byte,
            written.text.as_bytes(),
            written.kind.as_str(),
        ),
        file_id,
        source_symbol: None,
        scope_id: None,
        kind: written.kind,
        text: written.text,
        name: written.name,
        receiver: written.receiver,
        arity: written.arity,
        range: written.range,
        binding_id: None,
        resolved: None,
    }
}

/// A pair of delimiters.
#[derive(Clone, Copy, PartialEq, Eq, Structural, Debug)]
pub enum Delimiter {
    Paren,
    Bracket,
    Brace,
}

/// The delimiter that a token opens.
pub open spec fn opens(token: Seq<u8>) -> Option<Delimiter> {
    if token_is(token, "(") {
        Some(Delimiter::Paren)
    } else if token_is(token, "[") {
        Some(Delimiter::Bracket)
    } else if token_is(token, "{") {
        Some(Delimiter::Brace)
    } else {
        None
    }
}

/// The delimiter that a token closes.
pub open spec fn closes(token: Seq<u8>) -> Option<Delimiter> {
    if token_is(token, ")") {
        Some(Delimiter::Paren)
    } else if token_is(token, "]") {
        Some(Delimiter::Bracket)
    } else if token_is(token, "}") {
        Some(Delimiter::Brace)
    } else {
        None
    }
}

/// The delimiters that are open behind tokens, and whether a statement ended outside
/// them; nothing where they are not balanced.
pub open spec fn nesting(tokens: Seq<Seq<u8>>) -> Option<(Seq<Delimiter>, bool)>
    decreases tokens.len(),
{
    if tokens.len() == 0 {
        Some((Seq::empty(), false))
    } else {
        let token = tokens.last();
        match nesting(tokens.drop_last()) {
            None => None,
            Some((open, ended)) => match (opens(token), closes(token)) {
                (Some(delimiter), _) => Some((open.push(delimiter), ended)),
                (None, Some(delimiter)) => if open.len() > 0 && open.last() == delimiter {
                    Some((open.drop_last(), ended))
                } else {
                    None
                },
                (None, None) => Some((open, ended || (token_is(token, ";") && open.len() == 0))),
            },
        }
    }
}

/// Whether the written callee of a call goes over the end of a statement: repair can
/// join an initializer and the statement behind it. Text that cannot be read as tokens
/// tells nothing.
pub open spec fn crosses_statement(tree: SyntaxTree, call: usize) -> bool {
    match tree.child_in_role(call, Field::Arguments) {
        None => false,
        Some(list) => match slice_of(
            tree.text(),
            tree.range_of(call).start_byte as int,
            tree.range_of(list).start_byte as int,
        ) {
            None => false,
            Some(prefix) => has_byte(prefix, SEMICOLON) && match tokens_of(prefix) {
                None => false,
                Some(tokens) => nesting(tokens) == Some((Seq::<Delimiter>::empty(), true)),
            },
        },
    }
}

fn opened(token: &[u8]) -> (r: Option<Delimiter>)
    ensures
        r == opens(token@),
{
    if is_token(token, "(") {
        Some(Delimiter::Paren)
    } else if is_token(token, "[") {
        Some(Delimiter::Bracket)
    } else if is_token(token, "{") {
        Some(Delimiter::Brace)
    } else {
        None
    }
}

fn closed(token: &[u8]) -> (r: Option<Delimiter>)
    ensures
        r == closes(token@),
{
    if is_token(token, ")") {
        Some(Delimiter::Paren)
    } else if is_token(token, "]") {
        Some(Delimiter::Bracket)
    } else if is_token(token, "}") {
        Some(Delimiter::Brace)
    } else {
        None
    }
}

proof fn lemma_nesting_stays(tokens: Seq<Seq<u8>>, count: int)
    requires
        0 <= count <= tokens.len(),
        nesting(tokens.take(count)) is None,
    ensures
        nesting(tokens) is None,
    decreases tokens.len(),
{
    if count == tokens.len() {
        assert(tokens.take(count) =~= tokens);
    } else {
        assert(tokens.drop_last().take(count) =~= tokens.take(count));
        lemma_nesting_stays(tokens.drop_last(), count);
    }
}

fn ends_statement(list: &[Vec<u8>]) -> (r: bool)
    ensures
        r == (nesting(byte_views(list@)) == Some((Seq::<Delimiter>::empty(), true))),
{
    let ghost all = byte_views(list@);
    let mut open: Vec<Delimiter> = Vec::new();
    let mut ended = false;
    let mut i: usize = 0;
    assert(all.take(0) =~= Seq::empty());
    while i < list.len()
        invariant
            i <= list@.len(),
            all == byte_views(list@),
            nesting(all.take(i as int)) == Some((open@, ended)),
        decreases list@.len() - i,
    {
        let token = list[i].as_slice();
        proof {
            assert(all.take(i + 1).drop_last() =~= all.take(i as int));
            assert(all.take(i + 1).last() == token@);
            if nesting(all.take(i + 1)) is None {
                lemma_nesting_stays(all, i + 1);
            }
        }
        match (opened(token), closed(token)) {
            (Some(delimiter), _) => {
                open.push(delimiter);
            },
            (None, Some(delimiter)) => {
                let count: usize = open.len();
                if count == 0 || open[count - 1] != delimiter {
                    return false;
                }
                let ghost before = open@;
                open.truncate(count - 1);
                assert(open@ =~= before.drop_last());
            },
            (None, None) => {
                if is_token(token, ";") && open.len() == 0 {
                    ended = true;
                }
            },
        }
        i += 1;
    }
    assert(all.take(i as int) =~= all);
    let r = ended && open.len() == 0;
    assert(open@.len() == 0 ==> open@ =~= Seq::<Delimiter>::empty());
    r
}

/// Whether the written callee of a call goes over the end of a statement.
pub fn call_crosses_statement(tree: &SyntaxTree, call: usize) -> (r: bool)
    ensures
        r == crosses_statement(*tree, call),
{
    let list = match tree.child_by_field(call, Field::Arguments) {
        None => {
            return false;
        },
        Some(list) => list,
    };
    let prefix = match get_slice(
        tree.source(),
        tree.range(call).start_byte as usize,
        tree.range(list).start_byte as usize,
    ) {
        None => {
            return false;
        },
        Some(prefix) => prefix,
    };
    if !find_byte(prefix, SEMICOLON) {
        return false;
    }
    match tokens(prefix) {
        None => false,
        Some(list) => ends_statement(list.as_slice()),
    }
}

/// The call around a range.
pub open spec fn call_over(tree: SyntaxTree, range: TextRange) -> Option<usize> {
    match tree.node_at(range.start_byte, range.end_byte) {
        None => None,
        Some(n) => tree.first_of(tree.lineage_of(n), seq![Kind::CallExpression], Seq::empty()),
    }
}

/// The call of a reference whose callee goes over the end of a statement.
pub open spec fn crossing_call(tree: SyntaxTree, reference: ReferenceUse) -> Option<usize> {
    if reference.kind != ReferenceKind::Call || !has_byte(reference.text@, SEMICOLON) {
        None
    } else {
        match call_over(tree, reference.range) {
            Some(call) if crosses_statement(tree, call) => Some(call),
            _ => None,
        }
    }
}

/// The references whose callees are each in one statement.
pub open spec fn whole_references(tree: SyntaxTree, references: Seq<ReferenceUse>) -> Seq<
    ReferenceUse,
> {
    references.filter(|r: ReferenceUse| crossing_call(tree, r) is None)
}

/// What is said of a callee that goes over the end of a statement.
pub open spec fn crossing_message() -> Seq<u8> {
    "Recovered callee crosses a statement boundary; inspect this source region or its macro expansion before treating it as a call".spec_bytes()
}

/// What is said of the references whose callees go over the end of a statement.
pub open spec fn crossing_diagnostics(tree: SyntaxTree, references: Seq<ReferenceUse>) -> Seq<
    ExtractDiagnosticView,
>
    decreases references.len(),
{
    if references.len() == 0 {
        Seq::empty()
    } else {
        let before = crossing_diagnostics(tree, references.drop_last());
        match crossing_call(tree, references.last()) {
            None => before,
            Some(call) => before.push(
                ExtractDiagnosticView {
                    level: DiagnosticLevel::Warning,
                    message: crossing_message(),
                    range: Some(tree.range_of(call)),
                },
            ),
        }
    }
}

fn find_crossing_call(tree: &SyntaxTree, reference: &ReferenceUse) -> (r: Option<usize>)
    ensures
        r == crossing_call(*tree, *reference),
{
    if reference.kind != ReferenceKind::Call || !find_byte(reference.text.as_bytes(), SEMICOLON) {
        return None;
    }
    let calls = [Kind::CallExpression];
    let never: [Kind; 0] = [];
    assert(calls@ =~= seq![Kind::CallExpression]);
    assert(never@ =~= Seq::empty());
    match tree.descendant_for_byte_range(reference.range.start_byte, reference.range.end_byte) {
        None => None,
        Some(n) => {
            let around = tree.lineage(n);
            match tree.find_first(around.as_slice(), &calls, &never) {
                None => None,
                Some(call) => if call_crosses_statement(tree, call) {
                    Some(call)
                } else {
                    None
                },
            }
        },
    }
}

/// Whether a reference is left alone: where it was canceled when its turn came, or where
/// its callee is in one statement.
pub open spec fn is_left(tree: SyntaxTree, reference: ReferenceUse, canceled: bool) -> bool {
    canceled || crossing_call(tree, reference) is None
}

/// The references that are left, given at which of them it was canceled.
pub open spec fn left_references(
    tree: SyntaxTree,
    references: Seq<ReferenceUse>,
    canceled: Seq<bool>,
) -> Seq<ReferenceUse>
    decreases references.len(),
{
    if references.len() == 0 {
        Seq::empty()
    } else {
        let before = left_references(tree, references.drop_last(), canceled);
        if is_left(tree, references.last(), canceled[references.len() - 1]) {
            before.push(references.last())
        } else {
            before
        }
    }
}

/// What is said of the references that are not left.
pub open spec fn said_of_dropped(
    tree: SyntaxTree,
    references: Seq<ReferenceUse>,
    canceled: Seq<bool>,
) -> Seq<ExtractDiagnosticView>
    decreases references.len(),
{
    if references.len() == 0 {
        Seq::empty()
    } else {
        let before = said_of_dropped(tree, references.drop_last(), canceled);
        match crossing_call(tree, references.last()) {
            Some(call) if !canceled[references.len() - 1] => before.push(
                ExtractDiagnosticView {
                    level: DiagnosticLevel::Warning,
                    message: crossing_message(),
                    range: Some(tree.range_of(call)),
                },
            ),
            _ => before,
        }
    }
}

/// Whether references and what is said of them are what is left where it was canceled at
/// some of them.
pub open spec fn is_left_over(
    tree: SyntaxTree,
    references: Seq<ReferenceUse>,
    canceled: Seq<bool>,
    left: Seq<ReferenceUse>,
    said: Seq<ExtractDiagnosticView>,
) -> bool {
    &&& canceled.len() == references.len()
    &&& canceled.contains(true)
    &&& left == left_references(tree, references, canceled)
    &&& said == said_of_dropped(tree, references, canceled)
}

proof fn lemma_left_prefix(
    tree: SyntaxTree,
    references: Seq<ReferenceUse>,
    canceled: Seq<bool>,
    more: bool,
)
    requires
        references.len() <= canceled.len(),
    ensures
        left_references(tree, references, canceled.push(more)) == left_references(
            tree,
            references,
            canceled,
        ),
        said_of_dropped(tree, references, canceled.push(more)) == said_of_dropped(
            tree,
            references,
            canceled,
        ),
    decreases references.len(),
{
    if references.len() > 0 {
        lemma_left_prefix(tree, references.drop_last(), canceled, more);
    }
}

/// Drop the references whose callees go over the end of a statement, and say so of each.
/// Whether it was canceled is asked at every reference; one at which it was stays.
pub fn discard_statement_crossing_calls<F: Fn() -> bool>(
    tree: &SyntaxTree,
    references: &mut Vec<ReferenceUse>,
    diagnostics: &mut Vec<ExtractDiagnostic>,
    cancel: &F,
) -> (r: bool)
    requires
        call_requires(*cancel, ()),
    ensures
        r ==> final(references)@ == whole_references(*tree, old(references)@),
        r ==> views(final(diagnostics)@) == views(old(diagnostics)@) + crossing_diagnostics(
            *tree,
            old(references)@,
        ),
        r && old(references)@.len() > 0 ==> call_ensures(*cancel, (), false),
        !r ==> call_ensures(*cancel, (), true),
        !r ==> exists|canceled: Seq<bool>, said: Seq<ExtractDiagnosticView>| #[trigger]
            is_left_over(*tree, old(references)@, canceled, final(references)@, said) && views(
                final(diagnostics)@,
            ) == views(old(diagnostics)@) + said,
{
    let ghost all = references@;
    let ghost start = views(diagnostics@);
    let ghost keep = |r: ReferenceUse| crossing_call(*tree, r) is None;
    let ghost mut canceled: Seq<bool> = Seq::empty();
    let mut stopped = false;
    let mut kept: Vec<ReferenceUse> = Vec::new();
    let mut said: Vec<ExtractDiagnostic> = Vec::new();
    let mut i: usize = 0;
    assert(all.take(0).filter(keep) =~= Seq::empty()) by {
        reveal(Seq::filter);
    }
    assert(views(said@) =~= crossing_diagnostics(*tree, all.take(0)));
    assert(views(said@) =~= said_of_dropped(*tree, all.take(0), canceled));
    while i < references.len()
        invariant
            i <= references@.len(),
            *references == *old(references),
            *diagnostics == *old(diagnostics),
            references@ == all,
            call_requires(*cancel, ()),
            keep == (|r: ReferenceUse| crossing_call(*tree, r) is None),
            !stopped ==> kept@ == all.take(i as int).filter(keep),
            !stopped ==> views(said@) == crossing_diagnostics(*tree, all.take(i as int)),
            stopped ==> call_ensures(*cancel, (), true),
            !stopped && i > 0 ==> call_ensures(*cancel, (), false),
            canceled.len() == i,
            stopped ==> canceled.contains(true),
            kept@ == left_references(*tree, all.take(i as int), canceled),
            views(said@) == said_of_dropped(*tree, all.take(i as int), canceled),
        decreases references@.len() - i,
    {
        let ghost asked = canceled;
        proof {
            crate::collections::lemma_filter_step(all, keep, i as int);
            assert(all.take(i + 1).drop_last() =~= all.take(i as int));
        }
        let now = cancel();
        proof {
            canceled = asked.push(now);
            lemma_left_prefix(*tree, all.take(i as int), asked, now);
            if stopped {
                let k = choose|k: int| 0 <= k < asked.len() && asked[k] == true;
                assert(canceled[k] == true);
            }
        }
        if now {
            stopped = true;
            assert(canceled[i as int] == true);
            kept.push(references[i].clone());
        } else {
            match find_crossing_call(tree, &references[i]) {
                None => {
                    kept.push(references[i].clone());
                },
                Some(call) => {
                    let item = ExtractDiagnostic {
                        level: DiagnosticLevel::Warning,
                        message: Text::new(
                            "Recovered callee crosses a statement boundary; inspect this source region or its macro expansion before treating it as a call",
                        ),
                        range: Some(tree.range(call)),
                    };
                    let ghost before = said@;
                    said.push(item);
                    proof {
                        lemma_push_view(before, item);
                    }
                },
            }
        }
        i += 1;
    }
    assert(all.take(i as int) =~= all);
    *references = kept;
    let ghost first = diagnostics@;
    let ghost more = said@;
    diagnostics.append(&mut said);
    assert(views(diagnostics@) =~= views(first) + views(more));
    assert(stopped ==> is_left_over(*tree, all, canceled, references@, views(more)));
    !stopped
}

/// A call is dropped only where something is said of its place: as many references are
/// dropped as are reported, and none of another kind is.
pub proof fn dropped_calls_are_reported(tree: SyntaxTree, references: Seq<ReferenceUse>)
    ensures
        whole_references(tree, references).len() + crossing_diagnostics(tree, references).len()
            == references.len(),
        forall|i: int|
            0 <= i < references.len() && (#[trigger] references[i]).kind != ReferenceKind::Call
                ==> whole_references(tree, references).contains(references[i]),
    decreases references.len(),
{
    let keep = |r: ReferenceUse| crossing_call(tree, r) is None;
    assert forall|i: int|
        0 <= i < references.len() && (#[trigger] references[i]).kind
            != ReferenceKind::Call implies whole_references(tree, references).contains(
        references[i],
    ) by {
        references.lemma_filter_contains(keep, i);
    }
    if references.len() == 0 {
        reveal(Seq::filter);
    } else {
        let n = references.len() - 1;
        dropped_calls_are_reported(tree, references.drop_last());
        assert(references.take(n) =~= references.drop_last());
        assert(references.take(n + 1) =~= references);
        crate::collections::lemma_filter_step(references, keep, n);
    }
}

proof fn lemma_captures_differ()
    ensures
        "reference.call".spec_bytes() != "reference.expression_call".spec_bytes(),
        "reference.type".spec_bytes() != "reference.expression_call".spec_bytes(),
        "reference.field".spec_bytes() != "reference.expression_call".spec_bytes(),
        "reference.call".spec_bytes() != "reference.type".spec_bytes(),
        "reference.call".spec_bytes() != "reference.field".spec_bytes(),
        "reference.type".spec_bytes() != "reference.field".spec_bytes(),
{
    reveal_strlit("reference.call");
    reveal_strlit("reference.type");
    reveal_strlit("reference.field");
    reveal_strlit("reference.expression_call");
    let (call, ty, field, callee) = (
        "reference.call",
        "reference.type",
        "reference.field",
        "reference.expression_call",
    );
    assert(call@[10] == 'c' && ty@[10] == 't');
    assert(call@.len() == 14 && ty@.len() == 14 && field@.len() == 15 && callee@.len() == 25);
    if call.spec_bytes() == callee.spec_bytes() {
        lemma_bytes_tell_text(call, callee);
    }
    if ty.spec_bytes() == callee.spec_bytes() {
        lemma_bytes_tell_text(ty, callee);
    }
    if field.spec_bytes() == callee.spec_bytes() {
        lemma_bytes_tell_text(field, callee);
    }
    if call.spec_bytes() == ty.spec_bytes() {
        lemma_bytes_tell_text(call, ty);
    }
    if call.spec_bytes() == field.spec_bytes() {
        lemma_bytes_tell_text(call, field);
    }
    if ty.spec_bytes() == field.spec_bytes() {
        lemma_bytes_tell_text(ty, field);
    }
}

/// How a capture of a name is recorded: calls, types and fields, each as what it is.
pub open spec fn records_as(capture: &str, kind: ReferenceKind) -> bool {
    ||| capture@ == "reference.call"@ && kind == ReferenceKind::Call
    ||| capture@ == "reference.type"@ && kind == ReferenceKind::TypeReference
    ||| capture@ == "reference.field"@ && kind == ReferenceKind::FieldAccess
}

/// Whether a node is part of a qualified name.
pub open spec fn is_qualified(tree: SyntaxTree, n: usize) -> bool {
    tree.parent_of(n) is Some && tree.kind_of(tree.parent_of(n)->0) == Kind::QualifiedIdentifier
}

/// Whether a node is the member that an access names.
pub open spec fn is_member_of(tree: SyntaxTree, n: usize, access: usize) -> bool {
    tree.parent_of(n) == Some(access) && tree.kind_of(access) == Kind::FieldExpression
        && tree.child_in_role(access, Field::Field) == Some(n)
}

/// Every captured name is recorded as it is written: a call, a type or a field whose text can
/// be read and that is neither part of a qualified name nor the member of an access gives a
/// reference of its kind, with the text of the node as its text and its name, at the range of
/// the node and without a receiver. Types and fields have no arguments.
pub proof fn a_name_is_recorded_as_it_is_written(
    tree: SyntaxTree,
    capture: &str,
    kind: ReferenceKind,
    n: usize,
    name: Seq<u8>,
)
    requires
        records_as(capture, kind),
        tree.text_of(n) == Some(name),
        !is_qualified(tree, n),
        forall|access: usize| !#[trigger] is_member_of(tree, n, access),
    ensures
        ({
            let found = reference_at(tree, capture.spec_bytes(), n);
            &&& found is Some
            &&& found->0.kind == kind
            &&& found->0.text == name
            &&& found->0.name == name
            &&& found->0.range == tree.range_of(n)
            &&& found->0.receiver is None
            &&& kind != ReferenceKind::Call ==> found->0.arity is None
        }),
{
    lemma_captures_differ();
    assert(reference_kind(capture.spec_bytes()) == Some(kind));
    if access_of(tree, n) is Some {
        assert(is_member_of(tree, n, access_of(tree, n)->0));
    }
    assert(qualified_around(tree, n) is None);
}

/// A member is recorded with the access around it: the text is that of the access, the name
/// that of the member, and the receiver that of what is accessed.
pub proof fn a_member_is_recorded_with_its_access(
    tree: SyntaxTree,
    capture: &str,
    kind: ReferenceKind,
    n: usize,
    access: usize,
    name: Seq<u8>,
    text: Seq<u8>,
)
    requires
        records_as(capture, kind),
        tree.text_of(n) == Some(name),
        is_member_of(tree, n, access),
        tree.text_of(access) == Some(text),
    ensures
        ({
            let found = reference_at(tree, capture.spec_bytes(), n);
            &&& found is Some
            &&& found->0.kind == kind
            &&& found->0.text == text
            &&& found->0.name == name
            &&& found->0.range == tree.range_of(n)
            &&& match tree.child_in_role(access, Field::Argument) {
                Some(object) => found->0.receiver == tree.text_of(object),
                None => found->0.receiver is None,
            }
            &&& kind != ReferenceKind::Call ==> found->0.arity is None
        }),
{
    lemma_captures_differ();
    assert(reference_kind(capture.spec_bytes()) == Some(kind));
}

/// Whether the last two colons of a name that stand together begin at a place.
pub open spec fn is_last_separator(name: Seq<u8>, at: int) -> bool {
    &&& 0 <= at < name.len() - 1
    &&& name[at] == 58
    &&& name[at + 1] == 58
    &&& forall|later: int|
        at < later < name.len() - 1 ==> !(#[trigger] name[later] == 58 && name[later + 1] == 58)
}

proof fn lemma_last_separator(name: Seq<u8>, before: int, at: int)
    requires
        is_last_separator(name, at),
        at < before <= name.len(),
        name.len() <= usize::MAX,
    ensures
        last_separator(name, before) == Some(at as usize),
    decreases before,
{
    if at < before - 1 {
        lemma_last_separator(name, before - 1, at);
    }
}

proof fn lemma_no_separator(name: Seq<u8>, before: int)
    requires
        before <= name.len(),
        forall|at: int| !#[trigger] is_last_separator(name, at),
    ensures
        last_separator(name, before) is None,
    decreases name.len() - before,
{
    if before < name.len() {
        lemma_no_separator(name, before + 1);
    } else {
        lemma_separator_is_last(name, name.len() as int);
    }
}

proof fn lemma_separator_is_last(name: Seq<u8>, before: int)
    requires
        before <= name.len(),
        forall|later: int|
            before <= later < name.len() - 1 ==> !(#[trigger] name[later] == 58 && name[later + 1]
                == 58),
    ensures
        last_separator(name, before) is Some ==> exists|at: int| #[trigger]
            is_last_separator(name, at),
    decreases before,
{
    if before > 0 {
        if 0 <= before - 1 < name.len() - 1 && name[before - 1] == 58 && name[before] == 58 {
            assert(is_last_separator(name, before - 1));
        } else {
            lemma_separator_is_last(name, before - 1);
        }
    }
}

/// A part of a qualified name is recorded with the whole of it: the text is that of the
/// outermost qualified name, the name that of the part, and the receiver is what stands
/// before the last two colons.
pub proof fn a_qualified_name_is_recorded_whole(
    tree: SyntaxTree,
    capture: &str,
    kind: ReferenceKind,
    n: usize,
    whole: usize,
    name: Seq<u8>,
    text: Seq<u8>,
)
    requires
        records_as(capture, kind),
        tree.text_of(n) == Some(name),
        is_qualified(tree, n),
        tree.parent_of(n) == Some(whole),
        !is_qualified(tree, whole),
        tree.text_of(whole) == Some(text),
        text.len() <= usize::MAX,
    ensures
        ({
            let found = reference_at(tree, capture.spec_bytes(), n);
            &&& found is Some
            &&& found->0.kind == kind
            &&& found->0.text == text
            &&& found->0.name == name
            &&& found->0.range == tree.range_of(n)
            &&& forall|at: int| #[trigger]
                is_last_separator(text, at) && at > 0 ==> found->0.receiver == Some(text.take(at))
            &&& (forall|at: int| !#[trigger] is_last_separator(text, at))
                ==> found->0.receiver is None
            &&& kind != ReferenceKind::Call ==> found->0.arity is None
        }),
{
    lemma_captures_differ();
    assert(reference_kind(capture.spec_bytes()) == Some(kind));
    reveal_with_fuel(qualified_around, 2);
    assert(access_of(tree, n) is None);
    assert forall|at: int| #[trigger] is_last_separator(text, at) && at > 0 implies prefix_of(text)
        == Some(text.take(at)) by {
        lemma_last_separator(text, text.len() as int, at);
    }
    if forall|at: int| !#[trigger] is_last_separator(text, at) {
        lemma_no_separator(text, text.len() as int);
    }
}

/// A function that is called by its name is recorded as a call of that name, with the
/// number of its arguments where the argument list is complete and expands no pack.
pub proof fn a_called_name_is_recorded(
    tree: SyntaxTree,
    capture: &str,
    n: usize,
    call: usize,
    list: usize,
    name: Seq<u8>,
)
    requires
        capture@ == "reference.call"@ || (capture@ == "reference.expression_call"@
            && !is_attribute_entry(tree, call) && !has_stray(tree, call, n, list)),
        tree.kind_of(n) == Kind::Identifier,
        tree.text_of(n) == Some(name),
        tree.parent_of(n) == Some(call),
        tree.kind_of(call) == Kind::CallExpression,
        tree.child_in_role(call, Field::Function) == Some(n),
        tree.child_in_role(call, Field::Arguments) == Some(list),
        !tree.node(list).has_error,
        forall|i: int|
            0 <= i < tree.parts_of(list).len() ==> tree.kind_of(#[trigger] tree.parts_of(list)[i])
                != Kind::ParameterPackExpansion,
        tree.parts_of(list).len() <= u32::MAX,
    ensures
        ({
            let found = reference_at(tree, capture.spec_bytes(), n);
            &&& found is Some
            &&& found->0.kind == ReferenceKind::Call
            &&& found->0.text == name
            &&& found->0.name == name
            &&& found->0.range == tree.range_of(n)
            &&& found->0.receiver is None
            &&& found->0.arity == Some(tree.parts_of(list).len() as u32)
        }),
{
    lemma_captures_differ();
    assert(access_of(tree, n) is None);
    assert(qualified_around(tree, n) is None);
    assert(lambda_call(tree, n) is None);
    assert(called_name(tree, n) == Some(n));
    assert(!tree.has_one_of(tree.parts_of(list), seq![Kind::ParameterPackExpansion]));
    assert(name_arity(tree, n) == arity_of(tree, call));
}

} // verus!
