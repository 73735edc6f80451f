//! Which C++ declarations are initializers with nested calls.
//!
//! A grammar without names can read `Result r(f(x, y));` as a prototype. A visible
//! name that is no type rules a type out at its place. Parentheses around the
//! expression then select the other reading; unlike braces, they do not change which
//! constructor is selected. The inserted parentheses are taken out of the positions
//! again: the text and the form of the initialization never change.

use crate::collections::{arrange, in_order, key_views};
use crate::cpp_tokens::{CLOSE, OPEN};
use crate::syntax::{Field, Kind, SyntaxTree};
use crate::text::{append_bytes, byte_views, copy_bytes, same_bytes};
use vstd::prelude::*;

verus! {

broadcast use {SyntaxTree::parent_comes_first, SyntaxTree::children_come_later};

/// What a name is known to stand for.
#[derive(Clone, Copy, PartialEq, Eq, Structural, Debug)]
pub enum NameKind {
    NonType,
    Type,
    Unknown,
}

/// The text of a node; empty where its range is not in the text.
pub open spec fn text_in(tree: SyntaxTree, n: usize) -> Seq<u8> {
    match tree.text_of(n) {
        None => Seq::empty(),
        Some(text) => text,
    }
}

/// The text of a node; empty where its range is not in the text.
pub fn find_text(tree: &SyntaxTree, n: usize) -> (r: &[u8])
    ensures
        r@ == text_in(*tree, n),
{
    match tree.node_text(n) {
        None => {
            let none = &tree.source()[0..0];
            assert(none@ =~= Seq::empty());
            none
        },
        Some(text) => text,
    }
}

/// The name that a declarator declares.
pub open spec fn named_by(tree: SyntaxTree, n: usize) -> Option<usize>
    decreases tree.count() - n,
    via named_by_decreases
{
    if tree.kind_of(n) == Kind::Identifier || tree.kind_of(n) == Kind::QualifiedIdentifier {
        Some(n)
    } else {
        match tree.child_in_role(n, Field::Declarator) {
            None => None,
            Some(inner) => named_by(tree, inner),
        }
    }
}

#[via_fn]
proof fn named_by_decreases(tree: SyntaxTree, n: usize) {
    tree.child_in_role_is_child(n, Field::Declarator);
}

/// The name that a declarator declares.
pub fn declarator_name(tree: &SyntaxTree, declarator: usize) -> (r: Option<usize>)
    ensures
        r == named_by(*tree, declarator),
{
    let mut n: usize = declarator;
    loop
        invariant
            named_by(*tree, declarator) == named_by(*tree, n),
        decreases tree.count() - n,
    {
        proof {
            tree.child_in_role_is_child(n, Field::Declarator);
        }
        if matches!(tree.kind(n), Kind::Identifier | Kind::QualifiedIdentifier) {
            return Some(n);
        }
        match tree.child_by_field(n, Field::Declarator) {
            None => {
                return None;
            },
            Some(inner) => {
                n = inner;
            },
        }
    }
}

/// Whether a declarator is a name, or a function or variable directly around one.
pub open spec fn is_direct(tree: SyntaxTree, n: usize) -> bool
    decreases tree.count() - n,
    via is_direct_decreases
{
    if tree.kind_of(n) == Kind::InitDeclarator || tree.kind_of(n) == Kind::FunctionDeclarator {
        match tree.child_in_role(n, Field::Declarator) {
            None => false,
            Some(inner) => is_direct(tree, inner),
        }
    } else {
        tree.kind_of(n) == Kind::Identifier || tree.kind_of(n) == Kind::QualifiedIdentifier
    }
}

#[via_fn]
proof fn is_direct_decreases(tree: SyntaxTree, n: usize) {
    tree.child_in_role_is_child(n, Field::Declarator);
}

/// Whether a declarator is a name, or a function or variable directly around one.
pub fn direct_name(tree: &SyntaxTree, declarator: usize) -> (r: bool)
    ensures
        r == is_direct(*tree, declarator),
{
    let mut n: usize = declarator;
    loop
        invariant
            is_direct(*tree, declarator) == is_direct(*tree, n),
        decreases tree.count() - n,
    {
        proof {
            tree.child_in_role_is_child(n, Field::Declarator);
        }
        if !matches!(tree.kind(n), Kind::InitDeclarator | Kind::FunctionDeclarator) {
            return matches!(tree.kind(n), Kind::Identifier | Kind::QualifiedIdentifier);
        }
        match tree.child_by_field(n, Field::Declarator) {
            None => {
                return false;
            },
            Some(inner) => {
                n = inner;
            },
        }
    }
}

/// Whether a type is written as a plain name: one of its first named children that is
/// neither a comment nor a plain name makes it none.
pub open spec fn is_plain_name(tree: SyntaxTree, n: usize) -> bool
    decreases tree.count() - n, 1int, 0int,
{
    match tree.kind_of(n) {
        Kind::TypeIdentifier | Kind::NamespaceIdentifier => true,
        Kind::QualifiedIdentifier => are_plain_names(tree, n, tree.named_children_of(n).len()),
        _ => false,
    }
}

/// Whether the first named children of a node are plain names or comments.
pub open spec fn are_plain_names(tree: SyntaxTree, n: usize, count: nat) -> bool
    decreases tree.count() - n, 0int, count,
    via are_plain_names_decreases
{
    if count == 0 || count > tree.named_children_of(n).len() {
        true
    } else {
        let c = tree.named_children_of(n)[count - 1];
        are_plain_names(tree, n, (count - 1) as nat) && (tree.kind_of(c) == Kind::Comment
            || is_plain_name(tree, c))
    }
}

#[via_fn]
proof fn are_plain_names_decreases(tree: SyntaxTree, n: usize, count: nat) {
    if count > 0 && count <= tree.named_children_of(n).len() {
        tree.named_children_are_children(n, count - 1);
    }
}

proof fn lemma_plain_names_stay(tree: SyntaxTree, n: usize, count: nat, more: nat)
    requires
        count <= more <= tree.named_children_of(n).len(),
        !are_plain_names(tree, n, count),
    ensures
        !are_plain_names(tree, n, more),
    decreases more,
{
    if count < more {
        lemma_plain_names_stay(tree, n, count, (more - 1) as nat);
    }
}

/// Whether a type is written as a plain name.
pub fn plain_type_name(tree: &SyntaxTree, n: usize) -> (r: bool)
    ensures
        r == is_plain_name(*tree, n),
    decreases tree.count() - n,
{
    match tree.kind(n) {
        Kind::TypeIdentifier | Kind::NamespaceIdentifier => true,
        Kind::QualifiedIdentifier => {
            let children = tree.named_children(n);
            let mut i: usize = 0;
            while i < children.len()
                invariant
                    i <= children@.len(),
                    children@ == tree.named_children_of(n),
                    tree.kind_of(n) == Kind::QualifiedIdentifier,
                    are_plain_names(*tree, n, i as nat),
                decreases children@.len() - i,
            {
                let c: usize = children[i];
                proof {
                    tree.named_children_are_children(n, i as int);
                }
                if tree.kind(c) != Kind::Comment && !plain_type_name(tree, c) {
                    proof {
                        lemma_plain_names_stay(
                            *tree,
                            n,
                            (i + 1) as nat,
                            children@.len(),
                        );
                    }
                    return false;
                }
                i += 1;
            }
            true
        },
        _ => false,
    }
}

/// Whether a text is one of some names.
pub open spec fn is_named(names: Seq<Seq<u8>>, text: Seq<u8>) -> bool {
    names.contains(text)
}

/// Whether a node, or a named node inside it, is the name of a macro.
pub open spec fn has_macro_name(tree: SyntaxTree, macros: Seq<Seq<u8>>, n: usize) -> bool {
    exists|k: int|
        0 <= k < tree.named_preorder(n).len() && is_named(
            macros,
            text_in(tree, #[trigger] tree.named_preorder(n)[k]),
        )
}

fn contains_macro(tree: &SyntaxTree, macros: &[Vec<u8>], n: usize) -> (r: bool)
    ensures
        r == has_macro_name(*tree, byte_views(macros@), n),
{
    let nodes = tree.named_descendants(n);
    let mut i: usize = 0;
    while i < nodes.len()
        invariant
            i <= nodes@.len(),
            nodes@ == tree.named_preorder(n),
            forall|k: int|
                0 <= k < i ==> !is_named(
                    byte_views(macros@),
                    text_in(*tree, #[trigger] tree.named_preorder(n)[k]),
                ),
        decreases nodes@.len() - i,
    {
        if crate::cpp_annotations::holds_bytes(macros, find_text(tree, nodes[i])) {
            assert(is_named(
                byte_views(macros@),
                text_in(*tree, tree.named_preorder(n)[i as int]),
            ));
            return true;
        }
        i += 1;
    }
    false
}

/// The first of some declarators that declares a name.
pub open spec fn declares(tree: SyntaxTree, declarators: Seq<usize>, name: Seq<u8>) -> Option<usize>
    decreases declarators.len(),
{
    if declarators.len() == 0 {
        None
    } else {
        match named_by(tree, declarators[0]) {
            Some(own) if text_in(tree, own) == name => Some(declarators[0]),
            _ => declares(tree, declarators.drop_first(), name),
        }
    }
}

fn find_declares(tree: &SyntaxTree, declarators: &[usize], name: &[u8]) -> (r: Option<usize>)
    ensures
        r == declares(*tree, declarators@, name@),
{
    let mut i: usize = 0;
    assert(declarators@.skip(0) =~= declarators@);
    while i < declarators.len()
        invariant
            i <= declarators@.len(),
            declares(*tree, declarators@, name@) == declares(
                *tree,
                declarators@.skip(i as int),
                name@,
            ),
        decreases declarators@.len() - i,
    {
        assert(declarators@.skip(i as int).drop_first() =~= declarators@.skip(i + 1));
        if let Some(own) = declarator_name(tree, declarators[i]) {
            if same_bytes(find_text(tree, own), name) {
                return Some(declarators[i]);
            }
        }
        i += 1;
    }
    None
}

/// Whether a node is a type of its own.
pub open spec fn is_written_type(kind: Kind) -> bool {
    match kind {
        Kind::PrimitiveType
        | Kind::SizedTypeSpecifier
        | Kind::PlaceholderTypeSpecifier
        | Kind::StructSpecifier
        | Kind::ClassSpecifier => true,
        _ => false,
    }
}

/// What a declaration says of a name. A function and a variable both introduce a
/// name that is no type. `T(x);` and `T * x;` can be expressions, so those need a
/// known type; only a type written as a plain name next to the declared name rules
/// an expression out by itself. A directive can add names that are not seen here.
pub open spec fn declaration_says(
    tree: SyntaxTree,
    macros: Seq<Seq<u8>>,
    node: usize,
    name: Seq<u8>,
    depth: nat,
) -> Option<NameKind>
    decreases 18 - depth, 1int, 0int,
{
    let kind = tree.kind_of(node);
    if kind == Kind::Error || tree.node(node).preprocessor {
        Some(NameKind::Unknown)
    } else {
        match kind {
            Kind::ExpressionStatement => if has_macro_name(tree, macros, node) {
                Some(NameKind::Unknown)
            } else {
                None
            },
            Kind::AliasDeclaration
            | Kind::ClassSpecifier
            | Kind::StructSpecifier
            | Kind::EnumSpecifier => match tree.child_in_role(node, Field::Name) {
                Some(own) if text_in(tree, own) == name => Some(
                    if tree.node(node).has_error {
                        NameKind::Unknown
                    } else {
                        NameKind::Type
                    },
                ),
                _ => None,
            },
            Kind::UsingDeclaration => Some(NameKind::Unknown),
            Kind::Declaration | Kind::FunctionDefinition | Kind::TypeDefinition => match declares(
                tree,
                tree.children_in_role(node, Field::Declarator),
                name,
            ) {
                None => None,
                Some(declarator) => {
                    let ty = tree.child_in_role(node, Field::Type);
                    if tree.node(declarator).has_error || (ty is Some && has_macro_name(
                        tree,
                        macros,
                        ty->0,
                    )) {
                        Some(NameKind::Unknown)
                    } else if kind == Kind::TypeDefinition {
                        Some(NameKind::Type)
                    } else if ty is Some && ((is_direct(tree, declarator) && is_plain_name(
                        tree,
                        ty->0,
                    )) || is_written_type(tree.kind_of(ty->0)) || (depth <= 16 && name_says(
                        tree,
                        macros,
                        ty->0,
                        depth + 1,
                    ) == NameKind::Type)) {
                        Some(NameKind::NonType)
                    } else {
                        Some(NameKind::Unknown)
                    }
                },
            },
            _ => None,
        }
    }
}

/// What the nearest of some declarations that end before a place says of a name. The
/// declarations come nearest first.
pub open spec fn nearest_says(
    tree: SyntaxTree,
    macros: Seq<Seq<u8>>,
    declarations: Seq<usize>,
    before: u32,
    name: Seq<u8>,
    depth: nat,
) -> Option<NameKind>
    decreases 18 - depth, 2int, declarations.len(),
{
    if declarations.len() == 0 {
        None
    } else {
        let said = if tree.range_of(declarations[0]).end_byte > before {
            None
        } else {
            declaration_says(tree, macros, declarations[0], name, depth)
        };
        match said {
            Some(kind) => Some(kind),
            None => nearest_says(
                tree,
                macros,
                declarations.drop_first(),
                before,
                name,
                depth,
            ),
        }
    }
}

/// The function declarator of a function.
pub open spec fn function_part(tree: SyntaxTree, n: usize) -> Option<usize>
    decreases tree.count() - n,
    via function_part_decreases
{
    if tree.kind_of(n) == Kind::FunctionDeclarator {
        Some(n)
    } else {
        match tree.child_in_role(n, Field::Declarator) {
            None => None,
            Some(inner) => function_part(tree, inner),
        }
    }
}

#[via_fn]
proof fn function_part_decreases(tree: SyntaxTree, n: usize) {
    tree.child_in_role_is_child(n, Field::Declarator);
}

/// Whether one of some parameters has a name.
pub open spec fn has_parameter(tree: SyntaxTree, parameters: Seq<usize>, name: Seq<u8>) -> bool {
    exists|k: int| 0 <= k < parameters.len() && is_parameter(tree, #[trigger] parameters[k], name)
}

/// Whether a parameter has a name.
pub open spec fn is_parameter(tree: SyntaxTree, parameter: usize, name: Seq<u8>) -> bool {
    !tree.node(parameter).has_error && (match tree.child_in_role(parameter, Field::Declarator) {
        None => false,
        Some(declarator) => match named_by(tree, declarator) {
            None => false,
            Some(own) => text_in(tree, own) == name,
        },
    })
}

/// What a function around a use says of a name: one of its parameters is no type. A
/// member that is not seen could hide a name outside of a qualified function.
pub open spec fn function_says(
    tree: SyntaxTree,
    macros: Seq<Seq<u8>>,
    function: usize,
    name: Seq<u8>,
) -> Option<NameKind> {
    let outer = tree.child_in_role(function, Field::Declarator);
    match (if outer is Some {
        function_part(tree, outer->0)
    } else {
        None
    }) {
        None => Some(NameKind::Unknown),
        Some(declarator) => {
            let parameters = tree.child_in_role(declarator, Field::Parameters);
            if tree.node(declarator).has_error || has_macro_name(tree, macros, declarator) {
                Some(NameKind::Unknown)
            } else if parameters is Some && has_parameter(
                tree,
                tree.named_children_of(parameters->0),
                name,
            ) {
                Some(NameKind::NonType)
            } else {
                match named_by(tree, declarator) {
                    Some(own) if tree.kind_of(own) == Kind::Identifier => None,
                    _ => Some(NameKind::Unknown),
                }
            }
        },
    }
}

/// What some scopes say of a name, the innermost first.
pub open spec fn scopes_say(
    tree: SyntaxTree,
    macros: Seq<Seq<u8>>,
    scopes: Seq<usize>,
    before: u32,
    name: Seq<u8>,
    depth: nat,
) -> NameKind
    decreases 18 - depth, 3int, scopes.len(),
{
    if scopes.len() == 0 {
        NameKind::Unknown
    } else {
        let scope = scopes[0];
        let said = match tree.kind_of(scope) {
            Kind::CompoundStatement | Kind::DeclarationList | Kind::TranslationUnit => nearest_says(
                tree,
                macros,
                tree.named_children_of(scope).reverse(),
                before,
                name,
                depth,
            ),
            Kind::FunctionDefinition => function_says(tree, macros, scope, name),
            Kind::ClassSpecifier
            | Kind::StructSpecifier
            | Kind::LambdaExpression
            | Kind::TemplateDeclaration
            | Kind::ForStatement
            | Kind::ForRangeLoop
            | Kind::IfStatement
            | Kind::SwitchStatement
            | Kind::CatchClause => Some(NameKind::Unknown),
            _ => if tree.node(scope).preprocessor {
                Some(NameKind::Unknown)
            } else {
                None
            },
        };
        match said {
            Some(kind) => kind,
            None => scopes_say(tree, macros, scopes.drop_first(), before, name, depth),
        }
    }
}

/// What a name stands for where it is used, as far as visible declarations tell.
pub open spec fn name_says(
    tree: SyntaxTree,
    macros: Seq<Seq<u8>>,
    node: usize,
    depth: nat,
) -> NameKind
    decreases 18 - depth, 4int, 0int,
{
    if (tree.kind_of(node) != Kind::TypeIdentifier && tree.kind_of(node) != Kind::Identifier)
        || depth > 16 || is_named(macros, text_in(tree, node)) {
        NameKind::Unknown
    } else {
        scopes_say(
            tree,
            macros,
            tree.ancestors_of(node),
            tree.range_of(node).start_byte,
            text_in(tree, node),
            depth,
        )
    }
}

/// What a declaration says of a name.
fn declaration(
    tree: &SyntaxTree,
    macros: &[Vec<u8>],
    node: usize,
    name: &[u8],
    depth: usize,
) -> (r: Option<NameKind>)
    requires
        depth <= 16,
    ensures
        r == declaration_says(*tree, byte_views(macros@), node, name@, depth as nat),
    decreases 18 - depth, 1int,
{
    let kind = tree.kind(node);
    let data = tree.data(node);
    if kind == Kind::Error || data.preprocessor {
        return Some(NameKind::Unknown);
    }
    match kind {
        Kind::ExpressionStatement => if contains_macro(tree, macros, node) {
            Some(NameKind::Unknown)
        } else {
            None
        },
        Kind::AliasDeclaration
        | Kind::ClassSpecifier
        | Kind::StructSpecifier
        | Kind::EnumSpecifier => match tree.child_by_field(node, Field::Name) {
            None => None,
            Some(own) => if same_bytes(find_text(tree, own), name) {
                if data.has_error {
                    Some(NameKind::Unknown)
                } else {
                    Some(NameKind::Type)
                }
            } else {
                None
            },
        },
        Kind::UsingDeclaration => Some(NameKind::Unknown),
        Kind::Declaration | Kind::FunctionDefinition | Kind::TypeDefinition => {
            let declarators = tree.children_by_field(node, Field::Declarator);
            let declarator = match find_declares(tree, declarators.as_slice(), name) {
                None => {
                    return None;
                },
                Some(declarator) => declarator,
            };
            if tree.data(declarator).has_error {
                return Some(NameKind::Unknown);
            }
            let ty = tree.child_by_field(node, Field::Type);
            if let Some(ty) = ty {
                if contains_macro(tree, macros, ty) {
                    return Some(NameKind::Unknown);
                }
            }
            if kind == Kind::TypeDefinition {
                return Some(NameKind::Type);
            }
            match ty {
                None => Some(NameKind::Unknown),
                Some(ty) => if (direct_name(tree, declarator) && plain_type_name(tree, ty))
                    || matches!(
                    tree.kind(ty),
                    Kind::PrimitiveType | Kind::SizedTypeSpecifier
                    | Kind::PlaceholderTypeSpecifier | Kind::StructSpecifier | Kind::ClassSpecifier
                ) || lookup(tree, macros, ty, depth + 1) == NameKind::Type {
                    Some(NameKind::NonType)
                } else {
                    Some(NameKind::Unknown)
                },
            }
        },
        _ => None,
    }
}

/// What the nearest declaration of a scope that ends before a place says of a name.
fn nearest(
    tree: &SyntaxTree,
    macros: &[Vec<u8>],
    scope: usize,
    before: u32,
    name: &[u8],
    depth: usize,
) -> (r: Option<NameKind>)
    requires
        depth <= 16,
    ensures
        r == nearest_says(
            *tree,
            byte_views(macros@),
            tree.named_children_of(scope).reverse(),
            before,
            name@,
            depth as nat,
        ),
    decreases 18 - depth, 2int,
{
    let children = tree.named_children(scope);
    let ghost order = children@.reverse();
    let count: usize = children.len();
    let mut i: usize = count;
    assert(order.skip(0) =~= order);
    while i > 0
        invariant
            i <= count,
            depth <= 16,
            count == children@.len(),
            children@ == tree.named_children_of(scope),
            order == children@.reverse(),
            nearest_says(*tree, byte_views(macros@), order, before, name@, depth as nat)
                == nearest_says(
                *tree,
                byte_views(macros@),
                order.skip(count - i),
                before,
                name@,
                depth as nat,
            ),
        decreases i,
    {
        let child: usize = children[i - 1];
        assert(order.skip(count - i)[0] == child);
        assert(order.skip(count - i).drop_first() =~= order.skip(count - i + 1));
        if tree.range(child).end_byte <= before {
            if let Some(kind) = declaration(tree, macros, child, name, depth) {
                return Some(kind);
            }
        }
        i -= 1;
    }
    None
}

fn find_parameter(tree: &SyntaxTree, parameters: &[usize], name: &[u8]) -> (r: bool)
    ensures
        r == has_parameter(*tree, parameters@, name@),
{
    let mut i: usize = 0;
    while i < parameters.len()
        invariant
            i <= parameters@.len(),
            forall|k: int| 0 <= k < i ==> !is_parameter(*tree, #[trigger] parameters@[k], name@),
        decreases parameters@.len() - i,
    {
        let parameter: usize = parameters[i];
        if !tree.data(parameter).has_error {
            if let Some(declarator) = tree.child_by_field(parameter, Field::Declarator) {
                if let Some(own) = declarator_name(tree, declarator) {
                    if same_bytes(find_text(tree, own), name) {
                        assert(is_parameter(*tree, parameters@[i as int], name@));
                        return true;
                    }
                }
            }
        }
        i += 1;
    }
    false
}

fn find_function_part(tree: &SyntaxTree, declarator: usize) -> (r: Option<usize>)
    ensures
        r == function_part(*tree, declarator),
{
    let mut n: usize = declarator;
    loop
        invariant
            function_part(*tree, declarator) == function_part(*tree, n),
        decreases tree.count() - n,
    {
        proof {
            tree.child_in_role_is_child(n, Field::Declarator);
        }
        if tree.kind(n) == Kind::FunctionDeclarator {
            return Some(n);
        }
        match tree.child_by_field(n, Field::Declarator) {
            None => {
                return None;
            },
            Some(inner) => {
                n = inner;
            },
        }
    }
}

fn function_scope(tree: &SyntaxTree, macros: &[Vec<u8>], function: usize, name: &[u8]) -> (r: Option<
    NameKind,
>)
    ensures
        r == function_says(*tree, byte_views(macros@), function, name@),
{
    let declarator = match tree.child_by_field(function, Field::Declarator) {
        None => {
            return Some(NameKind::Unknown);
        },
        Some(outer) => match find_function_part(tree, outer) {
            None => {
                return Some(NameKind::Unknown);
            },
            Some(declarator) => declarator,
        },
    };
    if tree.data(declarator).has_error || contains_macro(tree, macros, declarator) {
        return Some(NameKind::Unknown);
    }
    if let Some(parameters) = tree.child_by_field(declarator, Field::Parameters) {
        let list = tree.named_children(parameters);
        if find_parameter(tree, list.as_slice(), name) {
            return Some(NameKind::NonType);
        }
    }
    match declarator_name(tree, declarator) {
        None => Some(NameKind::Unknown),
        Some(own) => if tree.kind(own) == Kind::Identifier {
            None
        } else {
            Some(NameKind::Unknown)
        },
    }
}

/// What a name stands for where it is used, as far as visible declarations tell.
fn lookup(tree: &SyntaxTree, macros: &[Vec<u8>], node: usize, depth: usize) -> (r: NameKind)
    requires
        depth <= 17,
    ensures
        r == name_says(*tree, byte_views(macros@), node, depth as nat),
    decreases 18 - depth, 4int,
{
    if !matches!(tree.kind(node), Kind::TypeIdentifier | Kind::Identifier) {
        return NameKind::Unknown;
    }
    let name = find_text(tree, node);
    if depth > 16 || crate::cpp_annotations::holds_bytes(macros, name) {
        return NameKind::Unknown;
    }
    let before = tree.range(node).start_byte;
    let scopes = tree.ancestors(node);
    let ghost whole = scopes_say(
        *tree,
        byte_views(macros@),
        scopes@,
        before,
        name@,
        depth as nat,
    );
    let mut i: usize = 0;
    assert(scopes@.skip(0) =~= scopes@);
    while i < scopes.len()
        invariant
            i <= scopes@.len(),
            depth <= 16,
            whole == scopes_say(
                *tree,
                byte_views(macros@),
                scopes@.skip(i as int),
                before,
                name@,
                depth as nat,
            ),
            name_says(*tree, byte_views(macros@), node, depth as nat) == whole,
        decreases scopes@.len() - i,
    {
        let scope: usize = scopes[i];
        assert(scopes@.skip(i as int).drop_first() =~= scopes@.skip(i + 1));
        let said = match tree.kind(scope) {
            Kind::CompoundStatement | Kind::DeclarationList | Kind::TranslationUnit => nearest(
                tree,
                macros,
                scope,
                before,
                name,
                depth,
            ),
            Kind::FunctionDefinition => function_scope(tree, macros, scope, name),
            Kind::ClassSpecifier
            | Kind::StructSpecifier
            | Kind::LambdaExpression
            | Kind::TemplateDeclaration
            | Kind::ForStatement
            | Kind::ForRangeLoop
            | Kind::IfStatement
            | Kind::SwitchStatement
            | Kind::CatchClause => Some(NameKind::Unknown),
            _ => if tree.data(scope).preprocessor {
                Some(NameKind::Unknown)
            } else {
                None
            },
        };
        if let Some(kind) = said {
            return kind;
        }
        i += 1;
    }
    NameKind::Unknown
}

/// An expression that was read as a parameter, and the declaration around it, by
/// their bytes.
#[derive(Clone, Copy, PartialEq, Eq, Structural, Debug)]
pub struct Expression {
    pub start: u32,
    pub end: u32,
    pub declaration_start: u32,
    pub declaration_end: u32,
}

/// Whether a child of a function declarator is neither its name nor its parameters
/// nor a comment: a suffix that belongs to a function.
pub open spec fn is_function_suffix(
    tree: SyntaxTree,
    n: usize,
    name: usize,
    parameters: usize,
) -> bool {
    n != name && n != parameters && tree.kind_of(n) != Kind::Comment
}

/// Whether one of several unnamed parameters is a name that is no type. A single one
/// can declare a parameter of that name.
pub open spec fn needs_value(
    tree: SyntaxTree,
    macros: Seq<Seq<u8>>,
    arguments: Seq<usize>,
) -> bool {
    arguments.len() > 1 && exists|k: int|
        0 <= k < arguments.len() && is_value_argument(tree, macros, #[trigger] arguments[k])
}

/// Whether an unnamed parameter is a name that is no type.
pub open spec fn is_value_argument(tree: SyntaxTree, macros: Seq<Seq<u8>>, n: usize) -> bool {
    tree.kind_of(n) == Kind::ParameterDeclaration && tree.child_in_role(n, Field::Declarator)
        is None && (match tree.child_in_role(n, Field::Type) {
        None => false,
        Some(ty) => name_says(tree, macros, ty, 0) == NameKind::NonType,
    })
}

/// Whether a parameter is an expression in truth: it is written as a call, and its
/// callee, or one of its several arguments, is no type.
pub open spec fn is_expression(tree: SyntaxTree, macros: Seq<Seq<u8>>, n: usize) -> bool {
    tree.kind_of(n) == Kind::ParameterDeclaration && tree.text_of(n) is Some && (match (
        tree.child_in_role(n, Field::Type),
        tree.child_in_role(n, Field::Declarator),
    ) {
        (Some(callee), Some(arguments)) => (tree.kind_of(arguments)
            == Kind::AbstractFunctionDeclarator || tree.kind_of(arguments)
            == Kind::ParenthesizedDeclarator) && (name_says(tree, macros, callee, 0)
            == NameKind::NonType || (match tree.child_in_role(arguments, Field::Parameters) {
            None => false,
            Some(list) => needs_value(tree, macros, tree.parts_of(list)),
        })),
        _ => false,
    })
}

/// The first of some parameters that is an expression in truth.
pub open spec fn first_expression(
    tree: SyntaxTree,
    macros: Seq<Seq<u8>>,
    parameters: Seq<usize>,
) -> Option<usize>
    decreases parameters.len(),
{
    if parameters.len() == 0 {
        None
    } else if is_expression(tree, macros, parameters[0]) {
        Some(parameters[0])
    } else {
        first_expression(tree, macros, parameters.drop_first())
    }
}

/// The expression of a local declaration that was read as a prototype.
pub open spec fn initializer_of(
    tree: SyntaxTree,
    macros: Seq<Seq<u8>>,
    n: usize,
) -> Option<Expression> {
    match (tree.parent_of(n), tree.child_in_role(n, Field::Declarator)) {
        (Some(parent), Some(declarator)) => match (
            tree.child_in_role(declarator, Field::Parameters),
            tree.child_in_role(declarator, Field::Declarator),
        ) {
            (Some(parameters), Some(name)) => if tree.kind_of(n) != Kind::Declaration || tree.node(
                n,
            ).has_error || tree.kind_of(parent) != Kind::CompoundStatement || tree.kind_of(
                declarator,
            ) != Kind::FunctionDeclarator || !is_direct(tree, declarator) || exists|k: int|
                0 <= k < tree.named_children_of(declarator).len() && is_function_suffix(
                    tree,
                    #[trigger] tree.named_children_of(declarator)[k],
                    name,
                    parameters,
                ) {
                None
            } else {
                match first_expression(tree, macros, tree.named_children_of(parameters)) {
                    None => None,
                    Some(parameter) => Some(
                        Expression {
                            start: tree.range_of(parameter).start_byte,
                            end: tree.range_of(parameter).end_byte,
                            declaration_start: tree.range_of(n).start_byte,
                            declaration_end: tree.range_of(n).end_byte,
                        },
                    ),
                }
            },
            _ => None,
        },
        _ => None,
    }
}

fn value_argument(tree: &SyntaxTree, macros: &[Vec<u8>], n: usize) -> (r: bool)
    ensures
        r == is_value_argument(*tree, byte_views(macros@), n),
{
    if tree.kind(n) != Kind::ParameterDeclaration || tree.child_by_field(
        n,
        Field::Declarator,
    ).is_some() {
        return false;
    }
    match tree.child_by_field(n, Field::Type) {
        None => false,
        Some(ty) => lookup(tree, macros, ty, 0) == NameKind::NonType,
    }
}

fn expression(tree: &SyntaxTree, macros: &[Vec<u8>], n: usize) -> (r: bool)
    ensures
        r == is_expression(*tree, byte_views(macros@), n),
{
    if tree.kind(n) != Kind::ParameterDeclaration || tree.node_text(n).is_none() {
        return false;
    }
    let callee = match tree.child_by_field(n, Field::Type) {
        None => {
            return false;
        },
        Some(callee) => callee,
    };
    let arguments = match tree.child_by_field(n, Field::Declarator) {
        None => {
            return false;
        },
        Some(arguments) => arguments,
    };
    if !matches!(
        tree.kind(arguments),
        Kind::AbstractFunctionDeclarator | Kind::ParenthesizedDeclarator
    ) {
        return false;
    }
    if lookup(tree, macros, callee, 0) == NameKind::NonType {
        return true;
    }
    let list = match tree.child_by_field(arguments, Field::Parameters) {
        None => {
            return false;
        },
        Some(list) => list,
    };
    let parts = tree.parts(list);
    if parts.len() <= 1 {
        return false;
    }
    let mut i: usize = 0;
    while i < parts.len()
        invariant
            i <= parts@.len(),
            parts@ == tree.parts_of(list),
            parts@.len() > 1,
            is_expression(*tree, byte_views(macros@), n) == needs_value(
                *tree,
                byte_views(macros@),
                parts@,
            ),
            forall|k: int|
                0 <= k < i ==> !is_value_argument(
                    *tree,
                    byte_views(macros@),
                    #[trigger] parts@[k],
                ),
        decreases parts@.len() - i,
    {
        if value_argument(tree, macros, parts[i]) {
            assert(is_value_argument(*tree, byte_views(macros@), parts@[i as int]));
            return true;
        }
        i += 1;
    }
    false
}

fn has_suffix(tree: &SyntaxTree, children: &[usize], name: usize, parameters: usize) -> (r: bool)
    ensures
        r == exists|k: int|
            0 <= k < children@.len() && is_function_suffix(
                *tree,
                #[trigger] children@[k],
                name,
                parameters,
            ),
{
    let mut i: usize = 0;
    while i < children.len()
        invariant
            i <= children@.len(),
            forall|k: int|
                0 <= k < i ==> !is_function_suffix(
                    *tree,
                    #[trigger] children@[k],
                    name,
                    parameters,
                ),
        decreases children@.len() - i,
    {
        let child: usize = children[i];
        if child != name && child != parameters && tree.kind(child) != Kind::Comment {
            assert(is_function_suffix(*tree, children@[i as int], name, parameters));
            return true;
        }
        i += 1;
    }
    false
}

/// The expression of a local declaration that was read as a prototype.
pub fn initializer(tree: &SyntaxTree, macros: &[Vec<u8>], n: usize) -> (r: Option<Expression>)
    ensures
        r == initializer_of(*tree, byte_views(macros@), n),
{
    if tree.kind(n) != Kind::Declaration || tree.data(n).has_error {
        return None;
    }
    let parent = match tree.parent(n) {
        None => {
            return None;
        },
        Some(parent) => parent,
    };
    if tree.kind(parent) != Kind::CompoundStatement {
        return None;
    }
    let declarator = match tree.child_by_field(n, Field::Declarator) {
        None => {
            return None;
        },
        Some(declarator) => declarator,
    };
    if tree.kind(declarator) != Kind::FunctionDeclarator || !direct_name(tree, declarator) {
        return None;
    }
    let parameters = match tree.child_by_field(declarator, Field::Parameters) {
        None => {
            return None;
        },
        Some(parameters) => parameters,
    };
    let name = match tree.child_by_field(declarator, Field::Declarator) {
        None => {
            return None;
        },
        Some(name) => name,
    };
    let children = tree.named_children(declarator);
    if has_suffix(tree, children.as_slice(), name, parameters) {
        return None;
    }
    let list = tree.named_children(parameters);
    let mut i: usize = 0;
    assert(list@.skip(0) =~= list@);
    while i < list.len()
        invariant
            i <= list@.len(),
            list@ == tree.named_children_of(parameters),
            first_expression(*tree, byte_views(macros@), list@) == first_expression(
                *tree,
                byte_views(macros@),
                list@.skip(i as int),
            ),
            initializer_of(*tree, byte_views(macros@), n) == (match first_expression(
                *tree,
                byte_views(macros@),
                list@,
            ) {
                None => None,
                Some(parameter) => Some(
                    Expression {
                        start: tree.range_of(parameter).start_byte,
                        end: tree.range_of(parameter).end_byte,
                        declaration_start: tree.range_of(n).start_byte,
                        declaration_end: tree.range_of(n).end_byte,
                    },
                ),
            }),
        decreases list@.len() - i,
    {
        assert(list@.skip(i as int).drop_first() =~= list@.skip(i + 1));
        let parameter: usize = list[i];
        if expression(tree, macros, parameter) {
            let range = tree.range(parameter);
            let outer = tree.range(n);
            return Some(
                Expression {
                    start: range.start_byte,
                    end: range.end_byte,
                    declaration_start: outer.start_byte,
                    declaration_end: outer.end_byte,
                },
            );
        }
        i += 1;
    }
    None
}

/// The names of the macros that some nodes define.
pub open spec fn macro_names(tree: SyntaxTree, nodes: Seq<usize>) -> Seq<Seq<u8>>
    decreases nodes.len(),
{
    if nodes.len() == 0 {
        Seq::empty()
    } else {
        let before = macro_names(tree, nodes.drop_last());
        let n = nodes.last();
        match tree.child_in_role(n, Field::Name) {
            Some(name) if tree.kind_of(n) == Kind::PreprocDef || tree.kind_of(n)
                == Kind::PreprocFunctionDef => before.push(text_in(tree, name)),
            _ => before,
        }
    }
}

/// The expressions of the declarations among some nodes.
pub open spec fn expressions_in(
    tree: SyntaxTree,
    macros: Seq<Seq<u8>>,
    nodes: Seq<usize>,
) -> Seq<Expression>
    decreases nodes.len(),
{
    if nodes.len() == 0 {
        Seq::empty()
    } else {
        let before = expressions_in(tree, macros, nodes.drop_last());
        match initializer_of(tree, macros, nodes.last()) {
            None => before,
            Some(found) => before.push(found),
        }
    }
}

/// The expressions that a tree takes for parameters.
pub open spec fn expressions_of(tree: SyntaxTree) -> Seq<Expression> {
    let nodes = tree.named_preorder(0);
    expressions_in(tree, macro_names(tree, nodes), nodes)
}

/// The parentheses around expressions, as positions and bytes.
pub open spec fn parentheses(expressions: Seq<Expression>) -> Seq<(u32, u8)>
    decreases expressions.len(),
{
    if expressions.len() == 0 {
        Seq::empty()
    } else {
        parentheses(expressions.drop_last()).push((expressions.last().start, OPEN)).push(
            (expressions.last().end, CLOSE),
        )
    }
}

/// The parentheses around expressions, in the order of their positions.
pub open spec fn insertions_of(expressions: Seq<Expression>) -> Seq<(u32, u8)> {
    let all = parentheses(expressions);
    in_order(all, all.map_values(|p: (u32, u8)| seq![p.0 as u128, p.1 as u128]))
}

/// A text with parentheses put in, as far as it goes: the edits that take them out
/// again, the last first, how much of the text is used, and where it ends.
#[verifier::ext_equal]
pub struct Hinted {
    pub text: Seq<u8>,
    pub edits: Seq<(usize, usize, usize, usize, usize)>,
    pub used: int,
    pub row: int,
    pub column: int,
}

/// The row behind some bytes.
pub open spec fn row_after(row: int, bytes: Seq<u8>) -> int {
    row + crate::cpp_member_macros::line_count(bytes)
}

/// The column behind some bytes.
pub open spec fn column_after(column: int, bytes: Seq<u8>) -> int {
    if crate::cpp_member_macros::line_count(bytes) == 0 {
        column + bytes.len()
    } else {
        crate::cpp_member_macros::last_line_len(bytes) as int
    }
}

/// A text with parentheses put in, as far as they go.
pub open spec fn hinted_to(source: Seq<u8>, insertions: Seq<(u32, u8)>) -> Hinted
    decreases insertions.len(),
{
    if insertions.len() == 0 {
        Hinted { text: Seq::empty(), edits: Seq::empty(), used: 0, row: 0, column: 0 }
    } else {
        let before = hinted_to(source, insertions.drop_last());
        let (offset, delimiter) = insertions.last();
        let part = source.subrange(before.used, offset as int);
        let start = (before.text + part).len();
        let row = row_after(before.row, part);
        let column = column_after(before.column, part);
        Hinted {
            text: (before.text + part).push(delimiter),
            edits: seq![
                (
                    start as usize,
                    (start + 1) as usize,
                    row as usize,
                    column as usize,
                    (column + 1) as usize,
                ),
            ] + before.edits,
            used: offset as int,
            row,
            column: column + 1,
        }
    }
}

/// A text with parentheses put in.
pub open spec fn hinted(source: Seq<u8>, insertions: Seq<(u32, u8)>) -> Seq<u8> {
    let done = hinted_to(source, insertions);
    done.text + source.skip(done.used)
}

/// Whether a tree reads an expression as a call in an initialized variable.
pub open spec fn reads_as_call(tree: SyntaxTree, e: Expression) -> bool {
    match tree.node_at(e.declaration_start, e.declaration_end) {
        None => false,
        Some(n) => !tree.node(n).has_error && tree.kind_of(n) == Kind::Declaration && (match tree.child_in_role(
            n,
            Field::Declarator,
        ) {
            None => false,
            Some(declarator) => tree.kind_of(declarator) == Kind::InitDeclarator,
        }) && exists|k: int|
            0 <= k < tree.named_preorder(n).len() && is_call_at(
                tree,
                #[trigger] tree.named_preorder(n)[k],
                e,
            ),
    }
}

/// Whether a node is the call that an expression is.
pub open spec fn is_call_at(tree: SyntaxTree, n: usize, e: Expression) -> bool {
    tree.kind_of(n) == Kind::CallExpression && tree.range_of(n).start_byte == e.start
        && tree.range_of(n).end_byte == e.end
}

/// Whether another reading of a text gives every expression as a call and changes no
/// position.
pub open spec fn is_accepted(tree: SyntaxTree, expressions: Seq<Expression>) -> bool {
    &&& tree.range_of(0).end_byte == tree.text().len()
    &&& forall|k: int| 0 <= k < expressions.len() ==> reads_as_call(tree, #[trigger] expressions[k])
}

/// Whether a tree is what becomes of another: the reading with parentheses around
/// the expressions that were taken for parameters, where that gives them as calls;
/// else the other.
pub open spec fn is_refined(original: SyntaxTree, r: SyntaxTree) -> bool {
    let expressions = expressions_of(original);
    let insertions = insertions_of(expressions);
    if expressions.len() == 0 {
        r == original
    } else {
        exists|tree: SyntaxTree| #[trigger]
            SyntaxTree::parsed(
                hinted(original.text(), insertions),
                original.text(),
                hinted_to(original.text(), insertions).edits,
                Some(tree),
            ) && r == if is_accepted(tree, expressions) {
                tree
            } else {
                original
            }
    }
}

fn collect_macros(tree: &SyntaxTree, nodes: &[usize]) -> (r: Vec<Vec<u8>>)
    ensures
        byte_views(r@) == macro_names(*tree, nodes@),
{
    let mut macros: Vec<Vec<u8>> = Vec::new();
    let mut i: usize = 0;
    assert(byte_views(macros@) =~= Seq::empty());
    while i < nodes.len()
        invariant
            i <= nodes@.len(),
            byte_views(macros@) == macro_names(*tree, nodes@.take(i as int)),
        decreases nodes@.len() - i,
    {
        assert(nodes@.take(i + 1).drop_last() =~= nodes@.take(i as int));
        let n: usize = nodes[i];
        if matches!(tree.kind(n), Kind::PreprocDef | Kind::PreprocFunctionDef) {
            if let Some(name) = tree.child_by_field(n, Field::Name) {
                let ghost before = macros@;
                let text = copy_bytes(find_text(tree, name));
                macros.push(text);
                proof {
                    crate::text::lemma_push_bytes(before, text);
                }
            }
        }
        i += 1;
    }
    assert(nodes@.take(i as int) =~= nodes@);
    macros
}

proof fn lemma_expression_in_text(tree: SyntaxTree, macros: Seq<Seq<u8>>, n: usize)
    ensures
        match initializer_of(tree, macros, n) {
            None => true,
            Some(e) => e.start <= e.end <= tree.text().len(),
        },
{
    match (tree.child_in_role(n, Field::Declarator)) {
        None => {},
        Some(declarator) => {
            match tree.child_in_role(declarator, Field::Parameters) {
                None => {},
                Some(parameters) => {
                    lemma_first_in_text(tree, macros, tree.named_children_of(parameters));
                },
            }
        },
    }
}

proof fn lemma_first_in_text(tree: SyntaxTree, macros: Seq<Seq<u8>>, parameters: Seq<usize>)
    ensures
        match first_expression(tree, macros, parameters) {
            None => true,
            Some(p) => tree.text_of(p) is Some,
        },
    decreases parameters.len(),
{
    if parameters.len() > 0 {
        lemma_first_in_text(tree, macros, parameters.drop_first());
    }
}

/// Put parentheses into a text.
fn insert_parentheses(source: &[u8], insertions: &[(u32, u8)]) -> (r: (
    Vec<u8>,
    Vec<(usize, usize, usize, usize, usize)>,
))
    requires
        forall|k: int| 0 <= k < insertions@.len() ==> (#[trigger] insertions@[k]).0 <= source@.len(),
        forall|i: int, j: int|
            0 <= i <= j < insertions@.len() ==> (#[trigger] insertions@[i]).0 <= (
            #[trigger] insertions@[j]).0,
    ensures
        r.0@ == hinted(source@, insertions@),
        r.1@ == hinted_to(source@, insertions@).edits,
{
    let mut text: Vec<u8> = Vec::new();
    let mut edits: Vec<(usize, usize, usize, usize, usize)> = Vec::new();
    let mut used: usize = 0;
    let mut row: usize = 0;
    let mut column: usize = 0;
    let mut i: usize = 0;
    assert(insertions@.take(0) =~= Seq::empty());
    assert(hinted_to(source@, insertions@.take(0)) =~= Hinted {
        text: text@,
        edits: edits@,
        used: 0,
        row: 0,
        column: 0,
    });
    while i < insertions.len()
        invariant
            i <= insertions@.len(),
            forall|k: int|
                0 <= k < insertions@.len() ==> (#[trigger] insertions@[k]).0 <= source@.len(),
            forall|i: int, j: int|
                0 <= i <= j < insertions@.len() ==> (#[trigger] insertions@[i]).0 <= (
                #[trigger] insertions@[j]).0,
            used <= source@.len(),
            i > 0 ==> used == insertions@[i - 1].0,
            i == 0 ==> used == 0,
            text@.len() == used + i,
            row <= used,
            column <= used + i,
            hinted_to(source@, insertions@.take(i as int)) == (Hinted {
                text: text@,
                edits: edits@,
                used: used as int,
                row: row as int,
                column: column as int,
            }),
        decreases insertions@.len() - i,
    {
        let (offset, delimiter) = insertions[i];
        let at: usize = offset as usize;
        proof {
            assert(insertions@.take(i + 1).drop_last() =~= insertions@.take(i as int));
            assert(insertions@[i as int].0 <= source@.len());
            if i > 0 {
                assert(insertions@[i - 1].0 <= insertions@[i as int].0);
            }
        }
        let part = &source[used..at];
        append_bytes(&mut text, part);
        let (lines, rest) = crate::cpp_member_macros::count_lines(part);
        let start: usize = text.len();
        text.push(delimiter);
        let end: usize = text.len();
        column = if lines == 0 {
            column + part.len()
        } else {
            rest
        };
        row += lines;
        edits.insert(0, (start, end, row, column, column + 1));
        column += 1;
        used = at;
        i += 1;
        assert(hinted_to(source@, insertions@.take(i as int)) =~= Hinted {
            text: text@,
            edits: edits@,
            used: used as int,
            row: row as int,
            column: column as int,
        });
    }
    assert(insertions@.take(i as int) =~= insertions@);
    let rest = &source[used..source.len()];
    assert(rest@ =~= source@.skip(used as int));
    append_bytes(&mut text, rest);
    (text, edits)
}

fn collect_expressions<F: Fn() -> bool>(
    tree: &SyntaxTree,
    macros: &[Vec<u8>],
    nodes: &[usize],
    cancel: &F,
) -> (r: Option<Vec<Expression>>)
    requires
        call_requires(*cancel, ()),
    ensures
        match r {
            None => call_ensures(*cancel, (), true),
            Some(found) => {
                &&& found@ == expressions_in(*tree, byte_views(macros@), nodes@)
                &&& forall|k: int|
                    0 <= k < found@.len() ==> (#[trigger] found@[k]).start <= tree.text().len()
                        && found@[k].end <= tree.text().len()
            },
        },
{
    let mut found: Vec<Expression> = Vec::new();
    let mut i: usize = 0;
    while i < nodes.len()
        invariant
            i <= nodes@.len(),
            call_requires(*cancel, ()),
            found@ == expressions_in(*tree, byte_views(macros@), nodes@.take(i as int)),
            forall|k: int|
                0 <= k < found@.len() ==> (#[trigger] found@[k]).start <= tree.text().len()
                    && found@[k].end <= tree.text().len(),
        decreases nodes@.len() - i,
    {
        if cancel() {
            return None;
        }
        proof {
            assert(nodes@.take(i + 1).drop_last() =~= nodes@.take(i as int));
            lemma_expression_in_text(*tree, byte_views(macros@), nodes@[i as int]);
        }
        if let Some(e) = initializer(tree, macros, nodes[i]) {
            found.push(e);
        }
        i += 1;
    }
    assert(nodes@.take(i as int) =~= nodes@);
    Some(found)
}

fn collect_insertions(expressions: &[Expression], Ghost(length): Ghost<nat>) -> (r: Vec<(u32, u8)>)
    requires
        forall|k: int|
            0 <= k < expressions@.len() ==> (#[trigger] expressions@[k]).start <= length
                && expressions@[k].end <= length,
    ensures
        r@ == insertions_of(expressions@),
        forall|k: int| 0 <= k < r@.len() ==> (#[trigger] r@[k]).0 <= length,
        forall|i: int, j: int|
            0 <= i <= j < r@.len() ==> (#[trigger] r@[i]).0 <= (#[trigger] r@[j]).0,
{
    let mut all: Vec<(u32, u8)> = Vec::new();
    let mut i: usize = 0;
    assert(expressions@.take(0) =~= Seq::empty());
    while i < expressions.len()
        invariant
            i <= expressions@.len(),
            forall|k: int|
                0 <= k < expressions@.len() ==> (#[trigger] expressions@[k]).start <= length
                    && expressions@[k].end <= length,
            all@ == parentheses(expressions@.take(i as int)),
            forall|k: int| 0 <= k < all@.len() ==> (#[trigger] all@[k]).0 <= length,
        decreases expressions@.len() - i,
    {
        assert(expressions@.take(i + 1).drop_last() =~= expressions@.take(i as int));
        let e = expressions[i];
        assert(expressions@[i as int].start <= length);
        all.push((e.start, OPEN));
        all.push((e.end, CLOSE));
        i += 1;
    }
    assert(expressions@.take(i as int) =~= expressions@);
    let mut keys: Vec<Vec<u128>> = Vec::new();
    let mut i: usize = 0;
    while i < all.len()
        invariant
            i <= all@.len(),
            keys@.len() == i,
            forall|k: int|
                0 <= k < i ==> (#[trigger] keys@[k])@ == seq![
                    all@[k].0 as u128,
                    all@[k].1 as u128,
                ],
        decreases all@.len() - i,
    {
        let key = vec![all[i].0 as u128, all[i].1 as u128];
        assert(key@ =~= seq![all@[i as int].0 as u128, all@[i as int].1 as u128]);
        keys.push(key);
        i += 1;
    }
    let ghost meant = all@.map_values(|p: (u32, u8)| seq![p.0 as u128, p.1 as u128]);
    assert(key_views(keys@) =~= meant);
    let sorted = arrange(all.as_slice(), keys.as_slice());
    proof {
        let rows = crate::collections::ordered_rows(meant, all@.len());
        crate::collections::ordered_rows_is_a_permutation(meant, all@.len());
        crate::collections::ordered_rows_is_sorted(meant, all@.len());
        assert forall|k: int| 0 <= k < sorted@.len() implies (#[trigger] sorted@[k]).0 <= length by {
            assert(sorted@[k] == all@[rows[k]]);
        }
        assert forall|i: int, j: int| 0 <= i <= j < sorted@.len() implies (#[trigger] sorted@[i]).0
            <= (#[trigger] sorted@[j]).0 by {
            assert(sorted@[i] == all@[rows[i]] && sorted@[j] == all@[rows[j]]);
            assert(crate::collections::key_at_most(meant[rows[i]], meant[rows[j]]));
        }
    }
    sorted
}

fn call_at(tree: &SyntaxTree, nodes: &[usize], e: &Expression) -> (r: bool)
    ensures
        r == exists|k: int|
            0 <= k < nodes@.len() && is_call_at(*tree, #[trigger] nodes@[k], *e),
{
    let mut i: usize = 0;
    while i < nodes.len()
        invariant
            i <= nodes@.len(),
            forall|k: int| 0 <= k < i ==> !is_call_at(*tree, #[trigger] nodes@[k], *e),
        decreases nodes@.len() - i,
    {
        let n: usize = nodes[i];
        let range = tree.range(n);
        if tree.kind(n) == Kind::CallExpression && range.start_byte == e.start && range.end_byte
            == e.end {
            assert(is_call_at(*tree, nodes@[i as int], *e));
            return true;
        }
        i += 1;
    }
    false
}

fn reading_as_call(tree: &SyntaxTree, e: &Expression) -> (r: bool)
    ensures
        r == reads_as_call(*tree, *e),
{
    let n = match tree.descendant_for_byte_range(e.declaration_start, e.declaration_end) {
        None => {
            return false;
        },
        Some(n) => n,
    };
    if tree.data(n).has_error || tree.kind(n) != Kind::Declaration {
        return false;
    }
    match tree.child_by_field(n, Field::Declarator) {
        None => {
            return false;
        },
        Some(declarator) => {
            if tree.kind(declarator) != Kind::InitDeclarator {
                return false;
            }
        },
    }
    let nodes = tree.named_descendants(n);
    call_at(tree, nodes.as_slice(), e)
}

/// Whether the parser gives nothing for the text of a tree in which the expressions stand
/// in parentheses that were taken for parameters.
pub open spec fn is_unread(original: SyntaxTree) -> bool {
    expressions_of(original).len() > 0 && SyntaxTree::parsed(
        hinted(original.text(), insertions_of(expressions_of(original))),
        original.text(),
        hinted_to(original.text(), insertions_of(expressions_of(original))).edits,
        None,
    )
}

/// Read a tree again where expressions were taken for parameters.
///
/// Nothing is returned on cancellation, which is asked for between declarations, and
/// where the parser gives nothing.
pub fn refine<F: Fn() -> bool>(original: SyntaxTree, cancel: &F) -> (r: Option<SyntaxTree>)
    requires
        call_requires(*cancel, ()),
    ensures
        match r {
            None => call_ensures(*cancel, (), true) || is_unread(original),
            Some(tree) => call_ensures(*cancel, (), false) && is_refined(original, tree),
        },
{
    if cancel() {
        return None;
    }
    let nodes = original.named_descendants(0);
    let macros = collect_macros(&original, nodes.as_slice());
    let expressions = match collect_expressions(
        &original,
        macros.as_slice(),
        nodes.as_slice(),
        cancel,
    ) {
        None => {
            return None;
        },
        Some(expressions) => expressions,
    };
    if cancel() {
        return None;
    }
    if expressions.len() == 0 {
        return Some(original);
    }
    let insertions = collect_insertions(expressions.as_slice(), Ghost(original.text().len()));
    let source = original.source();
    let (text, edits) = insert_parentheses(source, insertions.as_slice());
    let tree = match SyntaxTree::parse_edited(text.as_slice(), source, edits.as_slice()) {
        None => {
            return None;
        },
        Some(tree) => tree,
    };
    let ghost other = tree;
    if tree.range(0).end_byte as u128 != source.len() as u128 {
        assert(!is_accepted(other, expressions@));
        return Some(original);
    }
    let mut i: usize = 0;
    while i < expressions.len()
        invariant
            i <= expressions@.len(),
            call_requires(*cancel, ()),
            call_ensures(*cancel, (), false),
            expressions@.len() > 0,
            expressions@ == expressions_of(original),
            other == tree,
            tree.range_of(0).end_byte == tree.text().len(),
            SyntaxTree::parsed(
                hinted(original.text(), insertions_of(expressions@)),
                original.text(),
                hinted_to(original.text(), insertions_of(expressions@)).edits,
                Some(tree),
            ),
            forall|k: int| 0 <= k < i ==> reads_as_call(tree, #[trigger] expressions@[k]),
        decreases expressions@.len() - i,
    {
        if cancel() {
            return None;
        }
        if !reading_as_call(&tree, &expressions[i]) {
            assert(!reads_as_call(other, expressions@[i as int]));
            assert(!is_accepted(other, expressions@));
            return Some(original);
        }
        i += 1;
    }
    assert(is_accepted(other, expressions@));
    Some(tree)
}

/// A tree without such expressions stays as it is, and so does one whose other
/// reading does not give them all as calls: refining never loses what was read.
pub proof fn refining_keeps_the_text(original: SyntaxTree, r: SyntaxTree)
    requires
        is_refined(original, r),
    ensures
        r.text() == original.text(),
        r == original || is_accepted(r, expressions_of(original)),
{
    if expressions_of(original).len() > 0 {
        let insertions = insertions_of(expressions_of(original));
        let tree = choose|tree: SyntaxTree| #[trigger]
            SyntaxTree::parsed(
                hinted(original.text(), insertions),
                original.text(),
                hinted_to(original.text(), insertions).edits,
                Some(tree),
            ) && r == if is_accepted(tree, expressions_of(original)) {
                tree
            } else {
                original
            };
        assert(tree.text() == original.text());
    }
}

} // verus!
