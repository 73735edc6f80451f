//! What C++ declarations say for the lookup of receivers.

use crate::cpp_annotation_sites::{find_role_text, role_text};
use crate::cpp_callables::{
    is_record_supported, is_scope_supported, record_scope_supported, scope_supported,
};
use crate::cpp_facts::{
    lemma_push_view, optional_view, views, ArgumentExpressionView, BaseClassView, CaptureView,
    CppArgumentExpression, CppBaseClass, CppCapture, CppCaptureKind, CppDeclaredType,
    CppLambdaCapture, DeclaredTypeView, LambdaCaptureView,
};
use crate::cpp_member_macros::{drop_space, without_space};
use crate::cpp_names::{alias_named, cpp_alias_name, find_written_children, written_children};
use crate::cpp_templates::optional_vec;
use crate::cpp_tokens::{is_token, token_is};
use crate::cpp_types::{
    declared_type, find_others_than, join_scope, others_than, read_value_type, scoped, type_at,
    value_type_in,
};
use crate::facts::{ReferenceKind, ReferenceUse, SymbolDef, SymbolKind, TextRange};
use crate::ids::ReferenceId;
use crate::syntax::{Field, Kind, SyntaxTree};
use crate::text::{copy_bytes, same_bytes, Text};
use vstd::prelude::*;
use vstd::string::StringSliceAdditionalSpecFns;

verus! {

broadcast use {SyntaxTree::parent_comes_first, SyntaxTree::children_come_later};

/// Whether a node is inside one of some kinds.
pub open spec fn is_within(tree: SyntaxTree, n: usize, kinds: Seq<Kind>) -> bool {
    tree.has_one_of(tree.ancestors_of(n), kinds)
}

/// Whether a node is inside one of some kinds.
pub fn has_ancestor(tree: &SyntaxTree, n: usize, kinds: &[Kind]) -> (r: bool)
    ensures
        r == is_within(*tree, n, kinds@),
{
    let around = tree.ancestors(n);
    tree.has_any(around.as_slice(), kinds)
}

/// The innermost node of one of some kinds from a node outwards in its block.
pub open spec fn enclosing_of(tree: SyntaxTree, n: usize, kinds: Seq<Kind>) -> Option<usize> {
    tree.first_of(
        tree.lineage_of(n),
        kinds,
        seq![Kind::CompoundStatement, Kind::TranslationUnit],
    )
}

/// The innermost node of one of some kinds from a node outwards in its block.
pub fn ancestor(tree: &SyntaxTree, n: usize, kinds: &[Kind]) -> (r: Option<usize>)
    ensures
        r == enclosing_of(*tree, n, kinds@),
{
    let stop = [Kind::CompoundStatement, Kind::TranslationUnit];
    assert(stop@ =~= seq![Kind::CompoundStatement, Kind::TranslationUnit]);
    let around = tree.lineage(n);
    tree.find_first(around.as_slice(), kinds, &stop)
}

/// The node over a range.
pub open spec fn node_over(tree: SyntaxTree, range: TextRange) -> Option<usize> {
    tree.node_at(range.start_byte, range.end_byte)
}

/// The node over a range.
pub fn at(tree: &SyntaxTree, range: TextRange) -> (r: Option<usize>)
    ensures
        r == node_over(*tree, range),
{
    tree.descendant_for_byte_range(range.start_byte, range.end_byte)
}

/// Whether a class is declared alone, without a body: this says that it is there, not
/// what its members are. A type in the declaration of a value is not such.
pub open spec fn is_forward_declaration(tree: SyntaxTree, n: usize) -> bool {
    match (tree.parent_of(n), tree.child_in_role(n, Field::Name)) {
        (Some(parent), Some(name)) => {
            &&& !tree.node(n).has_error
            &&& tree.child_in_role(n, Field::Body) is None
            &&& tree.kind_of(name) == Kind::TypeIdentifier
            &&& match tree.kind_of(parent) {
                Kind::TranslationUnit | Kind::DeclarationList => {
                    let rest = tree.without(tree.later_siblings_of(n), seq![Kind::Comment]);
                    rest.len() > 0 && tree.kind_of(rest[0]) == Kind::Semicolon && !tree.node(
                        rest[0],
                    ).missing
                },
                Kind::Declaration | Kind::FieldDeclaration => !tree.node(parent).has_error
                    && tree.child_in_role(parent, Field::Type) == Some(n) && others_than(
                    tree,
                    parent,
                    n,
                ).len() == 0,
                _ => false,
            }
        },
        _ => false,
    }
}

/// Whether a class is declared alone, without a body.
pub fn forward_declaration(tree: &SyntaxTree, n: usize) -> (r: bool)
    ensures
        r == is_forward_declaration(*tree, n),
{
    let parent = match tree.parent(n) {
        None => {
            return false;
        },
        Some(parent) => parent,
    };
    let name = match tree.child_by_field(n, Field::Name) {
        None => {
            return false;
        },
        Some(name) => name,
    };
    if tree.data(n).has_error || tree.child_by_field(n, Field::Body).is_some() || tree.kind(name)
        != Kind::TypeIdentifier {
        return false;
    }
    match tree.kind(parent) {
        Kind::TranslationUnit | Kind::DeclarationList => {
            let drop = [Kind::Comment];
            assert(drop@ =~= seq![Kind::Comment]);
            let behind = tree.later_siblings(n);
            let rest = tree.drop_kinds(behind.as_slice(), &drop);
            rest.len() > 0 && tree.kind(rest[0]) == Kind::Semicolon && !tree.data(rest[0]).missing
        },
        Kind::Declaration | Kind::FieldDeclaration => {
            !tree.data(parent).has_error && tree.child_by_field(parent, Field::Type) == Some(n)
                && find_others_than(tree, parent, n).len() == 0
        },
        _ => false,
    }
}

/// Whether a symbol is a function or a method.
pub open spec fn is_callable(kind: SymbolKind) -> bool {
    kind == SymbolKind::Function || kind == SymbolKind::Method
}

/// Whether a symbol is a callable in a supported scope that a node declares.
pub open spec fn is_verified_by(tree: SyntaxTree, declarator: usize, symbol: SymbolDef) -> bool {
    is_callable(symbol.kind) && tree.range_of(declarator).covers(symbol.name_range)
        && is_scope_supported(tree, symbol.name_range)
}

/// The block around a declaration, where it is that of a callable in a supported scope.
pub open spec fn verified_block(
    tree: SyntaxTree,
    n: usize,
    symbols: Seq<SymbolDef>,
) -> Option<TextRange> {
    match tree.first_of(
        tree.ancestors_of(n),
        seq![Kind::CompoundStatement],
        seq![Kind::ClassSpecifier, Kind::StructSpecifier, Kind::NamespaceDefinition],
    ) {
        None => None,
        Some(block) => match tree.first_of(
            tree.ancestors_of(block),
            seq![Kind::FunctionDefinition],
            Seq::empty(),
        ) {
            None => None,
            Some(function) => match tree.child_in_role(function, Field::Declarator) {
                None => None,
                Some(declarator) => if exists|i: int|
                    0 <= i < symbols.len() && is_verified_by(
                        tree,
                        declarator,
                        #[trigger] symbols[i],
                    ) {
                    Some(tree.range_of(block))
                } else {
                    None
                },
            },
        },
    }
}

fn find_verified(tree: &SyntaxTree, declarator: usize, symbols: &[SymbolDef]) -> (r: bool)
    ensures
        r == exists|i: int|
            0 <= i < symbols@.len() && is_verified_by(*tree, declarator, #[trigger] symbols@[i]),
{
    let mut i: usize = 0;
    while i < symbols.len()
        invariant
            i <= symbols@.len(),
            forall|k: int|
                0 <= k < i ==> !is_verified_by(*tree, declarator, #[trigger] symbols@[k]),
        decreases symbols@.len() - i,
    {
        let symbol = &symbols[i];
        if matches!(symbol.kind, SymbolKind::Function | SymbolKind::Method) && tree.range(
            declarator,
        ).contains_range(&symbol.name_range) && scope_supported(tree, symbol) {
            assert(is_verified_by(*tree, declarator, symbols@[i as int]));
            return true;
        }
        i += 1;
    }
    false
}

/// The block around a declaration, where it is that of a callable in a supported scope.
pub fn verified_block_range(tree: &SyntaxTree, n: usize, symbols: &[SymbolDef]) -> (r: Option<
    TextRange,
>)
    ensures
        r == verified_block(*tree, n, symbols@),
{
    let blocks = [Kind::CompoundStatement];
    let scopes = [Kind::ClassSpecifier, Kind::StructSpecifier, Kind::NamespaceDefinition];
    let functions = [Kind::FunctionDefinition];
    let never: [Kind; 0] = [];
    assert(blocks@ =~= seq![Kind::CompoundStatement]);
    assert(scopes@ =~= seq![
        Kind::ClassSpecifier,
        Kind::StructSpecifier,
        Kind::NamespaceDefinition,
    ]);
    assert(functions@ =~= seq![Kind::FunctionDefinition]);
    assert(never@ =~= Seq::empty());
    let around = tree.ancestors(n);
    let block = match tree.find_first(around.as_slice(), &blocks, &scopes) {
        None => {
            return None;
        },
        Some(block) => block,
    };
    let outer = tree.ancestors(block);
    let function = match tree.find_first(outer.as_slice(), &functions, &never) {
        None => {
            return None;
        },
        Some(function) => function,
    };
    let declarator = match tree.child_by_field(function, Field::Declarator) {
        None => {
            return None;
        },
        Some(declarator) => declarator,
    };
    if find_verified(tree, declarator, symbols) {
        Some(tree.range(block))
    } else {
        None
    }
}

/// The last name of a qualified name.
pub open spec fn last_name(tree: SyntaxTree, n: usize) -> Option<usize>
    decreases tree.count() - n,
    via last_name_decreases
{
    if tree.kind_of(n) == Kind::QualifiedIdentifier {
        match tree.child_in_role(n, Field::Name) {
            None => None,
            Some(name) => last_name(tree, name),
        }
    } else {
        Some(n)
    }
}

#[via_fn]
proof fn last_name_decreases(tree: SyntaxTree, n: usize) {
    tree.child_in_role_is_child(n, Field::Name);
}

/// The last name of a qualified name.
pub fn find_last_name(tree: &SyntaxTree, from: usize) -> (r: Option<usize>)
    ensures
        r == last_name(*tree, from),
{
    let mut n: usize = from;
    while tree.kind(n) == Kind::QualifiedIdentifier
        invariant
            last_name(*tree, from) == last_name(*tree, n),
        decreases tree.count() - n,
    {
        proof {
            tree.child_in_role_is_child(n, Field::Name);
        }
        match tree.child_by_field(n, Field::Name) {
            None => {
                return None;
            },
            Some(name) => {
                n = name;
            },
        }
    }
    Some(n)
}

/// Whether a child of a using-declaration stands for a name.
pub open spec fn is_used_name(tree: SyntaxTree, n: usize) -> bool {
    tree.node(n).named && tree.kind_of(n) != Kind::TypeQualifier
}

/// The one name that a using-declaration introduces. A directive, an enumeration, a
/// pack or a malformed declaration may introduce any.
pub open spec fn used_name(tree: SyntaxTree, n: usize) -> Option<Seq<u8>> {
    let children = written_children(tree, n);
    let names = children.filter(|c: usize| is_used_name(tree, c));
    if tree.kind_of(n) != Kind::UsingDeclaration || tree.node(n).has_error || tree.has_one_of(
        children,
        seq![Kind::NamespaceKeyword, Kind::EnumKeyword, Kind::Ellipsis, Kind::Comma],
    ) || names.len() != 1 {
        None
    } else {
        match last_name(tree, names[0]) {
            Some(name) if tree.kind_of(name) == Kind::Identifier || tree.kind_of(name)
                == Kind::TypeIdentifier => tree.text_of(name),
            _ => None,
        }
    }
}

/// The one name that a using-declaration introduces.
pub fn single_using_name(tree: &SyntaxTree, n: usize) -> (r: Option<Vec<u8>>)
    ensures
        optional_vec(r) == used_name(*tree, n),
{
    if tree.kind(n) != Kind::UsingDeclaration || tree.data(n).has_error {
        return None;
    }
    let children = find_written_children(tree, n);
    let many = [Kind::NamespaceKeyword, Kind::EnumKeyword, Kind::Ellipsis, Kind::Comma];
    assert(many@ =~= seq![
        Kind::NamespaceKeyword,
        Kind::EnumKeyword,
        Kind::Ellipsis,
        Kind::Comma,
    ]);
    if tree.has_any(children.as_slice(), &many) {
        return None;
    }
    let ghost keep = |c: usize| is_used_name(*tree, c);
    let mut names: Vec<usize> = Vec::new();
    let mut i: usize = 0;
    assert(children@.take(0).filter(keep) =~= Seq::empty()) by {
        reveal(Seq::filter);
    }
    while i < children.len()
        invariant
            i <= children@.len(),
            keep == (|c: usize| is_used_name(*tree, c)),
            names@ == children@.take(i as int).filter(keep),
        decreases children@.len() - i,
    {
        proof {
            crate::collections::lemma_filter_step(children@, keep, i as int);
        }
        let c: usize = children[i];
        if tree.data(c).named && tree.kind(c) != Kind::TypeQualifier {
            names.push(c);
        }
        i += 1;
    }
    assert(children@.take(i as int) =~= children@);
    if names.len() != 1 {
        return None;
    }
    match find_last_name(tree, names[0]) {
        None => None,
        Some(name) => if matches!(tree.kind(name), Kind::Identifier | Kind::TypeIdentifier) {
            match tree.node_text(name) {
                None => None,
                Some(text) => Some(copy_bytes(text)),
            }
        } else {
            None
        },
    }
}

/// The name of a class that may be specialized, and whether it is.
pub open spec fn template_record(tree: SyntaxTree, n: usize) -> Option<(Seq<u8>, bool)>
    decreases tree.count() - n,
    via template_record_decreases
{
    match tree.kind_of(n) {
        Kind::TypeIdentifier | Kind::Identifier | Kind::NamespaceIdentifier => match tree.text_of(
            n,
        ) {
            None => None,
            Some(name) => Some((name, false)),
        },
        Kind::TemplateType => match tree.child_in_role(n, Field::Name) {
            None => None,
            Some(own) => match tree.text_of(own) {
                None => None,
                Some(name) => Some((name, true)),
            },
        },
        Kind::QualifiedIdentifier => match tree.child_in_role(n, Field::Name) {
            None => None,
            Some(last) => match template_record(tree, last) {
                None => None,
                Some((name, templated)) => match tree.child_in_role(n, Field::Scope) {
                    None => Some((scoped(Seq::empty(), name), templated)),
                    Some(scope) => match template_record(tree, scope) {
                        None => None,
                        Some((prefix, outer)) => Some((scoped(prefix, name), templated || outer)),
                    },
                },
            },
        },
        _ => None,
    }
}

#[via_fn]
proof fn template_record_decreases(tree: SyntaxTree, n: usize) {
    tree.child_in_role_is_child(n, Field::Name);
    tree.child_in_role_is_child(n, Field::Scope);
}

/// The name of a class that may be specialized, and whether it is.
pub fn template_record_name(tree: &SyntaxTree, n: usize) -> (r: Option<(Vec<u8>, bool)>)
    ensures
        match r {
            None => template_record(*tree, n) is None,
            Some((name, templated)) => template_record(*tree, n) == Some((name@, templated)),
        },
    decreases tree.count() - n,
{
    proof {
        tree.child_in_role_is_child(n, Field::Name);
        tree.child_in_role_is_child(n, Field::Scope);
    }
    match tree.kind(n) {
        Kind::TypeIdentifier | Kind::Identifier | Kind::NamespaceIdentifier => match tree.node_text(
            n,
        ) {
            None => None,
            Some(name) => Some((copy_bytes(name), false)),
        },
        Kind::TemplateType => match tree.child_by_field(n, Field::Name) {
            None => None,
            Some(own) => match tree.node_text(own) {
                None => None,
                Some(name) => Some((copy_bytes(name), true)),
            },
        },
        Kind::QualifiedIdentifier => match tree.child_by_field(n, Field::Name) {
            None => None,
            Some(last) => match template_record_name(tree, last) {
                None => None,
                Some((name, templated)) => match tree.child_by_field(n, Field::Scope) {
                    None => {
                        let none: [u8; 0] = [];
                        assert(none@ =~= Seq::empty());
                        Some((join_scope(&none, name.as_slice()), templated))
                    },
                    Some(scope) => match template_record_name(tree, scope) {
                        None => None,
                        Some((prefix, outer)) => Some(
                            (join_scope(prefix.as_slice(), name.as_slice()), templated || outer),
                        ),
                    },
                },
            },
        },
        _ => None,
    }
}

/// Whether a scope around an alias is not supported.
pub open spec fn is_unsupported_scope(tree: SyntaxTree, n: usize) -> bool {
    ||| (tree.kind_of(n) == Kind::ClassSpecifier || tree.kind_of(n) == Kind::StructSpecifier)
        && !is_record_supported(tree, n)
    ||| tree.kind_of(n) == Kind::NamespaceDefinition && tree.child_in_role(n, Field::Name) is None
    ||| tree.kind_of(n) == Kind::Error
}

/// Whether a child of an alias is neither its target nor the name that it declares.
pub open spec fn is_alias_extra(tree: SyntaxTree, n: usize) -> bool {
    !((tree.kind_of(n) == Kind::TypeIdentifier || tree.kind_of(n) == Kind::Identifier
        || tree.kind_of(n) == Kind::PrimitiveType) && alias_named(tree, n) is Some)
}

/// The written type that an alias stands for.
pub open spec fn alias_node(tree: SyntaxTree, target: usize) -> Option<usize> {
    if tree.kind_of(target) == Kind::TypeDescriptor {
        match tree.child_in_role(target, Field::Type) {
            Some(ty) if others_than(tree, target, ty).len() == 0 => Some(ty),
            _ => None,
        }
    } else {
        Some(target)
    }
}

/// The plain type that an alias of a namespace or class stands for, and where it is
/// written.
pub open spec fn aliased(tree: SyntaxTree, n: usize) -> Option<(DeclaredTypeView, TextRange)> {
    if tree.node(n).has_error || is_within(
        tree,
        n,
        seq![Kind::TemplateDeclaration, Kind::FunctionDefinition, Kind::LambdaExpression],
    ) || exists|i: int|
        0 <= i < tree.ancestors_of(n).len() && is_unsupported_scope(
            tree,
            #[trigger] tree.ancestors_of(n)[i],
        ) {
        None
    } else {
        match tree.child_in_role(n, Field::Type) {
            None => None,
            Some(target) => if exists|i: int|
                0 <= i < others_than(tree, n, target).len() && is_alias_extra(
                    tree,
                    #[trigger] others_than(tree, n, target)[i],
                ) {
                None
            } else {
                match alias_node(tree, target) {
                    None => None,
                    Some(written) => match type_at(tree, written) {
                        Some(ty) if ty.template_arguments.len() == 0 && !ty.pointer && !ty.reference
                            && !ty.const_ && !ty.volatile => Some((ty, tree.range_of(written))),
                        _ => None,
                    },
                }
            },
        }
    }
}

fn in_unsupported_scope(tree: &SyntaxTree, n: usize) -> (r: bool)
    ensures
        r == exists|i: int|
            0 <= i < tree.ancestors_of(n).len() && is_unsupported_scope(
                *tree,
                #[trigger] tree.ancestors_of(n)[i],
            ),
{
    let around = tree.ancestors(n);
    let mut i: usize = 0;
    while i < around.len()
        invariant
            i <= around@.len(),
            around@ == tree.ancestors_of(n),
            forall|k: int|
                0 <= k < i ==> !is_unsupported_scope(*tree, #[trigger] tree.ancestors_of(n)[k]),
        decreases around@.len() - i,
    {
        let outer: usize = around[i];
        let kind = tree.kind(outer);
        if (matches!(kind, Kind::ClassSpecifier | Kind::StructSpecifier)
            && !record_scope_supported(tree, outer)) || (kind == Kind::NamespaceDefinition
            && tree.child_by_field(outer, Field::Name).is_none()) || kind == Kind::Error {
            assert(is_unsupported_scope(*tree, tree.ancestors_of(n)[i as int]));
            return true;
        }
        i += 1;
    }
    false
}

fn has_alias_extra(tree: &SyntaxTree, nodes: &[usize]) -> (r: bool)
    ensures
        r == exists|i: int|
            0 <= i < nodes@.len() && is_alias_extra(*tree, #[trigger] nodes@[i]),
{
    let mut i: usize = 0;
    while i < nodes.len()
        invariant
            i <= nodes@.len(),
            forall|k: int| 0 <= k < i ==> !is_alias_extra(*tree, #[trigger] nodes@[k]),
        decreases nodes@.len() - i,
    {
        let n: usize = nodes[i];
        if !(matches!(
            tree.kind(n),
            Kind::TypeIdentifier | Kind::Identifier | Kind::PrimitiveType
        ) && cpp_alias_name(tree, n).is_some()) {
            assert(is_alias_extra(*tree, nodes@[i as int]));
            return true;
        }
        i += 1;
    }
    false
}

/// The plain type that an alias stands for, and where it is written.
pub fn alias_target(tree: &SyntaxTree, n: usize) -> (r: Option<(CppDeclaredType, TextRange)>)
    ensures
        match r {
            None => aliased(*tree, n) is None,
            Some((ty, range)) => aliased(*tree, n) == Some((ty@, range)),
        },
{
    let kinds = [Kind::TemplateDeclaration, Kind::FunctionDefinition, Kind::LambdaExpression];
    assert(kinds@ =~= seq![
        Kind::TemplateDeclaration,
        Kind::FunctionDefinition,
        Kind::LambdaExpression,
    ]);
    if tree.data(n).has_error || has_ancestor(tree, n, &kinds) || in_unsupported_scope(tree, n) {
        return None;
    }
    let target = match tree.child_by_field(n, Field::Type) {
        None => {
            return None;
        },
        Some(target) => target,
    };
    let rest = find_others_than(tree, n, target);
    if has_alias_extra(tree, rest.as_slice()) {
        return None;
    }
    let written = if tree.kind(target) == Kind::TypeDescriptor {
        match tree.child_by_field(target, Field::Type) {
            None => {
                return None;
            },
            Some(ty) => {
                if find_others_than(tree, target, ty).len() > 0 {
                    return None;
                }
                ty
            },
        }
    } else {
        target
    };
    match declared_type(tree, written) {
        None => None,
        Some(ty) => {
            if ty.template_arguments.len() > 0 || ty.pointer || ty.reference || ty.const_
                || ty.volatile {
                None
            } else {
                Some((ty, tree.range(written)))
            }
        },
    }
}

/// The name of a member function template that has no error.
pub open spec fn member_template_name(tree: SyntaxTree, template: usize) -> Option<usize> {
    match (tree.parent_of(template), tree.child_in_role(template, Field::Parameters)) {
        (Some(outer), Some(list)) => {
            let rest = others_than(tree, template, list);
            if tree.kind_of(template) != Kind::TemplateDeclaration || tree.kind_of(outer)
                != Kind::FieldDeclarationList || rest.len() != 1 || !(tree.kind_of(rest[0])
                == Kind::FunctionDefinition || tree.kind_of(rest[0]) == Kind::FieldDeclaration
                || tree.kind_of(rest[0]) == Kind::Declaration) || tree.node(rest[0]).has_error {
                None
            } else {
                match tree.child_in_role(rest[0], Field::Declarator) {
                    Some(declarator) if tree.kind_of(declarator) == Kind::FunctionDeclarator => {
                        match tree.child_in_role(declarator, Field::Declarator) {
                            Some(name) if tree.kind_of(name) == Kind::Identifier || tree.kind_of(
                                name,
                            ) == Kind::FieldIdentifier => Some(name),
                            _ => None,
                        }
                    },
                    _ => None,
                }
            }
        },
        _ => None,
    }
}

/// The name of a member function template that has no error.
pub fn member_function_template_name(tree: &SyntaxTree, template: usize) -> (r: Option<usize>)
    ensures
        r == member_template_name(*tree, template),
{
    let outer = match tree.parent(template) {
        None => {
            return None;
        },
        Some(outer) => outer,
    };
    if tree.kind(template) != Kind::TemplateDeclaration || tree.kind(outer)
        != Kind::FieldDeclarationList {
        return None;
    }
    let list = match tree.child_by_field(template, Field::Parameters) {
        None => {
            return None;
        },
        Some(list) => list,
    };
    let rest = find_others_than(tree, template, list);
    if rest.len() != 1 {
        return None;
    }
    let declaration: usize = rest[0];
    if !matches!(
        tree.kind(declaration),
        Kind::FunctionDefinition | Kind::FieldDeclaration | Kind::Declaration
    ) || tree.data(declaration).has_error {
        return None;
    }
    let declarator = match tree.child_by_field(declaration, Field::Declarator) {
        None => {
            return None;
        },
        Some(declarator) => declarator,
    };
    if tree.kind(declarator) != Kind::FunctionDeclarator {
        return None;
    }
    match tree.child_by_field(declarator, Field::Declarator) {
        None => None,
        Some(name) => if matches!(tree.kind(name), Kind::Identifier | Kind::FieldIdentifier) {
            Some(name)
        } else {
            None
        },
    }
}

/// Whether a child belongs to an unnamed parameter with a default.
pub open spec fn is_unnamed_part(
    tree: SyntaxTree,
    ty: usize,
    default: usize,
    error: usize,
    n: usize,
) -> bool {
    n == ty || n == default || n == error || tree.kind_of(n) == Kind::Equals || tree.kind_of(n)
        == Kind::Comment
}

/// Whether an error is the star of an unnamed pointer with a default in the template
/// parameters of a member function. It can neither add a member nor name one.
pub open spec fn is_unnamed_pointer(tree: SyntaxTree, error: usize) -> bool {
    tree.kind_of(error) == Kind::Error && tree.text_of(error) == Some("*".spec_bytes()) && match (
    tree.parent_of(error)) {
        None => false,
        Some(parameter) => tree.kind_of(parameter) == Kind::OptionalParameterDeclaration
            && is_unnamed_pointer_in(tree, error, parameter),
    }
}

/// Whether an error is the star of an unnamed pointer that is a parameter.
pub open spec fn is_unnamed_pointer_in(tree: SyntaxTree, error: usize, parameter: usize) -> bool {
    match tree.parent_of(parameter) {
        None => false,
        Some(list) => tree.kind_of(list) == Kind::TemplateParameterList && match tree.parent_of(
            list,
        ) {
            None => false,
            Some(template) => member_template_name(tree, template) is Some && match (
                tree.child_in_role(parameter, Field::Type),
                tree.child_in_role(parameter, Field::DefaultValue),
            ) {
                (Some(ty), Some(default)) => {
                    &&& tree.child_in_role(parameter, Field::Declarator) is None
                    &&& !tree.node(ty).has_error
                    &&& !tree.node(default).has_error
                    &&& forall|i: int|
                        0 <= i < tree.children_of(parameter).len() ==> is_unnamed_part(
                            tree,
                            ty,
                            default,
                            error,
                            #[trigger] tree.children_of(parameter)[i],
                        )
                },
                _ => false,
            },
        },
    }
}

fn only_unnamed_parts(
    tree: &SyntaxTree,
    ty: usize,
    default: usize,
    error: usize,
    nodes: &[usize],
) -> (r: bool)
    ensures
        r == forall|i: int|
            0 <= i < nodes@.len() ==> is_unnamed_part(
                *tree,
                ty,
                default,
                error,
                #[trigger] nodes@[i],
            ),
{
    let mut i: usize = 0;
    while i < nodes.len()
        invariant
            i <= nodes@.len(),
            forall|k: int|
                0 <= k < i ==> is_unnamed_part(*tree, ty, default, error, #[trigger] nodes@[k]),
        decreases nodes@.len() - i,
    {
        let n: usize = nodes[i];
        if !(n == ty || n == default || n == error || matches!(
            tree.kind(n),
            Kind::Equals | Kind::Comment
        )) {
            assert(!is_unnamed_part(*tree, ty, default, error, nodes@[i as int]));
            return false;
        }
        i += 1;
    }
    true
}

/// Whether an error is the star of an unnamed pointer with a default in the template
/// parameters of a member function.
pub fn unnamed_pointer_template_parameter(tree: &SyntaxTree, error: usize) -> (r: bool)
    ensures
        r == is_unnamed_pointer(*tree, error),
{
    if tree.kind(error) != Kind::Error || !tree.text_is(error, "*") {
        return false;
    }
    let parameter = match tree.parent(error) {
        None => {
            return false;
        },
        Some(parameter) => parameter,
    };
    if tree.kind(parameter) != Kind::OptionalParameterDeclaration {
        return false;
    }
    let list = match tree.parent(parameter) {
        None => {
            return false;
        },
        Some(list) => list,
    };
    if tree.kind(list) != Kind::TemplateParameterList {
        return false;
    }
    let template = match tree.parent(list) {
        None => {
            return false;
        },
        Some(template) => template,
    };
    match (
        tree.child_by_field(parameter, Field::Type),
        tree.child_by_field(parameter, Field::DefaultValue),
    ) {
        (Some(ty), Some(default)) => {
            if tree.child_by_field(parameter, Field::Declarator).is_some() || tree.data(
                ty,
            ).has_error || tree.data(default).has_error {
                return false;
            }
            only_unnamed_parts(tree, ty, default, error, tree.children(parameter))
                && member_function_template_name(tree, template).is_some()
        },
        _ => false,
    }
}

/// Whether a missing type is the one of an empty braced default: the grammar repairs
/// `= {}` as a literal without a type.
pub open spec fn is_empty_default(tree: SyntaxTree, n: usize) -> bool {
    tree.node(n).missing && tree.kind_of(n) == Kind::TypeIdentifier && match tree.parent_of(n) {
        None => false,
        Some(literal) => tree.kind_of(literal) == Kind::CompoundLiteralExpression && (
        match tree.text_of(literal) {
            None => false,
            Some(text) => without_space(text) == "{}".spec_bytes(),
        }) && match tree.parent_of(literal) {
            None => false,
            Some(parameter) => tree.kind_of(parameter) == Kind::OptionalParameterDeclaration
                && tree.child_in_role(parameter, Field::DefaultValue) == Some(literal),
        },
    }
}

fn empty_default(tree: &SyntaxTree, n: usize) -> (r: bool)
    ensures
        r == is_empty_default(*tree, n),
{
    if !tree.data(n).missing || tree.kind(n) != Kind::TypeIdentifier {
        return false;
    }
    let literal = match tree.parent(n) {
        None => {
            return false;
        },
        Some(literal) => literal,
    };
    if tree.kind(literal) != Kind::CompoundLiteralExpression {
        return false;
    }
    match tree.node_text(literal) {
        None => {
            return false;
        },
        Some(text) => {
            if !same_bytes(drop_space(text).as_slice(), "{}".as_bytes()) {
                return false;
            }
        },
    }
    match tree.parent(literal) {
        None => false,
        Some(parameter) => tree.kind(parameter) == Kind::OptionalParameterDeclaration
            && tree.child_by_field(parameter, Field::DefaultValue) == Some(literal),
    }
}

/// Whether the body of a function is delimited by real braces.
pub open spec fn is_delimited(tree: SyntaxTree, body: usize) -> bool {
    let children = tree.children_of(body);
    tree.kind_of(body) == Kind::CompoundStatement && children.len() > 0 && tree.kind_of(children[0])
        == Kind::OpenBrace && !tree.node(children[0]).missing && tree.kind_of(children.last())
        == Kind::CloseBrace && !tree.node(children.last()).missing
}

/// Whether an error in a class may hide a member. The statements in the body of a member
/// function add none.
pub open spec fn may_hide_member(tree: SyntaxTree, n: usize) -> bool
    decreases tree.count() - n, 1int, 0int,
{
    if !tree.node(n).has_error && !tree.node(n).missing {
        false
    } else if tree.kind_of(n) == Kind::FunctionDefinition {
        match tree.child_in_role(n, Field::Body) {
            None => true,
            Some(body) => !is_delimited(tree, body) || part_may_hide(
                tree,
                n,
                Some(body),
                tree.children_of(n).len(),
            ),
        }
    } else if is_unnamed_pointer(tree, n) || is_empty_default(tree, n) {
        false
    } else {
        tree.kind_of(n) == Kind::Error || tree.node(n).missing || part_may_hide(
            tree,
            n,
            None,
            tree.children_of(n).len(),
        )
    }
}

/// Whether an error in one of the first children of a node, but for one, may hide a
/// member.
pub open spec fn part_may_hide(
    tree: SyntaxTree,
    n: usize,
    body: Option<usize>,
    count: nat,
) -> bool
    decreases tree.count() - n, 0int, count,
    via part_may_hide_decreases
{
    if count == 0 || count > tree.children_of(n).len() {
        false
    } else {
        let c = tree.children_of(n)[count - 1];
        part_may_hide(tree, n, body, (count - 1) as nat) || (body != Some(c) && may_hide_member(
            tree,
            c,
        ))
    }
}

#[via_fn]
proof fn part_may_hide_decreases(tree: SyntaxTree, n: usize, body: Option<usize>, count: nat) {
    if count > 0 && count <= tree.children_of(n).len() {
        tree.children_come_later(n, count - 1);
    }
}

proof fn lemma_hiding_stays(
    tree: SyntaxTree,
    n: usize,
    body: Option<usize>,
    count: nat,
    more: nat,
)
    requires
        count <= more <= tree.children_of(n).len(),
        part_may_hide(tree, n, body, count),
    ensures
        part_may_hide(tree, n, body, more),
    decreases more,
{
    if count < more {
        lemma_hiding_stays(tree, n, body, count, (more - 1) as nat);
    }
}

fn unmodeled_part(tree: &SyntaxTree, n: usize, body: Option<usize>) -> (r: bool)
    ensures
        r == part_may_hide(*tree, n, body, tree.children_of(n).len()),
    decreases tree.count() - n, 0int,
{
    let children = tree.children(n);
    let mut i: usize = 0;
    while i < children.len()
        invariant
            i <= children@.len(),
            children@ == tree.children_of(n),
            !part_may_hide(*tree, n, body, i as nat),
        decreases children@.len() - i,
    {
        let c: usize = children[i];
        proof {
            tree.children_come_later(n, i as int);
        }
        if body != Some(c) && unmodeled_record_error(tree, c) {
            proof {
                lemma_hiding_stays(*tree, n, body, (i + 1) as nat, children@.len());
            }
            return true;
        }
        i += 1;
    }
    false
}

/// Whether an error in a class may hide a member.
pub fn unmodeled_record_error(tree: &SyntaxTree, n: usize) -> (r: bool)
    ensures
        r == may_hide_member(*tree, n),
    decreases tree.count() - n, 1int,
{
    if !tree.data(n).has_error && !tree.data(n).missing {
        return false;
    }
    if tree.kind(n) == Kind::FunctionDefinition {
        let body = match tree.child_by_field(n, Field::Body) {
            None => {
                return true;
            },
            Some(body) => body,
        };
        let children = tree.children(body);
        if tree.kind(body) != Kind::CompoundStatement || children.len() == 0 {
            return true;
        }
        let first: usize = children[0];
        let last: usize = children[children.len() - 1];
        if tree.kind(first) != Kind::OpenBrace || tree.data(first).missing || tree.kind(last)
            != Kind::CloseBrace || tree.data(last).missing {
            return true;
        }
        return unmodeled_part(tree, n, Some(body));
    }
    if unnamed_pointer_template_parameter(tree, n) || empty_default(tree, n) {
        return false;
    }
    if tree.kind(n) == Kind::Error || tree.data(n).missing {
        return true;
    }
    unmodeled_part(tree, n, None)
}

/// Whether one of some nodes is written as a word.
pub open spec fn has_word(tree: SyntaxTree, nodes: Seq<usize>, word: Seq<u8>) -> bool {
    exists|i: int| 0 <= i < nodes.len() && tree.text_of(#[trigger] nodes[i]) == Some(word)
}

/// Whether one of some nodes is written as a word.
pub fn find_word(tree: &SyntaxTree, nodes: &[usize], word: &[u8]) -> (r: bool)
    ensures
        r == has_word(*tree, nodes@, word@),
{
    let mut i: usize = 0;
    while i < nodes.len()
        invariant
            i <= nodes@.len(),
            forall|k: int| 0 <= k < i ==> tree.text_of(#[trigger] nodes@[k]) != Some(word@),
        decreases nodes@.len() - i,
    {
        if let Some(text) = tree.node_text(nodes[i]) {
            if same_bytes(text, word) {
                assert(tree.text_of(nodes@[i as int]) == Some(word@));
                return true;
            }
        }
        i += 1;
    }
    false
}

/// Groups of nodes between commas. There is one group more than commas.
pub open spec fn comma_groups(tree: SyntaxTree, nodes: Seq<usize>) -> Seq<Seq<usize>>
    decreases nodes.len(),
{
    if nodes.len() == 0 {
        seq![Seq::empty()]
    } else {
        let before = comma_groups(tree, nodes.drop_last());
        if tree.kind_of(nodes.last()) == Kind::Comma {
            before.push(Seq::empty())
        } else {
            before.drop_last().push(before.last().push(nodes.last()))
        }
    }
}

/// Lists of nodes.
pub open spec fn group_views(groups: Seq<Vec<usize>>) -> Seq<Seq<usize>> {
    groups.map_values(|g: Vec<usize>| g@)
}

fn split_groups(tree: &SyntaxTree, nodes: &[usize]) -> (r: Vec<Vec<usize>>)
    ensures
        group_views(r@) == comma_groups(*tree, nodes@),
        r@.len() > 0,
{
    let mut groups: Vec<Vec<usize>> = Vec::new();
    let none: Vec<usize> = Vec::new();
    groups.push(none);
    let mut i: usize = 0;
    assert(group_views(groups@) =~= seq![Seq::empty()]);
    while i < nodes.len()
        invariant
            i <= nodes@.len(),
            groups@.len() > 0,
            group_views(groups@) == comma_groups(*tree, nodes@.take(i as int)),
        decreases nodes@.len() - i,
    {
        assert(nodes@.take(i + 1).drop_last() =~= nodes@.take(i as int));
        let n: usize = nodes[i];
        let ghost before = group_views(groups@);
        if tree.kind(n) == Kind::Comma {
            let none: Vec<usize> = Vec::new();
            groups.push(none);
            assert(group_views(groups@) =~= before.push(Seq::empty()));
        } else {
            let last = groups.len() - 1;
            let mut group: Vec<usize> = Vec::new();
            let ghost held = groups@[last as int]@;
            assert(before.last() == held);
            std::mem::swap(&mut group, &mut groups[last]);
            group.push(n);
            groups.set(last, group);
            assert(group_views(groups@) =~= before.drop_last().push(held.push(n)));
        }
        i += 1;
    }
    assert(nodes@.take(i as int) =~= nodes@);
    groups
}

/// What the captures of a closure say so far; what is read before something that is
/// not understood stays.
#[verifier::ext_equal]
pub struct CapturesView {
    pub default: Option<CppCaptureKind>,
    pub names: Seq<CaptureView>,
    pub failed: bool,
}

/// What one written capture stands for.
pub enum CaptureGroup {
    Default(Option<CppCaptureKind>),
    This,
    One(usize, CppCaptureKind),
    Unknown,
}

/// What one written capture stands for.
pub open spec fn capture_group(tree: SyntaxTree, group: Seq<usize>) -> CaptureGroup {
    if group.len() == 1 && tree.kind_of(group[0]) == Kind::LambdaDefaultCapture {
        CaptureGroup::Default(
            match tree.text_of(group[0]) {
                Some(text) if text == "=".spec_bytes() => Some(CppCaptureKind::Copy),
                Some(text) if text == "&".spec_bytes() => Some(CppCaptureKind::Reference),
                _ => None,
            },
        )
    } else if group.len() == 1 && tree.kind_of(group[0]) == Kind::This {
        CaptureGroup::This
    } else if group.len() == 2 && tree.kind_of(group[0]) == Kind::Star && tree.kind_of(group[1])
        == Kind::This {
        CaptureGroup::This
    } else if group.len() == 1 {
        CaptureGroup::One(group[0], CppCaptureKind::Copy)
    } else if group.len() == 2 && tree.kind_of(group[0]) == Kind::Ampersand {
        CaptureGroup::One(group[1], CppCaptureKind::Reference)
    } else {
        CaptureGroup::Unknown
    }
}

/// The name and kind of a written capture. What an initializer or a pack gives is not
/// known.
pub open spec fn captured(tree: SyntaxTree, n: usize, kind: CppCaptureKind) -> Option<CaptureView> {
    match tree.kind_of(n) {
        Kind::Identifier => match tree.text_of(n) {
            None => None,
            Some(name) => Some(CaptureView { name, kind }),
        },
        Kind::LambdaCaptureInitializer => match tree.child_in_role(n, Field::Left) {
            None => None,
            Some(left) => match tree.text_of(left) {
                None => None,
                Some(name) => Some(CaptureView { name, kind: CppCaptureKind::Unknown }),
            },
        },
        Kind::ParameterPackExpansion => match tree.first_of(
            tree.named_children_of(n),
            seq![Kind::Identifier],
            Seq::empty(),
        ) {
            None => None,
            Some(own) => match tree.text_of(own) {
                None => None,
                Some(name) => Some(CaptureView { name, kind: CppCaptureKind::Unknown }),
            },
        },
        _ => None,
    }
}

/// Whether a name is already captured.
pub open spec fn is_captured(names: Seq<CaptureView>, name: Seq<u8>) -> bool {
    exists|i: int| 0 <= i < names.len() && (#[trigger] names[i]).name == name
}

/// What the captures say with the first groups.
pub open spec fn captures_in(tree: SyntaxTree, groups: Seq<Seq<usize>>) -> CapturesView
    decreases groups.len(),
{
    if groups.len() == 0 {
        CapturesView { default: None, names: Seq::empty(), failed: false }
    } else {
        let before = captures_in(tree, groups.drop_last());
        if before.failed {
            before
        } else {
            match capture_group(tree, groups.last()) {
                CaptureGroup::Default(None) => CapturesView {
                    failed: true,
                    ..before
                },
                CaptureGroup::Default(Some(kind)) => CapturesView {
                    default: Some(kind),
                    ..before
                },
                CaptureGroup::This => before,
                CaptureGroup::Unknown => CapturesView { failed: true, ..before },
                CaptureGroup::One(n, kind) => match captured(tree, n, kind) {
                    None => CapturesView { failed: true, ..before },
                    Some(capture) => if is_captured(before.names, capture.name) {
                        CapturesView { failed: true, ..before }
                    } else {
                        CapturesView { names: before.names.push(capture), ..before }
                    },
                },
            }
        }
    }
}

/// The written captures of a closure, without brackets and comments.
pub open spec fn capture_nodes(tree: SyntaxTree, captures: usize) -> Seq<usize> {
    tree.without(
        tree.children_of(captures),
        seq![Kind::OpenBracket, Kind::CloseBracket, Kind::Comment],
    )
}

/// What the captures of a closure say.
pub open spec fn captures_of(tree: SyntaxTree, captures: usize) -> CapturesView {
    let nodes = capture_nodes(tree, captures);
    if nodes.len() == 0 {
        CapturesView { default: None, names: Seq::empty(), failed: false }
    } else {
        captures_in(tree, comma_groups(tree, nodes))
    }
}

/// Whether the written captures of a closure can be read.
pub open spec fn has_clean_captures(tree: SyntaxTree, lambda: usize, captures: usize) -> bool {
    !tree.node(captures).has_error && !tree.node(captures).missing && tree.child_in_role(
        lambda,
        Field::Body,
    ) is Some && match tree.child_in_role(lambda, Field::Declarator) {
        None => true,
        Some(declarator) => !tree.node(declarator).has_error,
    }
}

/// What a closure writes down of its captures. No symbol or binding is known of it yet.
pub open spec fn lambda_captures(tree: SyntaxTree, lambda: usize) -> LambdaCaptureView {
    let plain = LambdaCaptureView {
        symbol_id: None,
        enclosing_symbol: None,
        binding_id: None,
        binding_const: false,
        parameter_count: None,
        range: tree.range_of(lambda),
        body_range: tree.range_of(
            match tree.child_in_role(lambda, Field::Body) {
                None => lambda,
                Some(body) => body,
            },
        ),
        default: None,
        captures: None,
        mutable_: match tree.child_in_role(lambda, Field::Declarator) {
            None => false,
            Some(declarator) => has_word(
                tree,
                tree.children_of(declarator),
                "mutable".spec_bytes(),
            ),
        },
    };
    match tree.child_in_role(lambda, Field::Captures) {
        Some(captures) if has_clean_captures(tree, lambda, captures) => {
            let read = captures_of(tree, captures);
            LambdaCaptureView {
                default: read.default,
                captures: if read.failed {
                    None
                } else {
                    Some(read.names)
                },
                ..plain
            }
        },
        _ => plain,
    }
}

fn read_group(tree: &SyntaxTree, group: &[usize]) -> (r: CaptureGroup)
    ensures
        r == capture_group(*tree, group@),
{
    if group.len() == 1 {
        let n: usize = group[0];
        match tree.kind(n) {
            Kind::LambdaDefaultCapture => CaptureGroup::Default(
                if tree.text_is(n, "=") {
                    Some(CppCaptureKind::Copy)
                } else if tree.text_is(n, "&") {
                    Some(CppCaptureKind::Reference)
                } else {
                    None
                },
            ),
            Kind::This => CaptureGroup::This,
            _ => CaptureGroup::One(n, CppCaptureKind::Copy),
        }
    } else if group.len() == 2 {
        if tree.kind(group[0]) == Kind::Star && tree.kind(group[1]) == Kind::This {
            CaptureGroup::This
        } else if tree.kind(group[0]) == Kind::Ampersand {
            CaptureGroup::One(group[1], CppCaptureKind::Reference)
        } else {
            CaptureGroup::Unknown
        }
    } else {
        CaptureGroup::Unknown
    }
}

fn read_capture(tree: &SyntaxTree, n: usize, kind: CppCaptureKind) -> (r: Option<CppCapture>)
    ensures
        optional_view(r) == captured(*tree, n, kind),
{
    let (own, kind) = match tree.kind(n) {
        Kind::Identifier => (Some(n), kind),
        Kind::LambdaCaptureInitializer => (
            tree.child_by_field(n, Field::Left),
            CppCaptureKind::Unknown,
        ),
        Kind::ParameterPackExpansion => {
            let want = [Kind::Identifier];
            let never: [Kind; 0] = [];
            assert(want@ =~= seq![Kind::Identifier]);
            assert(never@ =~= Seq::empty());
            let children = tree.named_children(n);
            (tree.find_first(children.as_slice(), &want, &never), CppCaptureKind::Unknown)
        },
        _ => (None, kind),
    };
    match own {
        None => None,
        Some(own) => match tree.node_text(own) {
            None => None,
            Some(name) => Some(CppCapture { name: Text::from_bytes(name), kind }),
        },
    }
}

fn find_captured(names: &[CppCapture], name: &[u8]) -> (r: bool)
    ensures
        r == is_captured(views(names@), name@),
{
    let mut i: usize = 0;
    while i < names.len()
        invariant
            i <= names@.len(),
            forall|k: int| 0 <= k < i ==> (#[trigger] views(names@)[k]).name != name@,
        decreases names@.len() - i,
    {
        if same_bytes(names[i].name.as_bytes(), name) {
            assert(views(names@)[i as int].name == name@);
            return true;
        }
        i += 1;
    }
    false
}

/// What the captures of a closure say.
struct Captures {
    default: Option<CppCaptureKind>,
    names: Vec<CppCapture>,
    failed: bool,
}

impl View for Captures {
    type V = CapturesView;

    closed spec fn view(&self) -> CapturesView {
        CapturesView { default: self.default, names: views(self.names@), failed: self.failed }
    }
}

proof fn lemma_failure_stays(tree: SyntaxTree, groups: Seq<Seq<usize>>, count: int)
    requires
        0 <= count <= groups.len(),
        captures_in(tree, groups.take(count)).failed,
    ensures
        captures_in(tree, groups) == captures_in(tree, groups.take(count)),
    decreases groups.len(),
{
    if count == groups.len() {
        assert(groups.take(count) =~= groups);
    } else {
        assert(groups.drop_last().take(count) =~= groups.take(count));
        lemma_failure_stays(tree, groups.drop_last(), count);
    }
}

fn read_captures(tree: &SyntaxTree, captures: usize) -> (r: Captures)
    ensures
        r@ == captures_of(*tree, captures),
{
    let drop = [Kind::OpenBracket, Kind::CloseBracket, Kind::Comment];
    assert(drop@ =~= seq![Kind::OpenBracket, Kind::CloseBracket, Kind::Comment]);
    let nodes = tree.drop_kinds(tree.children(captures), &drop);
    let mut read = Captures { default: None, names: Vec::new(), failed: false };
    assert(read@.names =~= Seq::empty());
    if nodes.len() == 0 {
        return read;
    }
    let list = split_groups(tree, nodes.as_slice());
    let ghost groups = group_views(list@);
    let mut i: usize = 0;
    assert(groups.take(0) =~= Seq::empty());
    while i < list.len()
        invariant
            i <= list@.len(),
            groups == group_views(list@),
            groups == comma_groups(*tree, nodes@),
            nodes@ == capture_nodes(*tree, captures),
            nodes@.len() > 0,
            !read.failed,
            read@ == captures_in(*tree, groups.take(i as int)),
        decreases list@.len() - i,
    {
        proof {
            assert(groups.take(i + 1).drop_last() =~= groups.take(i as int));
            assert(groups.take(i + 1).last() == list@[i as int]@);
            if captures_in(*tree, groups.take(i + 1)).failed {
                lemma_failure_stays(*tree, groups, i + 1);
            }
        }
        match read_group(tree, list[i].as_slice()) {
            CaptureGroup::Default(None) => {
                read.failed = true;
                return read;
            },
            CaptureGroup::Default(Some(kind)) => {
                read.default = Some(kind);
            },
            CaptureGroup::This => {},
            CaptureGroup::Unknown => {
                read.failed = true;
                return read;
            },
            CaptureGroup::One(n, kind) => {
                match read_capture(tree, n, kind) {
                    None => {
                        read.failed = true;
                        return read;
                    },
                    Some(capture) => {
                        if find_captured(read.names.as_slice(), capture.name.as_bytes()) {
                            read.failed = true;
                            return read;
                        }
                        let ghost before = read.names@;
                        read.names.push(capture);
                        proof {
                            lemma_push_view(before, capture);
                        }
                    },
                }
            },
        }
        i += 1;
    }
    assert(groups.take(i as int) =~= groups);
    read
}

/// What a closure writes down of its captures.
pub fn lambda_capture(tree: &SyntaxTree, lambda: usize) -> (r: CppLambdaCapture)
    ensures
        r@ == lambda_captures(*tree, lambda),
{
    let body = tree.child_by_field(lambda, Field::Body);
    let declarator = tree.child_by_field(lambda, Field::Declarator);
    let mut result = CppLambdaCapture {
        symbol_id: None,
        enclosing_symbol: None,
        binding_id: None,
        binding_const: false,
        parameter_count: None,
        range: tree.range(lambda),
        body_range: tree.range(
            match body {
                None => lambda,
                Some(body) => body,
            },
        ),
        default: None,
        captures: None,
        mutable_: match declarator {
            None => false,
            Some(declarator) => find_word(
                tree,
                tree.children(declarator),
                "mutable".as_bytes(),
            ),
        },
    };
    let captures = match tree.child_by_field(lambda, Field::Captures) {
        None => {
            return result;
        },
        Some(captures) => captures,
    };
    let broken = match declarator {
        None => false,
        Some(declarator) => tree.data(declarator).has_error,
    };
    if tree.data(captures).has_error || tree.data(captures).missing || body.is_none() || broken {
        return result;
    }
    let read = read_captures(tree, captures);
    result.default = read.default;
    if !read.failed {
        result.captures = Some(read.names);
    }
    result
}

/// Whether a closure keeps the pointer to the object around it by an explicit capture.
/// A copy of the object, or a default, is something else.
pub open spec fn keeps_this(tree: SyntaxTree, lambda: usize) -> bool {
    match tree.child_in_role(lambda, Field::Captures) {
        None => false,
        Some(captures) => !tree.node(captures).has_error && !tree.has_one_of(
            tree.children_of(captures),
            seq![Kind::Star],
        ) && tree.has_one_of(tree.children_of(captures), seq![Kind::This]),
    }
}

/// Whether a closure keeps the pointer to the object around it by an explicit capture.
pub fn captures_this(tree: &SyntaxTree, lambda: usize) -> (r: bool)
    ensures
        r == keeps_this(*tree, lambda),
{
    let star = [Kind::Star];
    let this = [Kind::This];
    assert(star@ =~= seq![Kind::Star]);
    assert(this@ =~= seq![Kind::This]);
    match tree.child_by_field(lambda, Field::Captures) {
        None => false,
        Some(captures) => !tree.data(captures).has_error && !tree.has_any(
            tree.children(captures),
            &star,
        ) && tree.has_any(tree.children(captures), &this),
    }
}

/// The base classes among the first children of a clause, and whether the next is
/// virtual; nothing where one cannot be read.
pub open spec fn bases_in(tree: SyntaxTree, nodes: Seq<usize>) -> Option<(Seq<BaseClassView>, bool)>
    decreases nodes.len(),
{
    if nodes.len() == 0 {
        Some((Seq::empty(), false))
    } else {
        let n = nodes.last();
        match bases_in(tree, nodes.drop_last()) {
            None => None,
            Some((bases, virtual_)) => match tree.kind_of(n) {
                Kind::Colon | Kind::AccessSpecifier | Kind::Comment => Some((bases, virtual_)),
                Kind::VirtualKeyword => Some((bases, true)),
                Kind::Comma => Some((bases, false)),
                Kind::TypeIdentifier | Kind::QualifiedIdentifier | Kind::TemplateType => {
                    match type_at(tree, n) {
                        None => None,
                        Some(declared_type) => Some(
                            (
                                bases.push(
                                    BaseClassView {
                                        declared_type,
                                        virtual_,
                                        range: tree.range_of(n),
                                    },
                                ),
                                virtual_,
                            ),
                        ),
                    }
                },
                _ => None,
            },
        }
    }
}

/// The base classes of a clause.
pub open spec fn bases_of(tree: SyntaxTree, clause: usize) -> Option<Seq<BaseClassView>> {
    match bases_in(tree, tree.children_of(clause)) {
        None => None,
        Some((bases, _)) => Some(bases),
    }
}

proof fn lemma_bases_stay(tree: SyntaxTree, nodes: Seq<usize>, count: int)
    requires
        0 <= count <= nodes.len(),
        bases_in(tree, nodes.take(count)) is None,
    ensures
        bases_in(tree, nodes) is None,
    decreases nodes.len(),
{
    if count == nodes.len() {
        assert(nodes.take(count) =~= nodes);
    } else {
        assert(nodes.drop_last().take(count) =~= nodes.take(count));
        lemma_bases_stay(tree, nodes.drop_last(), count);
    }
}

/// The base classes of a clause.
pub fn base_classes(tree: &SyntaxTree, clause: usize) -> (r: Option<Vec<CppBaseClass>>)
    ensures
        crate::cpp_facts::optional_list(r) == bases_of(*tree, clause),
{
    let nodes = tree.children(clause);
    let mut bases: Vec<CppBaseClass> = Vec::new();
    let mut virtual_ = false;
    let mut i: usize = 0;
    assert(views(bases@) =~= Seq::<BaseClassView>::empty());
    while i < nodes.len()
        invariant
            i <= nodes@.len(),
            nodes@ == tree.children_of(clause),
            bases_in(*tree, nodes@.take(i as int)) == Some((views(bases@), virtual_)),
        decreases nodes@.len() - i,
    {
        let n: usize = nodes[i];
        proof {
            assert(nodes@.take(i + 1).drop_last() =~= nodes@.take(i as int));
            if bases_in(*tree, nodes@.take(i + 1)) is None {
                lemma_bases_stay(*tree, nodes@, i + 1);
            }
        }
        match tree.kind(n) {
            Kind::Colon | Kind::AccessSpecifier | Kind::Comment => {},
            Kind::VirtualKeyword => {
                virtual_ = true;
            },
            Kind::Comma => {
                virtual_ = false;
            },
            Kind::TypeIdentifier | Kind::QualifiedIdentifier | Kind::TemplateType => {
                match declared_type(tree, n) {
                    None => {
                        return None;
                    },
                    Some(declared_type) => {
                        let ghost before = bases@;
                        let base = CppBaseClass { declared_type, virtual_, range: tree.range(n) };
                        bases.push(base);
                        proof {
                            lemma_push_view(before, base);
                        }
                    },
                }
            },
            _ => {
                return None;
            },
        }
        i += 1;
    }
    assert(nodes@.take(i as int) =~= nodes@);
    Some(bases)
}

/// The kinds of nodes that declare variables, fields and parameters.
pub open spec fn value_kinds() -> Seq<Kind> {
    seq![
        Kind::Declaration,
        Kind::FieldDeclaration,
        Kind::ParameterDeclaration,
        Kind::OptionalParameterDeclaration,
    ]
}

/// The declaration of a value, and its type where this is supported.
pub open spec fn value_type_of(tree: SyntaxTree, range: TextRange) -> Option<
    (usize, Option<DeclaredTypeView>),
> {
    match node_over(tree, range) {
        None => None,
        Some(name) => match enclosing_of(tree, name, value_kinds()) {
            None => None,
            Some(declaration) => Some((declaration, value_type_in(tree, name, declaration))),
        },
    }
}

/// The declaration of a value, and its type where this is supported.
pub fn value_type(tree: &SyntaxTree, range: TextRange) -> (r: Option<
    (usize, Option<CppDeclaredType>),
>)
    ensures
        match r {
            None => value_type_of(*tree, range) is None,
            Some((declaration, ty)) => value_type_of(*tree, range) == Some(
                (declaration, optional_view(ty)),
            ),
        },
{
    let kinds = [
        Kind::Declaration,
        Kind::FieldDeclaration,
        Kind::ParameterDeclaration,
        Kind::OptionalParameterDeclaration,
    ];
    assert(kinds@ =~= value_kinds());
    match at(tree, range) {
        None => None,
        Some(name) => match ancestor(tree, name, &kinds) {
            None => None,
            Some(declaration) => Some((declaration, read_value_type(tree, name, declaration))),
        },
    }
}

/// Whether a reference is a call inside a node.
pub open spec fn is_call_in(tree: SyntaxTree, n: usize, reference: ReferenceUse) -> bool {
    reference.kind == ReferenceKind::Call && tree.range_of(n).covers(reference.range)
}

/// The calls inside a node.
pub open spec fn calls_in(
    tree: SyntaxTree,
    n: usize,
    references: Seq<ReferenceUse>,
) -> Seq<ReferenceUse> {
    references.filter(|r: ReferenceUse| is_call_in(tree, n, r))
}

/// The callee of a plain `auto name = call(...)`.
pub open spec fn auto_callee(tree: SyntaxTree, range: TextRange, declaration: usize) -> Option<
    usize,
> {
    match (tree.child_in_role(declaration, Field::Type), node_over(tree, range)) {
        (Some(ty), Some(name)) => if tree.node(declaration).has_error || is_within(
            tree,
            declaration,
            seq![Kind::TemplateDeclaration],
        ) || tree.text_of(ty) != Some("auto".spec_bytes()) || tree.has_one_of(
            tree.named_children_of(declaration),
            seq![Kind::TypeQualifier],
        ) {
            None
        } else {
            match tree.parent_of(name) {
                Some(initializer) if tree.kind_of(initializer) == Kind::InitDeclarator => {
                    match tree.child_in_role(initializer, Field::Value) {
                        Some(value) if tree.kind_of(value) == Kind::CallExpression => {
                            tree.child_in_role(value, Field::Function)
                        },
                        _ => None,
                    }
                },
                _ => None,
            }
        },
        _ => None,
    }
}

/// The one call whose result a plain `auto` takes its type from.
pub open spec fn auto_call(
    tree: SyntaxTree,
    range: TextRange,
    declaration: usize,
    references: Seq<ReferenceUse>,
) -> Option<ReferenceId> {
    match auto_callee(tree, range, declaration) {
        None => None,
        Some(callee) => {
            let calls = calls_in(tree, callee, references);
            if calls.len() == 1 {
                Some(calls[0].id)
            } else {
                None
            }
        },
    }
}

fn find_auto_callee(tree: &SyntaxTree, range: TextRange, declaration: usize) -> (r: Option<usize>)
    ensures
        r == auto_callee(*tree, range, declaration),
{
    let templates = [Kind::TemplateDeclaration];
    let qualifiers = [Kind::TypeQualifier];
    assert(templates@ =~= seq![Kind::TemplateDeclaration]);
    assert(qualifiers@ =~= seq![Kind::TypeQualifier]);
    match (tree.child_by_field(declaration, Field::Type), at(tree, range)) {
        (Some(ty), Some(name)) => {
            let parts = tree.named_children(declaration);
            if tree.data(declaration).has_error || has_ancestor(tree, declaration, &templates)
                || !tree.text_is(ty, "auto") || tree.has_any(parts.as_slice(), &qualifiers) {
                return None;
            }
            match tree.parent(name) {
                None => None,
                Some(initializer) => {
                    if tree.kind(initializer) != Kind::InitDeclarator {
                        return None;
                    }
                    match tree.child_by_field(initializer, Field::Value) {
                        None => None,
                        Some(value) => if tree.kind(value) == Kind::CallExpression {
                            tree.child_by_field(value, Field::Function)
                        } else {
                            None
                        },
                    }
                },
            }
        },
        _ => None,
    }
}

/// The one call whose result a plain `auto` takes its type from.
pub fn auto_initializer(
    tree: &SyntaxTree,
    range: TextRange,
    declaration: usize,
    references: &[ReferenceUse],
) -> (r: Option<ReferenceId>)
    ensures
        r == auto_call(*tree, range, declaration, references@),
{
    let callee = match find_auto_callee(tree, range, declaration) {
        None => {
            return None;
        },
        Some(callee) => callee,
    };
    let ghost keep = |r: ReferenceUse| is_call_in(*tree, callee, r);
    let mut calls: Vec<ReferenceId> = Vec::new();
    let mut i: usize = 0;
    assert(references@.take(0).filter(keep) =~= Seq::empty()) by {
        reveal(Seq::filter);
    }
    assert(calls@ =~= references@.take(0).filter(keep).map_values(|r: ReferenceUse| r.id));
    while i < references.len()
        invariant
            i <= references@.len(),
            keep == (|r: ReferenceUse| is_call_in(*tree, callee, r)),
            calls@ == references@.take(i as int).filter(keep).map_values(|r: ReferenceUse| r.id),
        decreases references@.len() - i,
    {
        proof {
            crate::collections::lemma_filter_step(references@, keep, i as int);
        }
        let ghost before = references@.take(i as int).filter(keep);
        let reference = &references[i];
        if reference.kind == ReferenceKind::Call && tree.range(callee).contains_range(
            &reference.range,
        ) {
            calls.push(reference.id);
            assert(calls@ =~= before.push(*reference).map_values(|r: ReferenceUse| r.id));
        }
        i += 1;
    }
    assert(references@.take(i as int) =~= references@);
    if calls.len() == 1 {
        Some(calls[0])
    } else {
        None
    }
}

/// How deep written arguments are read.
pub const MAX_ARGUMENT_DEPTH: usize = 16;

/// What a written argument says, to a depth.
pub open spec fn argument_at(tree: SyntaxTree, n: usize, left: nat) -> ArgumentExpressionView
    decreases left,
{
    if left == 0 || tree.node(n).has_error {
        ArgumentExpressionView::Unknown
    } else {
        match tree.kind_of(n) {
            Kind::Identifier => match tree.text_of(n) {
                None => ArgumentExpressionView::Unknown,
                Some(name) => ArgumentExpressionView::Name { name },
            },
            Kind::FieldExpression => match (
                tree.child_in_role(n, Field::Argument),
                tree.child_in_role(n, Field::Field),
                role_text(tree, n, Field::Operator),
            ) {
                (Some(object), Some(field), Some(operator)) if tree.kind_of(field)
                    == Kind::FieldIdentifier && (token_is(operator, ".") || token_is(
                    operator,
                    "->",
                )) => ArgumentExpressionView::Field {
                    object: Box::new(argument_at(tree, object, (left - 1) as nat)),
                    name: match tree.text_of(field) {
                        None => Seq::empty(),
                        Some(name) => name,
                    },
                    arrow: token_is(operator, "->"),
                },
                _ => ArgumentExpressionView::Unknown,
            },
            Kind::NumberLiteral | Kind::CharLiteral | Kind::True | Kind::False => match tree.text_of(
                n,
            ) {
                None => ArgumentExpressionView::Unknown,
                Some(text) => ArgumentExpressionView::Literal { text },
            },
            Kind::ParenthesizedExpression => match tree.sole_part_of(n) {
                None => ArgumentExpressionView::Unknown,
                Some(inner) => argument_at(tree, inner, (left - 1) as nat),
            },
            Kind::BinaryExpression => match (
                role_text(tree, n, Field::Operator),
                tree.child_in_role(n, Field::Left),
                tree.child_in_role(n, Field::Right),
            ) {
                (Some(operator), Some(a), Some(b)) => ArgumentExpressionView::Binary {
                    operator,
                    left: Box::new(argument_at(tree, a, (left - 1) as nat)),
                    right: Box::new(argument_at(tree, b, (left - 1) as nat)),
                },
                _ => ArgumentExpressionView::Unknown,
            },
            _ => ArgumentExpressionView::Unknown,
        }
    }
}

/// What a written argument says.
pub fn argument_expression(tree: &SyntaxTree, n: usize, depth: usize) -> (r: CppArgumentExpression)
    ensures
        r@ == argument_at(
            *tree,
            n,
            if depth >= MAX_ARGUMENT_DEPTH {
                0
            } else {
                (MAX_ARGUMENT_DEPTH - depth) as nat
            },
        ),
    decreases MAX_ARGUMENT_DEPTH - depth,
{
    if depth >= MAX_ARGUMENT_DEPTH || tree.data(n).has_error {
        return CppArgumentExpression::Unknown;
    }
    match tree.kind(n) {
        Kind::Identifier => match tree.node_text(n) {
            None => CppArgumentExpression::Unknown,
            Some(name) => CppArgumentExpression::Name { name: Text::from_bytes(name) },
        },
        Kind::FieldExpression => match (
            tree.child_by_field(n, Field::Argument),
            tree.child_by_field(n, Field::Field),
            find_role_text(tree, n, Field::Operator),
        ) {
            (Some(object), Some(field), Some(operator)) => {
                let arrow = is_token(operator, "->");
                if tree.kind(field) != Kind::FieldIdentifier || !(arrow || is_token(
                    operator,
                    ".",
                )) {
                    return CppArgumentExpression::Unknown;
                }
                let none: [u8; 0] = [];
                assert(none@ =~= Seq::empty());
                let name = match tree.node_text(field) {
                    None => Text::from_bytes(&none),
                    Some(name) => Text::from_bytes(name),
                };
                CppArgumentExpression::Field {
                    object: Box::new(argument_expression(tree, object, depth + 1)),
                    name,
                    arrow,
                }
            },
            _ => CppArgumentExpression::Unknown,
        },
        Kind::NumberLiteral | Kind::CharLiteral | Kind::True | Kind::False => match tree.node_text(
            n,
        ) {
            None => CppArgumentExpression::Unknown,
            Some(text) => CppArgumentExpression::Literal { text: Text::from_bytes(text) },
        },
        Kind::ParenthesizedExpression => match tree.sole_part(n) {
            None => CppArgumentExpression::Unknown,
            Some(inner) => argument_expression(tree, inner, depth + 1),
        },
        Kind::BinaryExpression => match (
            find_role_text(tree, n, Field::Operator),
            tree.child_by_field(n, Field::Left),
            tree.child_by_field(n, Field::Right),
        ) {
            (Some(operator), Some(a), Some(b)) => CppArgumentExpression::Binary {
                operator: Text::from_bytes(operator),
                left: Box::new(argument_expression(tree, a, depth + 1)),
                right: Box::new(argument_expression(tree, b, depth + 1)),
            },
            _ => CppArgumentExpression::Unknown,
        },
        _ => CppArgumentExpression::Unknown,
    }
}

} // verus!
