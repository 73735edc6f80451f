//! C++ types as they are written.

use crate::cpp_facts::{lemma_push_view, views, CppDeclaredType, DeclaredTypeView};
use crate::cpp_tokens::{is_token, token_is};
use crate::syntax::{Field, Kind, SyntaxTree};
use crate::text::{append_bytes, copy_bytes, join, joined, split_words, words_of, Text};
use vstd::prelude::*;
use vstd::string::StringSliceAdditionalSpecFns;

verus! {

broadcast use {SyntaxTree::parent_comes_first, SyntaxTree::children_come_later};

/// A name behind a scope.
pub open spec fn scoped(scope: Seq<u8>, name: Seq<u8>) -> Seq<u8> {
    scope + "::".spec_bytes() + name
}

/// A name behind a scope.
pub fn join_scope(scope: &[u8], name: &[u8]) -> (r: Vec<u8>)
    ensures
        r@ == scoped(scope@, name@),
{
    let mut text = copy_bytes(scope);
    append_bytes(&mut text, "::".as_bytes());
    append_bytes(&mut text, name);
    text
}

/// The plain name of a type. Types of other forms have meanings of their own.
pub open spec fn plain_name(tree: SyntaxTree, n: usize) -> Option<Seq<u8>>
    decreases tree.count() - n,
    via plain_name_decreases
{
    match tree.kind_of(n) {
        Kind::TypeIdentifier | Kind::Identifier | Kind::NamespaceIdentifier => tree.text_of(n),
        Kind::QualifiedIdentifier => match tree.child_in_role(n, Field::Name) {
            None => None,
            Some(last) => match (plain_name(tree, last), tree.child_in_role(n, Field::Scope)) {
                (None, _) => None,
                (Some(name), None) => Some(scoped(Seq::empty(), name)),
                (Some(name), Some(scope)) => match plain_name(tree, scope) {
                    None => None,
                    Some(prefix) => Some(scoped(prefix, name)),
                },
            },
        },
        _ => None,
    }
}

#[via_fn]
proof fn plain_name_decreases(tree: SyntaxTree, n: usize) {
    tree.child_in_role_is_child(n, Field::Name);
    tree.child_in_role_is_child(n, Field::Scope);
}

/// The plain name of a type.
pub fn plain_type_name(tree: &SyntaxTree, n: usize) -> (r: Option<Vec<u8>>)
    ensures
        match r {
            None => plain_name(*tree, n) is None,
            Some(name) => plain_name(*tree, n) == Some(name@),
        },
    decreases tree.count() - n,
{
    proof {
        tree.child_in_role_is_child(n, Field::Name);
        tree.child_in_role_is_child(n, Field::Scope);
    }
    match tree.kind(n) {
        Kind::TypeIdentifier | Kind::Identifier | Kind::NamespaceIdentifier => match tree.node_text(
            n,
        ) {
            None => None,
            Some(text) => Some(copy_bytes(text)),
        },
        Kind::QualifiedIdentifier => {
            let last = match tree.child_by_field(n, Field::Name) {
                None => {
                    return None;
                },
                Some(last) => last,
            };
            let name = match plain_type_name(tree, last) {
                None => {
                    return None;
                },
                Some(name) => name,
            };
            match tree.child_by_field(n, Field::Scope) {
                None => {
                    let none: Vec<u8> = Vec::new();
                    assert(none@ =~= Seq::empty());
                    Some(join_scope(none.as_slice(), name.as_slice()))
                },
                Some(scope) => match plain_type_name(tree, scope) {
                    None => None,
                    Some(prefix) => Some(join_scope(prefix.as_slice(), name.as_slice())),
                },
            }
        },
        _ => None,
    }
}

/// Which qualifiers a type has.
#[derive(Clone, Copy, PartialEq, Eq, Structural, Debug)]
pub struct Qualifiers {
    pub const_: bool,
    pub volatile: bool,
}

/// Qualifiers with one more word; nothing where it is no qualifier.
pub open spec fn with_qualifier(q: Qualifiers, word: Option<Seq<u8>>) -> Option<Qualifiers> {
    match word {
        None => None,
        Some(text) => if token_is(text, "const") {
            Some(Qualifiers { const_: true, ..q })
        } else if token_is(text, "volatile") {
            Some(Qualifiers { volatile: true, ..q })
        } else {
            None
        },
    }
}

/// The qualifiers that nodes are; nothing where one is none.
pub open spec fn qualifiers_in(
    tree: SyntaxTree,
    nodes: Seq<usize>,
    q: Qualifiers,
) -> Option<Qualifiers>
    decreases nodes.len(),
{
    if nodes.len() == 0 {
        Some(q)
    } else {
        match qualifiers_in(tree, nodes.drop_last(), q) {
            None => None,
            Some(before) => with_qualifier(before, tree.text_of(nodes.last())),
        }
    }
}

proof fn lemma_qualifiers_stay(tree: SyntaxTree, nodes: Seq<usize>, q: Qualifiers, count: int)
    requires
        0 <= count <= nodes.len(),
        qualifiers_in(tree, nodes.take(count), q) is None,
    ensures
        qualifiers_in(tree, nodes, q) is None,
    decreases nodes.len(),
{
    if count == nodes.len() {
        assert(nodes.take(count) =~= nodes);
    } else {
        assert(nodes.drop_last().take(count) =~= nodes.take(count));
        lemma_qualifiers_stay(tree, nodes.drop_last(), q, count);
    }
}

/// The qualifiers that nodes are; nothing where one is none.
pub fn read_qualifiers(tree: &SyntaxTree, nodes: &[usize], q: Qualifiers) -> (r: Option<Qualifiers>)
    ensures
        r == qualifiers_in(*tree, nodes@, q),
{
    let mut found = q;
    let mut i: usize = 0;
    assert(nodes@.take(0) =~= Seq::empty());
    while i < nodes.len()
        invariant
            i <= nodes@.len(),
            qualifiers_in(*tree, nodes@.take(i as int), q) == Some(found),
        decreases nodes@.len() - i,
    {
        proof {
            assert(nodes@.take(i + 1).drop_last() =~= nodes@.take(i as int));
            if qualifiers_in(*tree, nodes@.take(i + 1), q) is None {
                lemma_qualifiers_stay(*tree, nodes@, q, i + 1);
            }
        }
        match tree.node_text(nodes[i]) {
            None => {
                return None;
            },
            Some(text) => {
                if is_token(text, "const") {
                    found = Qualifiers { const_: true, volatile: found.volatile };
                } else if is_token(text, "volatile") {
                    found = Qualifiers { const_: found.const_, volatile: true };
                } else {
                    return None;
                }
            },
        }
        i += 1;
    }
    assert(nodes@.take(i as int) =~= nodes@);
    Some(found)
}

/// Whether a node is neither another one nor a comment.
pub open spec fn is_other(tree: SyntaxTree, one: usize, c: usize) -> bool {
    c != one && tree.kind_of(c) != Kind::Comment
}

/// The named children of a node but for one and comments.
pub open spec fn others_than(tree: SyntaxTree, n: usize, one: usize) -> Seq<usize> {
    tree.named_children_of(n).filter(|c: usize| is_other(tree, one, c))
}

/// The named children of a node but for one and comments.
pub fn find_others_than(tree: &SyntaxTree, n: usize, one: usize) -> (r: Vec<usize>)
    ensures
        r@ == others_than(*tree, n, one),
{
    let children = tree.named_children(n);
    let ghost keep = |c: usize| is_other(*tree, one, c);
    let mut found: Vec<usize> = Vec::new();
    let mut i: usize = 0;
    assert(children@.take(0).filter(keep) =~= Seq::empty()) by {
        reveal(Seq::filter);
    }
    while i < children.len()
        invariant
            i <= children@.len(),
            keep == (|c: usize| is_other(*tree, one, c)),
            found@ == children@.take(i as int).filter(keep),
        decreases children@.len() - i,
    {
        proof {
            crate::collections::lemma_filter_step(children@, keep, i as int);
        }
        let c: usize = children[i];
        if c != one && tree.kind(c) != Kind::Comment {
            found.push(c);
        }
        i += 1;
    }
    assert(children@.take(i as int) =~= children@);
    found
}

/// The children of a node that qualify a type.
pub open spec fn qualifier_nodes(tree: SyntaxTree, n: usize) -> Seq<usize> {
    tree.named_children_of(n).filter(|c: usize| tree.kind_of(c) == Kind::TypeQualifier)
}

/// The children of a node that qualify a type.
pub fn find_qualifier_nodes(tree: &SyntaxTree, n: usize) -> (r: Vec<usize>)
    ensures
        r@ == qualifier_nodes(*tree, n),
{
    let children = tree.named_children(n);
    let ghost keep = |c: usize| tree.kind_of(c) == Kind::TypeQualifier;
    let mut found: Vec<usize> = Vec::new();
    let mut i: usize = 0;
    assert(children@.take(0).filter(keep) =~= Seq::empty()) by {
        reveal(Seq::filter);
    }
    while i < children.len()
        invariant
            i <= children@.len(),
            keep == (|c: usize| tree.kind_of(c) == Kind::TypeQualifier),
            found@ == children@.take(i as int).filter(keep),
        decreases children@.len() - i,
    {
        proof {
            crate::collections::lemma_filter_step(children@, keep, i as int);
        }
        let c: usize = children[i];
        if tree.kind(c) == Kind::TypeQualifier {
            found.push(c);
        }
        i += 1;
    }
    assert(children@.take(i as int) =~= children@);
    found
}

/// A type that is nothing but a name.
pub open spec fn named_type(name: Seq<u8>) -> DeclaredTypeView {
    DeclaredTypeView {
        name,
        template_arguments: Seq::empty(),
        pointer: false,
        reference: false,
        const_: false,
        volatile: false,
    }
}

/// A type with qualifiers.
pub open spec fn qualified_type(ty: DeclaredTypeView, q: Qualifiers) -> DeclaredTypeView {
    DeclaredTypeView { const_: q.const_, volatile: q.volatile, ..ty }
}

/// The qualifiers of a type.
pub open spec fn qualifiers_of(ty: DeclaredTypeView) -> Qualifiers {
    Qualifiers { const_: ty.const_, volatile: ty.volatile }
}

/// The type that a node is. An empty list of template arguments may need defaults and
/// gives none; template arguments must be types without declarators.
pub open spec fn type_at(tree: SyntaxTree, n: usize) -> Option<DeclaredTypeView>
    decreases tree.count() - n, 1int, 0int,
    via type_at_decreases
{
    match tree.kind_of(n) {
        Kind::PrimitiveType | Kind::SizedTypeSpecifier => match tree.text_of(n) {
            None => None,
            Some(text) => Some(named_type(joined(words_of(text), " ".spec_bytes()))),
        },
        Kind::TemplateType => match (
            tree.child_in_role(n, Field::Name),
            tree.child_in_role(n, Field::Arguments),
        ) {
            (Some(own), Some(arguments)) => match (
                plain_name(tree, own),
                arguments_at(tree, arguments, tree.named_children_of(arguments).len()),
            ) {
                (Some(name), Some(list)) => if list.len() == 0 {
                    None
                } else {
                    Some(DeclaredTypeView { template_arguments: list, ..named_type(name) })
                },
                _ => None,
            },
            _ => None,
        },
        Kind::QualifiedIdentifier => match tree.child_in_role(n, Field::Name) {
            None => None,
            Some(last) => match type_at(tree, last) {
                None => None,
                Some(ty) => match tree.child_in_role(n, Field::Scope) {
                    None => Some(DeclaredTypeView { name: scoped(Seq::empty(), ty.name), ..ty }),
                    Some(scope) => match plain_name(tree, scope) {
                        None => None,
                        Some(prefix) => Some(
                            DeclaredTypeView { name: scoped(prefix, ty.name), ..ty },
                        ),
                    },
                },
            },
        },
        _ => match plain_name(tree, n) {
            None => None,
            Some(name) => Some(named_type(name)),
        },
    }
}

/// The types that the first template arguments of a list are.
pub open spec fn arguments_at(
    tree: SyntaxTree,
    list: usize,
    count: nat,
) -> Option<Seq<DeclaredTypeView>>
    decreases tree.count() - list, 0int, count,
    via arguments_at_decreases
{
    if count == 0 || count > tree.named_children_of(list).len() {
        Some(Seq::empty())
    } else {
        let argument = tree.named_children_of(list)[count - 1];
        match arguments_at(tree, list, (count - 1) as nat) {
            None => None,
            Some(before) => if tree.kind_of(argument) == Kind::Comment {
                Some(before)
            } else if tree.kind_of(argument) != Kind::TypeDescriptor || tree.child_in_role(
                argument,
                Field::Declarator,
            ) is Some {
                None
            } else {
                match tree.child_in_role(argument, Field::Type) {
                    None => None,
                    Some(ty) => match type_at(tree, ty) {
                        None => None,
                        Some(item) => match qualifiers_in(
                            tree,
                            others_than(tree, argument, ty),
                            qualifiers_of(item),
                        ) {
                            None => None,
                            Some(q) => Some(before.push(qualified_type(item, q))),
                        },
                    },
                }
            },
        }
    }
}

#[via_fn]
proof fn type_at_decreases(tree: SyntaxTree, n: usize) {
    tree.child_in_role_is_child(n, Field::Name);
    tree.child_in_role_is_child(n, Field::Arguments);
}

#[via_fn]
proof fn arguments_at_decreases(tree: SyntaxTree, list: usize, count: nat) {
    if count > 0 && count <= tree.named_children_of(list).len() {
        let argument = tree.named_children_of(list)[count - 1];
        tree.named_children_are_children(list, count - 1);
        tree.child_in_role_is_child(argument, Field::Type);
    }
}

proof fn lemma_arguments_stay(tree: SyntaxTree, list: usize, count: nat, more: nat)
    requires
        count <= more <= tree.named_children_of(list).len(),
        arguments_at(tree, list, count) is None,
    ensures
        arguments_at(tree, list, more) is None,
    decreases more,
{
    if count < more {
        lemma_arguments_stay(tree, list, count, (more - 1) as nat);
    }
}

/// Types that say something.
pub open spec fn is_type(r: Option<CppDeclaredType>, want: Option<DeclaredTypeView>) -> bool {
    match r {
        None => want is None,
        Some(ty) => want == Some(ty@),
    }
}

fn make_named_type(name: Vec<u8>) -> (r: CppDeclaredType)
    ensures
        r@ == named_type(name@),
{
    let r = CppDeclaredType {
        name: Text::from_vec(name),
        template_arguments: Vec::new(),
        pointer: false,
        reference: false,
        const_: false,
        volatile: false,
    };
    assert(r@.template_arguments =~= Seq::empty());
    r
}

/// Give a type other parts than its name and template arguments.
pub fn change_type(
    ty: CppDeclaredType,
    pointer: bool,
    reference: bool,
    q: Qualifiers,
) -> (r: CppDeclaredType)
    ensures
        r@ == (DeclaredTypeView {
            pointer,
            reference,
            const_: q.const_,
            volatile: q.volatile,
            ..ty@
        }),
{
    let r = CppDeclaredType {
        name: ty.name,
        template_arguments: ty.template_arguments,
        pointer,
        reference,
        const_: q.const_,
        volatile: q.volatile,
    };
    assert(r@.template_arguments =~= ty@.template_arguments);
    r
}

fn rename_type(ty: CppDeclaredType, name: Vec<u8>) -> (r: CppDeclaredType)
    ensures
        r@ == (DeclaredTypeView { name: name@, ..ty@ }),
{
    let r = CppDeclaredType {
        name: Text::from_vec(name),
        template_arguments: ty.template_arguments,
        pointer: ty.pointer,
        reference: ty.reference,
        const_: ty.const_,
        volatile: ty.volatile,
    };
    assert(r@.template_arguments =~= ty@.template_arguments);
    r
}

/// The type that a node is.
pub fn declared_type(tree: &SyntaxTree, n: usize) -> (r: Option<CppDeclaredType>)
    ensures
        is_type(r, type_at(*tree, n)),
    decreases tree.count() - n,
{
    proof {
        tree.child_in_role_is_child(n, Field::Name);
        tree.child_in_role_is_child(n, Field::Arguments);
    }
    match tree.kind(n) {
        Kind::PrimitiveType | Kind::SizedTypeSpecifier => match tree.node_text(n) {
            None => None,
            Some(text) => {
                let words = split_words(text);
                Some(make_named_type(join(words.as_slice(), " ".as_bytes())))
            },
        },
        Kind::TemplateType => {
            let own = match tree.child_by_field(n, Field::Name) {
                None => {
                    return None;
                },
                Some(own) => own,
            };
            let list = match tree.child_by_field(n, Field::Arguments) {
                None => {
                    return None;
                },
                Some(list) => list,
            };
            let name = match plain_type_name(tree, own) {
                None => {
                    return None;
                },
                Some(name) => name,
            };
            let nodes = tree.named_children(list);
            let mut arguments: Vec<CppDeclaredType> = Vec::new();
            let mut i: usize = 0;
            assert(views(arguments@) =~= Seq::<DeclaredTypeView>::empty());
            while i < nodes.len()
                invariant
                    i <= nodes@.len(),
                    n < list < tree.count(),
                    nodes@ == tree.named_children_of(list),
                    tree.kind_of(n) == Kind::TemplateType,
                    tree.child_in_role(n, Field::Name) == Some(own),
                    tree.child_in_role(n, Field::Arguments) == Some(list),
                    arguments_at(*tree, list, i as nat) == Some(views(arguments@)),
                decreases nodes@.len() - i,
            {
                let argument: usize = nodes[i];
                proof {
                    tree.named_children_are_children(list, i as int);
                    tree.child_in_role_is_child(argument, Field::Type);
                    if arguments_at(*tree, list, (i + 1) as nat) is None {
                        lemma_arguments_stay(*tree, list, (i + 1) as nat, nodes@.len());
                    }
                }
                if tree.kind(argument) != Kind::Comment {
                    if tree.kind(argument) != Kind::TypeDescriptor || tree.child_by_field(
                        argument,
                        Field::Declarator,
                    ).is_some() {
                        return None;
                    }
                    let ty = match tree.child_by_field(argument, Field::Type) {
                        None => {
                            return None;
                        },
                        Some(ty) => ty,
                    };
                    let item = match declared_type(tree, ty) {
                        None => {
                            return None;
                        },
                        Some(item) => item,
                    };
                    let rest = find_others_than(tree, argument, ty);
                    let own_q = Qualifiers { const_: item.const_, volatile: item.volatile };
                    let q = match read_qualifiers(tree, rest.as_slice(), own_q) {
                        None => {
                            return None;
                        },
                        Some(q) => q,
                    };
                    let ghost before = arguments@;
                    let (pointer, reference) = (item.pointer, item.reference);
                    let changed = change_type(item, pointer, reference, q);
                    arguments.push(changed);
                    proof {
                        lemma_push_view(before, changed);
                    }
                }
                i += 1;
            }
            if arguments.len() == 0 {
                return None;
            }
            let ty = CppDeclaredType {
                name: Text::from_vec(name),
                template_arguments: arguments,
                pointer: false,
                reference: false,
                const_: false,
                volatile: false,
            };
            assert(ty@.template_arguments =~= views(arguments@));
            Some(ty)
        },
        Kind::QualifiedIdentifier => {
            let last = match tree.child_by_field(n, Field::Name) {
                None => {
                    return None;
                },
                Some(last) => last,
            };
            let ty = match declared_type(tree, last) {
                None => {
                    return None;
                },
                Some(ty) => ty,
            };
            let prefix = match tree.child_by_field(n, Field::Scope) {
                None => {
                    let none: Vec<u8> = Vec::new();
                    assert(none@ =~= Seq::empty());
                    none
                },
                Some(scope) => match plain_type_name(tree, scope) {
                    None => {
                        return None;
                    },
                    Some(prefix) => prefix,
                },
            };
            let name = join_scope(prefix.as_slice(), ty.name.as_bytes());
            Some(rename_type(ty, name))
        },
        _ => match plain_type_name(tree, n) {
            None => None,
            Some(name) => Some(make_named_type(name)),
        },
    }
}

/// Whether a type is a pointer or a reference.
#[derive(Clone, Copy, PartialEq, Eq, Structural, Debug)]
pub struct Indirection {
    pub pointer: bool,
    pub reference: bool,
}

/// One more layer of a declarator; there can be one at most.
pub open spec fn with_layer(kind: Kind, i: Indirection) -> Option<Indirection> {
    if i.pointer || i.reference {
        None
    } else {
        match kind {
            Kind::PointerDeclarator | Kind::AbstractPointerDeclarator => Some(
                Indirection { pointer: true, reference: false },
            ),
            Kind::ReferenceDeclarator | Kind::AbstractReferenceDeclarator => Some(
                Indirection { pointer: false, reference: true },
            ),
            _ => None,
        }
    }
}

fn add_layer(kind: Kind, i: Indirection) -> (r: Option<Indirection>)
    ensures
        r == with_layer(kind, i),
{
    if i.pointer || i.reference {
        return None;
    }
    match kind {
        Kind::PointerDeclarator | Kind::AbstractPointerDeclarator => Some(
            Indirection { pointer: true, reference: false },
        ),
        Kind::ReferenceDeclarator | Kind::AbstractReferenceDeclarator => Some(
            Indirection { pointer: false, reference: true },
        ),
        _ => None,
    }
}

/// Whether a declarator adds nothing to a type.
pub open spec fn is_bare(kind: Kind) -> bool {
    kind == Kind::Identifier || kind == Kind::FieldIdentifier || kind == Kind::InitDeclarator
}

/// The layers from a node up to another one. Names count where they may.
pub open spec fn layers_up(
    tree: SyntaxTree,
    at: usize,
    stop: usize,
    names: bool,
    i: Indirection,
) -> Option<Indirection>
    decreases at,
{
    if at == stop {
        Some(i)
    } else {
        let next = if names && is_bare(tree.kind_of(at)) {
            Some(i)
        } else if tree.kind_of(at) == Kind::PointerDeclarator || tree.kind_of(at)
            == Kind::ReferenceDeclarator {
            with_layer(tree.kind_of(at), i)
        } else {
            None
        };
        match (next, tree.parent_of(at)) {
            (Some(next), Some(p)) => layers_up(tree, p, stop, names, next),
            _ => None,
        }
    }
}

fn read_layers_up(tree: &SyntaxTree, from: usize, stop: usize, names: bool) -> (r: Option<
    Indirection,
>)
    ensures
        r == layers_up(
            *tree,
            from,
            stop,
            names,
            Indirection { pointer: false, reference: false },
        ),
{
    let none = Indirection { pointer: false, reference: false };
    let mut i = none;
    let mut at: usize = from;
    while at != stop
        invariant
            layers_up(*tree, from, stop, names, none) == layers_up(*tree, at, stop, names, i),
            none == (Indirection { pointer: false, reference: false }),
        decreases at,
    {
        let kind = tree.kind(at);
        if !(names && matches!(
            kind,
            Kind::Identifier | Kind::FieldIdentifier | Kind::InitDeclarator
        )) {
            if !matches!(kind, Kind::PointerDeclarator | Kind::ReferenceDeclarator) {
                return None;
            }
            match add_layer(kind, i) {
                None => {
                    return None;
                },
                Some(next) => {
                    i = next;
                },
            }
        }
        match tree.parent(at) {
            None => {
                return None;
            },
            Some(p) => {
                at = p;
            },
        }
    }
    Some(i)
}

/// A type with the layers of a declarator.
pub open spec fn layered(ty: DeclaredTypeView, i: Indirection) -> DeclaredTypeView {
    DeclaredTypeView { pointer: i.pointer, reference: i.reference, ..ty }
}

/// The type that a callable returns.
pub open spec fn returned_type(
    tree: SyntaxTree,
    declaration: usize,
    function: usize,
) -> Option<DeclaredTypeView> {
    match (tree.child_in_role(declaration, Field::Type), tree.parent_of(function)) {
        (Some(ty), Some(outer)) => match type_at(tree, ty) {
            None => None,
            Some(ty) => match (
                qualifiers_in(tree, qualifier_nodes(tree, declaration), qualifiers_of(ty)),
                layers_up(
                    tree,
                    outer,
                    declaration,
                    false,
                    Indirection { pointer: ty.pointer, reference: ty.reference },
                ),
            ) {
                (Some(q), Some(i)) => Some(layered(qualified_type(ty, q), i)),
                _ => None,
            },
        },
        _ => None,
    }
}

proof fn lemma_type_is_direct(tree: SyntaxTree, n: usize)
    ensures
        match type_at(tree, n) {
            None => true,
            Some(ty) => !ty.pointer && !ty.reference && !ty.const_ && !ty.volatile,
        },
    decreases tree.count() - n,
{
    tree.child_in_role_is_child(n, Field::Name);
    if tree.kind_of(n) == Kind::QualifiedIdentifier {
        match tree.child_in_role(n, Field::Name) {
            None => {},
            Some(last) => {
                lemma_type_is_direct(tree, last);
            },
        }
    }
}

/// The type that a callable returns.
pub fn return_type(tree: &SyntaxTree, declaration: usize, function: usize) -> (r: Option<
    CppDeclaredType,
>)
    ensures
        is_type(r, returned_type(*tree, declaration, function)),
{
    let node = match tree.child_by_field(declaration, Field::Type) {
        None => {
            return None;
        },
        Some(node) => node,
    };
    let outer = match tree.parent(function) {
        None => {
            return None;
        },
        Some(outer) => outer,
    };
    let ty = match declared_type(tree, node) {
        None => {
            return None;
        },
        Some(ty) => ty,
    };
    proof {
        lemma_type_is_direct(*tree, node);
    }
    let nodes = find_qualifier_nodes(tree, declaration);
    let own = Qualifiers { const_: ty.const_, volatile: ty.volatile };
    match (
        read_qualifiers(tree, nodes.as_slice(), own),
        read_layers_up(tree, outer, declaration, false),
    ) {
        (Some(q), Some(i)) => Some(change_type(ty, i.pointer, i.reference, q)),
        _ => None,
    }
}

/// Whether a qualifier of a declaration belongs to its type: `mutable` of a field
/// does not.
pub open spec fn qualifies_type(tree: SyntaxTree, field: bool, c: usize) -> bool {
    !(field && tree.text_of(c) == Some("mutable".spec_bytes()))
}

/// The type of a variable, parameter or field with a name in a declaration.
pub open spec fn value_type_in(
    tree: SyntaxTree,
    name: usize,
    declaration: usize,
) -> Option<DeclaredTypeView> {
    let field = tree.kind_of(declaration) == Kind::FieldDeclaration;
    if tree.node(declaration).has_error || tree.has_one_of(
        tree.ancestors_of(declaration),
        seq![Kind::TemplateDeclaration],
    ) {
        None
    } else {
        match tree.child_in_role(declaration, Field::Type) {
            None => None,
            Some(ty) => match type_at(tree, ty) {
                None => None,
                Some(ty) => match (
                    qualifiers_in(
                        tree,
                        qualifier_nodes(tree, declaration).filter(
                            |c: usize| qualifies_type(tree, field, c),
                        ),
                        qualifiers_of(ty),
                    ),
                    layers_up(
                        tree,
                        name,
                        declaration,
                        true,
                        Indirection { pointer: ty.pointer, reference: ty.reference },
                    ),
                ) {
                    (Some(q), Some(i)) => Some(layered(qualified_type(ty, q), i)),
                    _ => None,
                },
            },
        }
    }
}

fn drop_mutable(tree: &SyntaxTree, nodes: &[usize], field: bool) -> (r: Vec<usize>)
    ensures
        r@ == nodes@.filter(|c: usize| qualifies_type(*tree, field, c)),
{
    let ghost keep = |c: usize| qualifies_type(*tree, field, c);
    let mut found: Vec<usize> = Vec::new();
    let mut i: usize = 0;
    assert(nodes@.take(0).filter(keep) =~= Seq::empty()) by {
        reveal(Seq::filter);
    }
    while i < nodes.len()
        invariant
            i <= nodes@.len(),
            keep == (|c: usize| qualifies_type(*tree, field, c)),
            found@ == nodes@.take(i as int).filter(keep),
        decreases nodes@.len() - i,
    {
        proof {
            crate::collections::lemma_filter_step(nodes@, keep, i as int);
        }
        let c: usize = nodes[i];
        let mutable_ = field && match tree.node_text(c) {
            None => false,
            Some(text) => is_token(text, "mutable"),
        };
        if !mutable_ {
            found.push(c);
        }
        i += 1;
    }
    assert(nodes@.take(i as int) =~= nodes@);
    found
}

/// The type of a variable, parameter or field with a name in a declaration.
pub fn read_value_type(tree: &SyntaxTree, name: usize, declaration: usize) -> (r: Option<
    CppDeclaredType,
>)
    ensures
        is_type(r, value_type_in(*tree, name, declaration)),
{
    let want = [Kind::TemplateDeclaration];
    assert(want@ =~= seq![Kind::TemplateDeclaration]);
    let around = tree.ancestors(declaration);
    if tree.data(declaration).has_error || tree.has_any(around.as_slice(), &want) {
        return None;
    }
    let node = match tree.child_by_field(declaration, Field::Type) {
        None => {
            return None;
        },
        Some(node) => node,
    };
    let ty = match declared_type(tree, node) {
        None => {
            return None;
        },
        Some(ty) => ty,
    };
    proof {
        lemma_type_is_direct(*tree, node);
    }
    let field = tree.kind(declaration) == Kind::FieldDeclaration;
    let all = find_qualifier_nodes(tree, declaration);
    let nodes = drop_mutable(tree, all.as_slice(), field);
    let own = Qualifiers { const_: ty.const_, volatile: ty.volatile };
    match (
        read_qualifiers(tree, nodes.as_slice(), own),
        read_layers_up(tree, name, declaration, true),
    ) {
        (Some(q), Some(i)) => Some(change_type(ty, i.pointer, i.reference, q)),
        _ => None,
    }
}

/// The declarator inside a declarator of a parameter.
pub open spec fn parameter_inner(tree: SyntaxTree, n: usize) -> Option<usize> {
    match tree.child_in_role(n, Field::Declarator) {
        Some(child) => Some(child),
        None => {
            let rest = tree.without(
                tree.named_children_of(n),
                seq![Kind::TypeQualifier, Kind::Comment],
            );
            if rest.len() > 0 {
                Some(rest[0])
            } else {
                None
            }
        },
    }
}

proof fn lemma_parameter_inner(tree: SyntaxTree, n: usize)
    ensures
        parameter_inner(tree, n) is Some ==> n < parameter_inner(tree, n)->0 < tree.count(),
{
    tree.child_in_role_is_child(n, Field::Declarator);
    let named = tree.named_children_of(n);
    let kinds = seq![Kind::TypeQualifier, Kind::Comment];
    let rest = tree.without(named, kinds);
    if rest.len() > 0 {
        let keep = |c: usize| !kinds.contains(tree.kind_of(c));
        assert(rest.contains(rest[0]));
        named.lemma_filter_contains_rev(keep, rest[0]);
        let k = choose|k: int| 0 <= k < named.len() && named[k] == rest[0];
        tree.named_children_are_children(n, k);
    }
}

/// The layers from a declarator down to the name in it.
pub open spec fn layers_down(tree: SyntaxTree, n: usize, i: Indirection) -> Option<Indirection>
    decreases tree.count() - n,
    via layers_down_decreases
{
    if tree.kind_of(n) == Kind::Identifier || tree.kind_of(n) == Kind::FieldIdentifier {
        Some(i)
    } else {
        match with_layer(tree.kind_of(n), i) {
            None => None,
            Some(next) => match parameter_inner(tree, n) {
                None => Some(next),
                Some(inner) => layers_down(tree, inner, next),
            },
        }
    }
}

#[via_fn]
proof fn layers_down_decreases(tree: SyntaxTree, n: usize, i: Indirection) {
    lemma_parameter_inner(tree, n);
}

fn read_layers_down(tree: &SyntaxTree, from: usize) -> (r: Option<Indirection>)
    ensures
        r == layers_down(*tree, from, Indirection { pointer: false, reference: false }),
{
    let none = Indirection { pointer: false, reference: false };
    let mut i = none;
    let mut n: usize = from;
    loop
        invariant
            layers_down(*tree, from, none) == layers_down(*tree, n, i),
            none == (Indirection { pointer: false, reference: false }),
        decreases tree.count() - n,
    {
        proof {
            lemma_parameter_inner(*tree, n);
        }
        let kind = tree.kind(n);
        if matches!(kind, Kind::Identifier | Kind::FieldIdentifier) {
            return Some(i);
        }
        match add_layer(kind, i) {
            None => {
                return None;
            },
            Some(next) => {
                i = next;
            },
        }
        let inner = match tree.child_by_field(n, Field::Declarator) {
            Some(child) => Some(child),
            None => {
                let named = tree.named_children(n);
                let drop = [Kind::TypeQualifier, Kind::Comment];
                assert(drop@ =~= seq![Kind::TypeQualifier, Kind::Comment]);
                let rest = tree.drop_kinds(named.as_slice(), &drop);
                if rest.len() > 0 {
                    Some(rest[0])
                } else {
                    None
                }
            },
        };
        match inner {
            None => {
                return Some(i);
            },
            Some(inner) => {
                n = inner;
            },
        }
    }
}

/// The type of a parameter. Qualifiers of the parameter itself do not count.
pub open spec fn parameter_type_of(tree: SyntaxTree, n: usize) -> Option<DeclaredTypeView> {
    match tree.child_in_role(n, Field::Type) {
        None => None,
        Some(ty) => match type_at(tree, ty) {
            None => None,
            Some(ty) => {
                let none = Indirection { pointer: ty.pointer, reference: ty.reference };
                let layers = match tree.child_in_role(n, Field::Declarator) {
                    None => Some(none),
                    Some(declarator) => layers_down(tree, declarator, none),
                };
                match (
                    qualifiers_in(tree, qualifier_nodes(tree, n), qualifiers_of(ty)),
                    layers,
                ) {
                    (Some(q), Some(i)) => if i.pointer || i.reference {
                        Some(layered(qualified_type(ty, q), i))
                    } else {
                        Some(
                            layered(
                                qualified_type(ty, Qualifiers { const_: false, volatile: false }),
                                i,
                            ),
                        )
                    },
                    _ => None,
                }
            },
        },
    }
}

/// The type of a parameter.
pub fn parameter_type(tree: &SyntaxTree, n: usize) -> (r: Option<CppDeclaredType>)
    ensures
        is_type(r, parameter_type_of(*tree, n)),
{
    let node = match tree.child_by_field(n, Field::Type) {
        None => {
            return None;
        },
        Some(node) => node,
    };
    let ty = match declared_type(tree, node) {
        None => {
            return None;
        },
        Some(ty) => ty,
    };
    proof {
        lemma_type_is_direct(*tree, node);
    }
    let nodes = find_qualifier_nodes(tree, n);
    let own = Qualifiers { const_: ty.const_, volatile: ty.volatile };
    let layers = match tree.child_by_field(n, Field::Declarator) {
        None => Some(Indirection { pointer: false, reference: false }),
        Some(declarator) => read_layers_down(tree, declarator),
    };
    match (read_qualifiers(tree, nodes.as_slice(), own), layers) {
        (Some(q), Some(i)) => if i.pointer || i.reference {
            Some(change_type(ty, i.pointer, i.reference, q))
        } else {
            Some(
                change_type(
                    ty,
                    i.pointer,
                    i.reference,
                    Qualifiers { const_: false, volatile: false },
                ),
            )
        },
        _ => None,
    }
}

/// Whether nodes are all of a kind.
pub open spec fn all_of_kind(tree: SyntaxTree, nodes: Seq<usize>, kind: Kind) -> bool {
    forall|k: int| 0 <= k < nodes.len() ==> tree.kind_of(#[trigger] nodes[k]) == kind
}

fn are_all_of_kind(tree: &SyntaxTree, nodes: &[usize], kind: Kind) -> (r: bool)
    ensures
        r == all_of_kind(*tree, nodes@, kind),
{
    let mut i: usize = 0;
    while i < nodes.len()
        invariant
            i <= nodes@.len(),
            forall|k: int| 0 <= k < i ==> tree.kind_of(#[trigger] nodes@[k]) == kind,
        decreases nodes@.len() - i,
    {
        if tree.kind(nodes[i]) != kind {
            assert(tree.kind_of(nodes@[i as int]) != kind);
            return false;
        }
        i += 1;
    }
    true
}

/// The type that a template argument is.
pub open spec fn template_argument_type(tree: SyntaxTree, n: usize) -> Option<DeclaredTypeView> {
    if tree.kind_of(n) != Kind::TypeDescriptor || tree.node(n).has_error || tree.child_in_role(
        n,
        Field::Declarator,
    ) is Some {
        None
    } else {
        match tree.child_in_role(n, Field::Type) {
            None => None,
            Some(node) => match type_at(tree, node) {
                None => None,
                Some(ty) => {
                    let rest = others_than(tree, n, node);
                    match qualifiers_in(tree, rest, qualifiers_of(ty)) {
                        Some(q) if all_of_kind(tree, rest, Kind::TypeQualifier) => Some(
                            qualified_type(ty, q),
                        ),
                        _ => None,
                    }
                },
            },
        }
    }
}

/// The type that a template argument is.
pub fn template_type_argument(tree: &SyntaxTree, n: usize) -> (r: Option<CppDeclaredType>)
    ensures
        is_type(r, template_argument_type(*tree, n)),
{
    if tree.kind(n) != Kind::TypeDescriptor || tree.data(n).has_error || tree.child_by_field(
        n,
        Field::Declarator,
    ).is_some() {
        return None;
    }
    let node = match tree.child_by_field(n, Field::Type) {
        None => {
            return None;
        },
        Some(node) => node,
    };
    let ty = match declared_type(tree, node) {
        None => {
            return None;
        },
        Some(ty) => ty,
    };
    let rest = find_others_than(tree, n, node);
    if !are_all_of_kind(tree, rest.as_slice(), Kind::TypeQualifier) {
        return None;
    }
    let own = Qualifiers { const_: ty.const_, volatile: ty.volatile };
    match read_qualifiers(tree, rest.as_slice(), own) {
        None => None,
        Some(q) => {
            let (pointer, reference) = (ty.pointer, ty.reference);
            Some(change_type(ty, pointer, reference, q))
        },
    }
}

} // verus!
