//! Names of C++ declarations as they are written, and the scopes around them.

use crate::cpp_annotation_sites::{find_role_text, role_text};
use crate::cpp_tokens::{has_pair_at, is_token, pair_at, token_is, COLON};
use crate::syntax::{Field, Kind, SyntaxTree};
use crate::text::{append_bytes, byte_views, copy_bytes, join, joined, lemma_push_bytes};
use vstd::prelude::*;
use vstd::string::StringSliceAdditionalSpecFns;

verus! {

broadcast use {SyntaxTree::parent_comes_first, SyntaxTree::children_come_later};

/// The children of a node without comments.
pub open spec fn written_children(tree: SyntaxTree, n: usize) -> Seq<usize> {
    tree.without(tree.children_of(n), seq![Kind::Comment])
}

/// The children of a node without comments.
pub fn find_written_children(tree: &SyntaxTree, n: usize) -> (r: Vec<usize>)
    ensures
        r@ == written_children(*tree, n),
{
    let drop = [Kind::Comment];
    assert(drop@ =~= seq![Kind::Comment]);
    tree.drop_kinds(tree.children(n), &drop)
}

/// The texts of nodes.
pub open spec fn texts_of(tree: SyntaxTree, nodes: Seq<usize>) -> Option<Seq<Seq<u8>>>
    decreases nodes.len(),
{
    if nodes.len() == 0 {
        Some(Seq::empty())
    } else {
        match (texts_of(tree, nodes.drop_last()), tree.text_of(nodes.last())) {
            (Some(list), Some(text)) => Some(list.push(text)),
            _ => None,
        }
    }
}

proof fn lemma_texts_stay(tree: SyntaxTree, nodes: Seq<usize>, count: int)
    requires
        0 <= count <= nodes.len(),
        texts_of(tree, nodes.take(count)) is None,
    ensures
        texts_of(tree, nodes) is None,
    decreases nodes.len(),
{
    if count == nodes.len() {
        assert(nodes.take(count) =~= nodes);
    } else {
        assert(nodes.drop_last().take(count) =~= nodes.take(count));
        lemma_texts_stay(tree, nodes.drop_last(), count);
    }
}

/// The texts of nodes.
pub fn find_texts(tree: &SyntaxTree, nodes: &[usize]) -> (r: Option<Vec<Vec<u8>>>)
    ensures
        crate::cpp_tokens::lists(r, texts_of(*tree, nodes@)),
{
    let mut list: Vec<Vec<u8>> = Vec::new();
    let mut i: usize = 0;
    assert(byte_views(list@) =~= Seq::empty());
    while i < nodes.len()
        invariant
            i <= nodes@.len(),
            texts_of(*tree, nodes@.take(i as int)) == Some(byte_views(list@)),
        decreases nodes@.len() - i,
    {
        assert(nodes@.take(i + 1).drop_last() =~= nodes@.take(i as int));
        match tree.node_text(nodes[i]) {
            None => {
                proof {
                    lemma_texts_stay(*tree, nodes@, i + 1);
                }
                return None;
            },
            Some(text) => {
                let ghost before = list@;
                let item = copy_bytes(text);
                list.push(item);
                proof {
                    lemma_push_bytes(before, item);
                }
            },
        }
        i += 1;
    }
    assert(nodes@.take(i as int) =~= nodes@);
    Some(list)
}

/// The name of a destructor: a tilde and an identifier, both written.
pub open spec fn destructor_named(tree: SyntaxTree, n: usize) -> Option<Seq<u8>> {
    let parts = written_children(tree, n);
    if parts.len() == 2 && tree.kind_of(parts[0]) == Kind::Tilde && !tree.node(parts[0]).missing
        && tree.kind_of(parts[1]) == Kind::Identifier && !tree.node(parts[1]).missing {
        match tree.text_of(parts[1]) {
            None => None,
            Some(text) => Some("~".spec_bytes() + text),
        }
    } else {
        None
    }
}

/// The name of a destructor: a tilde and an identifier, both written.
pub fn destructor_name(tree: &SyntaxTree, n: usize) -> (r: Option<Vec<u8>>)
    ensures
        match r {
            None => destructor_named(*tree, n) is None,
            Some(name) => destructor_named(*tree, n) == Some(name@),
        },
{
    let parts = find_written_children(tree, n);
    if parts.len() != 2 {
        return None;
    }
    let tilde = tree.data(parts[0]);
    let own = tree.data(parts[1]);
    if tilde.kind != Kind::Tilde || tilde.missing || own.kind != Kind::Identifier || own.missing {
        return None;
    }
    match tree.node_text(parts[1]) {
        None => None,
        Some(text) => {
            let mut name = copy_bytes("~".as_bytes());
            append_bytes(&mut name, text);
            Some(name)
        },
    }
}

/// The name of an operator without the space in it. A word behind `operator` keeps
/// its space.
pub open spec fn operator_named(tree: SyntaxTree, n: usize) -> Option<Seq<u8>> {
    match texts_of(tree, written_children(tree, n)) {
        None => None,
        Some(list) => if list.len() > 1 && (token_is(list[1], "new") || token_is(list[1], "delete")
            || token_is(list[1], "co_await")) {
            Some("operator ".spec_bytes() + joined(list.skip(1), Seq::empty()))
        } else {
            Some(joined(list, Seq::empty()))
        },
    }
}

/// The name of an operator without the space in it.
pub fn operator_name(tree: &SyntaxTree, n: usize) -> (r: Option<Vec<u8>>)
    ensures
        match r {
            None => operator_named(*tree, n) is None,
            Some(name) => operator_named(*tree, n) == Some(name@),
        },
{
    let parts = find_written_children(tree, n);
    let list = match find_texts(tree, parts.as_slice()) {
        None => {
            return None;
        },
        Some(list) => list,
    };
    let ghost views = byte_views(list@);
    let none: Vec<u8> = Vec::new();
    assert(none@ =~= Seq::empty());
    if list.len() > 1 {
        assert(views[1] == list@[1]@);
        let word = list[1].as_slice();
        if is_token(word, "new") || is_token(word, "delete") || is_token(word, "co_await") {
            let all = list.as_slice();
            let rest = &all[1..all.len()];
            assert(byte_views(rest@) =~= views.skip(1));
            let mut name = copy_bytes("operator ".as_bytes());
            let tail = join(rest, none.as_slice());
            append_bytes(&mut name, tail.as_slice());
            return Some(name);
        }
    }
    Some(join(list.as_slice(), none.as_slice()))
}

/// The name that a node is.
pub open spec fn simple_name(tree: SyntaxTree, n: usize) -> Option<Seq<u8>> {
    match tree.kind_of(n) {
        Kind::OperatorName => operator_named(tree, n),
        Kind::DestructorName => destructor_named(tree, n),
        _ => tree.text_of(n),
    }
}

/// The name that a node is.
pub fn find_simple_name(tree: &SyntaxTree, n: usize) -> (r: Option<Vec<u8>>)
    ensures
        match r {
            None => simple_name(*tree, n) is None,
            Some(name) => simple_name(*tree, n) == Some(name@),
        },
{
    match tree.kind(n) {
        Kind::OperatorName => operator_name(tree, n),
        Kind::DestructorName => destructor_name(tree, n),
        _ => match tree.node_text(n) {
            None => None,
            Some(text) => Some(copy_bytes(text)),
        },
    }
}

/// Whether a separator is written in a qualified name. Recovery can put one in that
/// is not.
pub open spec fn has_separator(tree: SyntaxTree, n: usize) -> bool {
    exists|k: int|
        0 <= k < tree.children_of(n).len() && is_separator(tree, #[trigger] tree.children_of(n)[k])
}

/// Whether a node is a written separator.
pub open spec fn is_separator(tree: SyntaxTree, n: usize) -> bool {
    tree.kind_of(n) == Kind::ColonColon && !tree.node(n).missing
}

/// Whether a separator is written in a qualified name.
pub fn find_separator(tree: &SyntaxTree, n: usize) -> (r: bool)
    ensures
        r == has_separator(*tree, n),
{
    let children = tree.children(n);
    let mut i: usize = 0;
    while i < children.len()
        invariant
            i <= children@.len(),
            children@ == tree.children_of(n),
            forall|k: int| 0 <= k < i ==> !is_separator(*tree, #[trigger] children@[k]),
        decreases children@.len() - i,
    {
        let data = tree.data(children[i]);
        if data.kind == Kind::ColonColon && !data.missing {
            assert(is_separator(*tree, tree.children_of(n)[i as int]));
            return true;
        }
        i += 1;
    }
    false
}

/// What a plain qualified name is written as, and the node of its last part. A name
/// with template arguments or dependent parts is not plain.
pub open spec fn plain_qualified(tree: SyntaxTree, n: usize) -> Option<(Seq<u8>, usize)>
    decreases tree.count() - n,
    via plain_qualified_decreases
{
    let prefix = match tree.child_in_role(n, Field::Scope) {
        None => Some(Seq::empty()),
        Some(scope) => if tree.kind_of(scope) == Kind::NamespaceIdentifier {
            tree.text_of(scope)
        } else {
            None
        },
    };
    match (tree.child_in_role(n, Field::Name), prefix) {
        (Some(name), Some(prefix)) => if !has_separator(tree, n) {
            None
        } else {
            let last = match tree.kind_of(name) {
                Kind::QualifiedIdentifier => plain_qualified(tree, name),
                Kind::Identifier
                | Kind::FieldIdentifier
                | Kind::TypeIdentifier
                | Kind::OperatorName
                | Kind::DestructorName => match simple_name(tree, name) {
                    None => None,
                    Some(text) => Some((text, name)),
                },
                _ => None,
            };
            match last {
                None => None,
                Some((suffix, node)) => Some((prefix + "::".spec_bytes() + suffix, node)),
            }
        },
        _ => None,
    }
}

#[via_fn]
proof fn plain_qualified_decreases(tree: SyntaxTree, n: usize) {
    tree.child_in_role_is_child(n, Field::Name);
}

/// What a plain qualified name is written as, and the node of its last part.
pub fn plain_qualified_definition(tree: &SyntaxTree, n: usize) -> (r: Option<(Vec<u8>, usize)>)
    ensures
        match r {
            None => plain_qualified(*tree, n) is None,
            Some((text, node)) => plain_qualified(*tree, n) == Some((text@, node)),
        },
    decreases tree.count() - n,
{
    if !find_separator(tree, n) {
        return None;
    }
    let mut text: Vec<u8> = Vec::new();
    assert(text@ =~= Seq::empty());
    if let Some(scope) = tree.child_by_field(n, Field::Scope) {
        if tree.kind(scope) != Kind::NamespaceIdentifier {
            return None;
        }
        match tree.node_text(scope) {
            None => {
                return None;
            },
            Some(prefix) => {
                text = copy_bytes(prefix);
            },
        }
    }
    let name = match tree.child_by_field(n, Field::Name) {
        None => {
            return None;
        },
        Some(name) => name,
    };
    proof {
        tree.child_in_role_is_child(n, Field::Name);
    }
    append_bytes(&mut text, "::".as_bytes());
    match tree.kind(name) {
        Kind::QualifiedIdentifier => match plain_qualified_definition(tree, name) {
            None => None,
            Some((suffix, node)) => {
                append_bytes(&mut text, suffix.as_slice());
                Some((text, node))
            },
        },
        Kind::Identifier
        | Kind::FieldIdentifier
        | Kind::TypeIdentifier
        | Kind::OperatorName
        | Kind::DestructorName => match find_simple_name(tree, name) {
            None => None,
            Some(suffix) => {
                append_bytes(&mut text, suffix.as_slice());
                Some((text, name))
            },
        },
        _ => None,
    }
}

/// The name of a class as it is written.
pub open spec fn record_name(tree: SyntaxTree, record: usize) -> Option<Seq<u8>> {
    match tree.child_in_role(record, Field::Name) {
        None => None,
        Some(name) => if tree.kind_of(name) == Kind::QualifiedIdentifier {
            match plain_qualified(tree, name) {
                Some((text, _)) => Some(text),
                None => tree.text_of(name),
            }
        } else {
            tree.text_of(name)
        },
    }
}

fn find_record_name(tree: &SyntaxTree, record: usize) -> (r: Option<Vec<u8>>)
    ensures
        match r {
            None => record_name(*tree, record) is None,
            Some(name) => record_name(*tree, record) == Some(name@),
        },
{
    let name = match tree.child_by_field(record, Field::Name) {
        None => {
            return None;
        },
        Some(name) => name,
    };
    if tree.kind(name) == Kind::QualifiedIdentifier {
        if let Some((text, _)) = plain_qualified_definition(tree, name) {
            return Some(text);
        }
    }
    match tree.node_text(name) {
        None => None,
        Some(text) => Some(copy_bytes(text)),
    }
}

/// Whether a name starts at the outermost scope.
pub open spec fn is_absolute(name: Seq<u8>) -> bool {
    pair_at(name, 0, COLON, COLON)
}

/// The names of the classes and namespaces around a node, outermost first. A class
/// whose name starts at the outermost scope has none around it.
pub open spec fn owners_of(tree: SyntaxTree, at: usize) -> Seq<Seq<u8>>
    decreases at,
{
    match tree.parent_of(at) {
        None => Seq::empty(),
        Some(p) => match tree.kind_of(p) {
            Kind::ClassSpecifier | Kind::StructSpecifier => match record_name(tree, p) {
                None => owners_of(tree, p),
                Some(name) => if is_absolute(name) {
                    seq![name.skip(2)]
                } else {
                    owners_of(tree, p).push(name)
                },
            },
            Kind::NamespaceDefinition => match role_text(tree, p, Field::Name) {
                None => owners_of(tree, p),
                Some(name) => owners_of(tree, p).push(name),
            },
            _ => owners_of(tree, p),
        },
    }
}

/// The names of the classes and namespaces around a declaration, outermost first; a
/// name does not stand in what it names.
pub open spec fn scopes_around(tree: SyntaxTree, n: usize) -> Seq<Seq<u8>> {
    owners_of(
        tree,
        match tree.parent_of(n) {
            Some(p) => p,
            None => n,
        },
    )
}

/// A name behind the scopes around it.
pub open spec fn qualified_name(tree: SyntaxTree, name: Seq<u8>, n: usize) -> Seq<u8> {
    joined(scopes_around(tree, n).push(name), "::".spec_bytes())
}

proof fn lemma_reversed_push(items: Seq<Seq<u8>>, item: Seq<u8>, rest: Seq<Seq<u8>>)
    ensures
        rest + items.push(item).reverse() == rest.push(item) + items.reverse(),
{
    assert(rest + items.push(item).reverse() =~= rest.push(item) + items.reverse());
}

/// The names of the classes and namespaces around a node, innermost first.
fn collect_owners(tree: &SyntaxTree, node: usize) -> (r: Vec<Vec<u8>>)
    ensures
        byte_views(r@) == owners_of(*tree, node).reverse(),
{
    let ghost whole = owners_of(*tree, node).reverse();
    let mut owners: Vec<Vec<u8>> = Vec::new();
    let mut at: usize = node;
    let mut open = true;
    assert(byte_views(owners@) =~= Seq::empty());
    assert(Seq::<Seq<u8>>::empty() + whole =~= whole);
    while open
        invariant
            whole == owners_of(*tree, node).reverse(),
            open ==> byte_views(owners@) + owners_of(*tree, at).reverse() == whole,
            !open ==> byte_views(owners@) == whole,
        decreases at, if open { 1int } else { 0int },
    {
        let p: usize = match tree.parent(at) {
            None => {
                assert(Seq::<Seq<u8>>::empty().reverse() =~= Seq::empty());
                assert(byte_views(owners@) + Seq::<Seq<u8>>::empty() =~= byte_views(owners@));
                return owners;
            },
            Some(p) => p,
        };
        let ghost before = owners@;
        match tree.kind(p) {
            Kind::ClassSpecifier | Kind::StructSpecifier => {
                if let Some(name) = find_record_name(tree, p) {
                    if has_pair_at(name.as_slice(), 0, COLON, COLON) {
                        let all = name.as_slice();
                        let part = &all[2..all.len()];
                        assert(part@ =~= name@.skip(2));
                        let absolute = copy_bytes(part);
                        owners.push(absolute);
                        proof {
                            lemma_push_bytes(before, absolute);
                            assert(byte_views(before) + seq![name@.skip(2)].reverse()
                                =~= byte_views(before).push(absolute@));
                        }
                        open = false;
                    } else {
                        proof {
                            lemma_reversed_push(
                                owners_of(*tree, p),
                                name@,
                                byte_views(before),
                            );
                        }
                        owners.push(name);
                        proof {
                            lemma_push_bytes(before, name);
                        }
                    }
                }
            },
            Kind::NamespaceDefinition => {
                if let Some(text) = find_role_text(tree, p, Field::Name) {
                    let name = copy_bytes(text);
                    proof {
                        lemma_reversed_push(owners_of(*tree, p), name@, byte_views(before));
                    }
                    owners.push(name);
                    proof {
                        lemma_push_bytes(before, name);
                    }
                }
            },
            _ => {},
        }
        at = p;
    }
    owners
}

/// The names of the classes and namespaces around a declaration, outermost first.
pub fn find_scopes_around(tree: &SyntaxTree, n: usize) -> (r: Vec<Vec<u8>>)
    ensures
        byte_views(r@) == scopes_around(*tree, n),
{
    let start: usize = match tree.parent(n) {
        Some(p) => p,
        None => n,
    };
    let inner = collect_owners(tree, start);
    let ghost views = byte_views(inner@);
    let mut outer: Vec<Vec<u8>> = Vec::new();
    let mut i: usize = inner.len();
    assert(byte_views(outer@) =~= views.skip(i as int).reverse());
    while i > 0
        invariant
            i <= inner@.len(),
            views == byte_views(inner@),
            byte_views(outer@) == views.skip(i as int).reverse(),
        decreases i,
    {
        i -= 1;
        let ghost before = outer@;
        let item = copy_bytes(inner[i].as_slice());
        outer.push(item);
        proof {
            lemma_push_bytes(before, item);
            assert(views.skip(i as int).reverse() =~= views.skip(i + 1).reverse().push(
                views[i as int],
            ));
        }
    }
    assert(views.skip(0) =~= views);
    assert(owners_of(*tree, start).reverse().reverse() =~= owners_of(*tree, start));
    outer
}

/// A name behind the scopes around it.
pub fn qualified_name_from_node_cpp(tree: &SyntaxTree, name: &[u8], n: usize) -> (r: Vec<u8>)
    ensures
        r@ == qualified_name(*tree, name@, n),
{
    let mut parts = find_scopes_around(tree, n);
    let ghost before = parts@;
    let item = copy_bytes(name);
    parts.push(item);
    proof {
        lemma_push_bytes(before, item);
    }
    join(parts.as_slice(), "::".as_bytes())
}

/// A name without separators at its end.
pub open spec fn without_trailing(name: Seq<u8>) -> Seq<u8>
    decreases name.len(),
{
    if name.len() >= 2 && name[name.len() - 1] == COLON && name[name.len() - 2] == COLON {
        without_trailing(name.take(name.len() - 2))
    } else {
        name
    }
}

/// A name without separators at its start.
pub open spec fn without_leading(name: Seq<u8>) -> Seq<u8>
    decreases name.len(),
{
    if name.len() >= 2 && name[0] == COLON && name[1] == COLON {
        without_leading(name.skip(2))
    } else {
        name
    }
}

/// A name without separators at its start.
pub fn drop_leading(name: &[u8]) -> (r: &[u8])
    ensures
        r@ == without_leading(name@),
{
    let mut at: usize = 0;
    assert(name@.skip(0) =~= name@);
    while name.len() - at >= 2 && name[at] == COLON && name[at + 1] == COLON
        invariant
            at <= name@.len(),
            without_leading(name@) == without_leading(name@.skip(at as int)),
        decreases name@.len() - at,
    {
        assert(name@.skip(at as int).skip(2) =~= name@.skip(at + 2));
        at += 2;
    }
    let rest = &name[at..name.len()];
    assert(rest@ =~= name@.skip(at as int));
    rest
}

/// The scope of a declaration: the names around it.
pub open spec fn scope_of(tree: SyntaxTree, n: usize) -> Seq<u8> {
    without_trailing(joined(scopes_around(tree, n), "::".spec_bytes()))
}

/// The scope of a declaration: the names around it.
pub fn find_scope(tree: &SyntaxTree, n: usize) -> (r: Vec<u8>)
    ensures
        r@ == scope_of(*tree, n),
{
    let parts = find_scopes_around(tree, n);
    let mut name = join(parts.as_slice(), "::".as_bytes());
    while name.len() >= 2 && name[name.len() - 1] == COLON && name[name.len() - 2] == COLON
        invariant
            without_trailing(name@) == scope_of(*tree, n),
        decreases name@.len(),
    {
        let ghost before = name@;
        let kept = name.len() - 2;
        name.truncate(kept);
        assert(name@ =~= before.take(before.len() - 2));
    }
    name
}

/// Whether a word is a built-in type of its own.
pub open spec fn is_type_keyword(word: Seq<u8>) -> bool {
    crate::reaching_defs::is_builtin_word(word) || token_is(word, "void")
}

/// The child that a declarator in an alias goes on with.
pub open spec fn alias_inner(tree: SyntaxTree, n: usize) -> Option<usize> {
    match tree.child_in_role(n, Field::Declarator) {
        Some(declarator) => Some(declarator),
        None => {
            let rest = tree.without(tree.named_children_of(n), seq![Kind::TypeQualifier]);
            if rest.len() == 1 {
                Some(rest[0])
            } else {
                None
            }
        },
    }
}

proof fn lemma_alias_inner(tree: SyntaxTree, n: usize)
    ensures
        alias_inner(tree, n) is Some ==> n < alias_inner(tree, n)->0 < tree.count(),
{
    tree.child_in_role_is_child(n, Field::Declarator);
    let named = tree.named_children_of(n);
    let kinds = seq![Kind::TypeQualifier];
    let rest = tree.without(named, kinds);
    if rest.len() == 1 {
        let keep = |c: usize| !kinds.contains(tree.kind_of(c));
        assert(rest.contains(rest[0]));
        named.lemma_filter_contains_rev(keep, rest[0]);
        let k = choose|k: int| 0 <= k < named.len() && named[k] == rest[0];
        tree.named_children_are_children(n, k);
    }
}

/// The name that an alias declares. The grammar also gives names of libraries as
/// built-in types; their place in the declaration makes them names.
pub open spec fn alias_named(tree: SyntaxTree, n: usize) -> Option<usize>
    decreases tree.count() - n,
    via alias_named_decreases
{
    match tree.kind_of(n) {
        Kind::PrimitiveType => match tree.text_of(n) {
            Some(name) if name.len() > 0 && !is_type_keyword(name) => Some(n),
            _ => None,
        },
        Kind::TypeIdentifier | Kind::Identifier | Kind::NamespaceIdentifier => Some(n),
        _ => match alias_inner(tree, n) {
            None => None,
            Some(inner) => alias_named(tree, inner),
        },
    }
}

#[via_fn]
proof fn alias_named_decreases(tree: SyntaxTree, n: usize) {
    lemma_alias_inner(tree, n);
}

fn type_keyword(word: &[u8]) -> (r: bool)
    ensures
        r == is_type_keyword(word@),
{
    crate::reaching_defs::builtin_word(word) || is_token(word, "void")
}

/// The name that an alias declares.
pub fn cpp_alias_name(tree: &SyntaxTree, node: usize) -> (r: Option<usize>)
    ensures
        r == alias_named(*tree, node),
{
    let mut n: usize = node;
    loop
        invariant
            alias_named(*tree, node) == alias_named(*tree, n),
        decreases tree.count() - n,
    {
        proof {
            lemma_alias_inner(*tree, n);
        }
        match tree.kind(n) {
            Kind::PrimitiveType => {
                return match tree.node_text(n) {
                    None => None,
                    Some(name) => if name.len() > 0 && !type_keyword(name) {
                        Some(n)
                    } else {
                        None
                    },
                };
            },
            Kind::TypeIdentifier | Kind::Identifier | Kind::NamespaceIdentifier => {
                return Some(n);
            },
            _ => {},
        }
        let inner = match tree.child_by_field(n, Field::Declarator) {
            Some(declarator) => Some(declarator),
            None => {
                let named = tree.named_children(n);
                let drop = [Kind::TypeQualifier];
                assert(drop@ =~= seq![Kind::TypeQualifier]);
                let rest = tree.drop_kinds(named.as_slice(), &drop);
                if rest.len() == 1 {
                    Some(rest[0])
                } else {
                    None
                }
            },
        };
        match inner {
            None => {
                return None;
            },
            Some(inner) => {
                n = inner;
            },
        }
    }
}

} // verus!
