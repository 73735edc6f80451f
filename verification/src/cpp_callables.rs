//! Written parameters of C++ callables. The parameters of a function template stay
//! apart from substitution.

use crate::cpp_facts::{
    lemma_push_text, lemma_push_view, optional_view, optional_views, text_views, views,
    CallableDeclarationView, CppCallableDeclaration, CppDeclaredType, DeclaredTypeView,
};
use crate::cpp_member_macros::{order_texts, ordered_texts};
use crate::cpp_names::{find_texts, find_written_children, texts_of, written_children};
use crate::cpp_templates::{
    callable_kinds, function_parameters, function_parameters_of, optional_vec,
};
use crate::cpp_tokens::{is_token, lists, token_is};
use crate::cpp_types::{
    join_scope, parameter_type, parameter_type_of, return_type, returned_type, scoped,
};
use crate::facts::{SymbolDef, TextRange};
use crate::ids::SymbolId;
use crate::syntax::{Field, Kind, SyntaxTree};
use crate::text::{
    append_bytes, byte_views, copy_bytes, join, joined, lemma_push_bytes, same_bytes, Text,
};
use vstd::prelude::*;
use vstd::string::StringSliceAdditionalSpecFns;

verus! {

broadcast use {SyntaxTree::parent_comes_first, SyntaxTree::children_come_later};

/// Whether a word qualifies a type.
pub open spec fn is_cv(word: Seq<u8>) -> bool {
    token_is(word, "const") || token_is(word, "volatile")
}

/// The qualifiers among some nodes, which may be comments too; nothing where another
/// node is among them.
pub open spec fn cv_of(tree: SyntaxTree, nodes: Seq<usize>) -> Option<Seq<Seq<u8>>>
    decreases nodes.len(),
{
    if nodes.len() == 0 {
        Some(Seq::empty())
    } else {
        let n = nodes.last();
        match cv_of(tree, nodes.drop_last()) {
            None => None,
            Some(before) => match tree.kind_of(n) {
                Kind::Comment => Some(before),
                Kind::TypeQualifier => match tree.text_of(n) {
                    Some(word) if is_cv(word) => Some(before.push(word)),
                    _ => None,
                },
                _ => None,
            },
        }
    }
}

proof fn lemma_cv_stays(tree: SyntaxTree, nodes: Seq<usize>, count: int)
    requires
        0 <= count <= nodes.len(),
        cv_of(tree, nodes.take(count)) is None,
    ensures
        cv_of(tree, nodes) is None,
    decreases nodes.len(),
{
    if count == nodes.len() {
        assert(nodes.take(count) =~= nodes);
    } else {
        assert(nodes.drop_last().take(count) =~= nodes.take(count));
        lemma_cv_stays(tree, nodes.drop_last(), count);
    }
}

fn read_cv(tree: &SyntaxTree, nodes: &[usize]) -> (r: Option<Vec<Vec<u8>>>)
    ensures
        lists(r, cv_of(*tree, nodes@)),
{
    let mut words: Vec<Vec<u8>> = Vec::new();
    let mut i: usize = 0;
    assert(byte_views(words@) =~= Seq::empty());
    while i < nodes.len()
        invariant
            i <= nodes@.len(),
            cv_of(*tree, nodes@.take(i as int)) == Some(byte_views(words@)),
        decreases nodes@.len() - i,
    {
        let n: usize = nodes[i];
        proof {
            assert(nodes@.take(i + 1).drop_last() =~= nodes@.take(i as int));
            if cv_of(*tree, nodes@.take(i + 1)) is None {
                lemma_cv_stays(*tree, nodes@, i + 1);
            }
        }
        match tree.kind(n) {
            Kind::Comment => {},
            Kind::TypeQualifier => {
                match tree.node_text(n) {
                    None => {
                        return None;
                    },
                    Some(word) => {
                        if !is_token(word, "const") && !is_token(word, "volatile") {
                            return None;
                        }
                        let ghost before = words@;
                        let item = copy_bytes(word);
                        words.push(item);
                        proof {
                            lemma_push_bytes(before, item);
                        }
                    },
                }
            },
            _ => {
                return None;
            },
        }
        i += 1;
    }
    assert(nodes@.take(i as int) =~= nodes@);
    Some(words)
}

/// A pointer or reference layer of a declarator, with its qualifiers.
#[verifier::ext_equal]
pub struct LayerView {
    pub operator: Seq<u8>,
    pub cv: Seq<Seq<u8>>,
}

/// A pointer or reference layer of a declarator, with its qualifiers.
pub struct Layer {
    pub operator: Vec<u8>,
    pub cv: Vec<Vec<u8>>,
}

impl View for Layer {
    type V = LayerView;

    open spec fn view(&self) -> LayerView {
        LayerView { operator: self.operator@, cv: byte_views(self.cv@) }
    }
}

/// The named children of a node that are not in three others.
pub open spec fn is_apart(
    a: Option<usize>,
    b: Option<usize>,
    c: Option<usize>,
    n: usize,
) -> bool {
    a != Some(n) && b != Some(n) && c != Some(n)
}

/// The named children of a node that are none of three others.
pub open spec fn apart_from(
    tree: SyntaxTree,
    n: usize,
    a: Option<usize>,
    b: Option<usize>,
    c: Option<usize>,
) -> Seq<usize> {
    tree.named_children_of(n).filter(|k: usize| is_apart(a, b, c, k))
}

fn find_apart(
    tree: &SyntaxTree,
    n: usize,
    a: Option<usize>,
    b: Option<usize>,
    c: Option<usize>,
) -> (r: Vec<usize>)
    ensures
        r@ == apart_from(*tree, n, a, b, c),
{
    let children = tree.named_children(n);
    let ghost keep = |k: usize| is_apart(a, b, c, k);
    let mut found: Vec<usize> = Vec::new();
    let mut i: usize = 0;
    assert(children@.take(0).filter(keep) =~= Seq::empty()) by {
        reveal(Seq::filter);
    }
    while i < children.len()
        invariant
            i <= children@.len(),
            keep == (|k: usize| is_apart(a, b, c, k)),
            found@ == children@.take(i as int).filter(keep),
        decreases children@.len() - i,
    {
        proof {
            crate::collections::lemma_filter_step(children@, keep, i as int);
        }
        let k: usize = children[i];
        if a != Some(k) && b != Some(k) && c != Some(k) {
            found.push(k);
        }
        i += 1;
    }
    assert(children@.take(i as int) =~= children@);
    found
}

/// The layers of a declarator, outermost first.
pub open spec fn layers_of(tree: SyntaxTree, n: usize) -> Option<Seq<LayerView>>
    decreases tree.count() - n, 1int, 0int,
    via layers_of_decreases
{
    match tree.kind_of(n) {
        Kind::Identifier | Kind::FieldIdentifier | Kind::TypeIdentifier => Some(Seq::empty()),
        Kind::PointerDeclarator | Kind::AbstractPointerDeclarator => {
            let inner = tree.child_in_role(n, Field::Declarator);
            match cv_of(tree, apart_from(tree, n, inner, None, None)) {
                None => None,
                Some(words) => {
                    let own = seq![
                        LayerView { operator: "*".spec_bytes(), cv: ordered_texts(words) },
                    ];
                    match inner {
                        None => Some(own),
                        Some(child) => match layers_of(tree, child) {
                            None => None,
                            Some(rest) => Some(own + rest),
                        },
                    }
                },
            }
        },
        Kind::ReferenceDeclarator | Kind::AbstractReferenceDeclarator => match tree.first_of(
            tree.children_of(n),
            seq![Kind::Ampersand, Kind::DoubleAmpersand],
            Seq::empty(),
        ) {
            None => None,
            Some(operator) => {
                let own = seq![
                    LayerView {
                        operator: if tree.kind_of(operator) == Kind::Ampersand {
                            "&".spec_bytes()
                        } else {
                            "&&".spec_bytes()
                        },
                        cv: Seq::empty(),
                    },
                ];
                match layers_in(tree, n, tree.named_children_of(n).len()) {
                    None => None,
                    Some(rest) => Some(own + rest),
                }
            },
        },
        _ => None,
    }
}

/// The layers of the first named children of a node, without comments.
pub open spec fn layers_in(tree: SyntaxTree, n: usize, count: nat) -> Option<Seq<LayerView>>
    decreases tree.count() - n, 0int, count,
    via layers_in_decreases
{
    if count == 0 || count > tree.named_children_of(n).len() {
        Some(Seq::empty())
    } else {
        let c = tree.named_children_of(n)[count - 1];
        match layers_in(tree, n, (count - 1) as nat) {
            None => None,
            Some(before) => if tree.kind_of(c) == Kind::Comment {
                Some(before)
            } else {
                match layers_of(tree, c) {
                    None => None,
                    Some(rest) => Some(before + rest),
                }
            },
        }
    }
}

#[via_fn]
proof fn layers_of_decreases(tree: SyntaxTree, n: usize) {
    tree.child_in_role_is_child(n, Field::Declarator);
}

#[via_fn]
proof fn layers_in_decreases(tree: SyntaxTree, n: usize, count: nat) {
    if count > 0 && count <= tree.named_children_of(n).len() {
        tree.named_children_are_children(n, count - 1);
    }
}

proof fn lemma_layers_stay(tree: SyntaxTree, n: usize, count: nat, more: nat)
    requires
        count <= more <= tree.named_children_of(n).len(),
        layers_in(tree, n, count) is None,
    ensures
        layers_in(tree, n, more) is None,
    decreases more,
{
    if count < more {
        lemma_layers_stay(tree, n, count, (more - 1) as nat);
    }
}

/// Add the layers of a declarator; says whether there are such.
fn declarator_layers(tree: &SyntaxTree, n: usize, layers: &mut Vec<Layer>) -> (r: bool)
    ensures
        match layers_of(*tree, n) {
            None => !r,
            Some(list) => r && views(final(layers)@) == views(
                old(layers)@,
            ) + list,
        },
    decreases tree.count() - n,
{
    let ghost start = views(layers@);
    proof {
        tree.child_in_role_is_child(n, Field::Declarator);
    }
    match tree.kind(n) {
        Kind::Identifier | Kind::FieldIdentifier | Kind::TypeIdentifier => {
            assert(start + Seq::<LayerView>::empty() =~= start);
            true
        },
        Kind::PointerDeclarator | Kind::AbstractPointerDeclarator => {
            let inner = tree.child_by_field(n, Field::Declarator);
            let rest = find_apart(tree, n, inner, None, None);
            let words = match read_cv(tree, rest.as_slice()) {
                None => {
                    return false;
                },
                Some(words) => words,
            };
            let ghost before = layers@;
            let own = Layer {
                operator: copy_bytes("*".as_bytes()),
                cv: order_texts(words.as_slice()),
            };
            layers.push(own);
            proof {
                lemma_push_view(before, own);
                assert(start.push(own@) =~= start + seq![own@]);
            }
            match inner {
                None => true,
                Some(child) => {
                    let r = declarator_layers(tree, child, layers);
                    proof {
                        if let Some(more) = layers_of(*tree, child) {
                            assert(start + seq![own@] + more =~= start + (seq![own@] + more));
                        }
                    }
                    r
                },
            }
        },
        Kind::ReferenceDeclarator | Kind::AbstractReferenceDeclarator => {
            let want = [Kind::Ampersand, Kind::DoubleAmpersand];
            let stop: [Kind; 0] = [];
            assert(want@ =~= seq![Kind::Ampersand, Kind::DoubleAmpersand]);
            assert(stop@ =~= Seq::empty());
            let operator = match tree.find_first(tree.children(n), &want, &stop) {
                None => {
                    return false;
                },
                Some(operator) => operator,
            };
            let ghost before = layers@;
            let none: Vec<Vec<u8>> = Vec::new();
            assert(byte_views(none@) =~= Seq::empty());
            let own = Layer {
                operator: if tree.kind(operator) == Kind::Ampersand {
                    copy_bytes("&".as_bytes())
                } else {
                    copy_bytes("&&".as_bytes())
                },
                cv: none,
            };
            layers.push(own);
            proof {
                lemma_push_view(before, own);
            }
            let children = tree.named_children(n);
            let mut i: usize = 0;
            assert(start.push(own@) =~= start + (seq![own@] + Seq::empty()));
            while i < children.len()
                invariant
                    i <= children@.len(),
                    children@ == tree.named_children_of(n),
                    match layers_in(*tree, n, i as nat) {
                        None => false,
                        Some(list) => views(layers@) == start + (seq![own@]
                            + list),
                    },
                    layers_of(*tree, n) == (match layers_in(*tree, n, children@.len()) {
                        None => None,
                        Some(rest) => Some(seq![own@] + rest),
                    }),
                decreases children@.len() - i,
            {
                let c: usize = children[i];
                let ghost done = layers_in(*tree, n, i as nat)->0;
                proof {
                    tree.named_children_are_children(n, i as int);
                    if layers_in(*tree, n, (i + 1) as nat) is None {
                        lemma_layers_stay(*tree, n, (i + 1) as nat, children@.len());
                    }
                }
                if tree.kind(c) != Kind::Comment {
                    if !declarator_layers(tree, c, layers) {
                        return false;
                    }
                    proof {
                        let more = layers_of(*tree, c)->0;
                        assert(start + (seq![own@] + done) + more =~= start + (seq![own@] + (done
                            + more)));
                    }
                }
                i += 1;
            }
            true
        },
        _ => false,
    }
}

/// The written form of one of the first template arguments, which may be a type, a
/// name or a literal. Comments do not count.
pub open spec fn values_in(tree: SyntaxTree, list: usize, count: nat) -> Option<Seq<Seq<u8>>>
    decreases tree.count() - list, count,
    via values_in_decreases
{
    if count == 0 || count > tree.named_children_of(list).len() {
        Some(Seq::empty())
    } else {
        let c = tree.named_children_of(list)[count - 1];
        match values_in(tree, list, (count - 1) as nat) {
            None => None,
            Some(before) => match tree.kind_of(c) {
                Kind::Comment => Some(before),
                Kind::TypeDescriptor => match written_type_of(tree, c, false) {
                    None => None,
                    Some(text) => Some(before.push(text)),
                },
                Kind::QualifiedIdentifier | Kind::Identifier | Kind::TemplateFunction => {
                    match type_written(tree, c) {
                        None => None,
                        Some(text) => Some(before.push(text)),
                    }
                },
                Kind::NumberLiteral | Kind::True | Kind::False => match tree.text_of(c) {
                    None => None,
                    Some(text) => Some(before.push(text)),
                },
                _ => None,
            },
        }
    }
}

/// The written form of a type without its qualifiers.
pub open spec fn type_written(tree: SyntaxTree, n: usize) -> Option<Seq<u8>>
    decreases tree.count() - n, 0nat,
    via type_written_decreases
{
    match tree.kind_of(n) {
        Kind::TypeIdentifier
        | Kind::Identifier
        | Kind::NamespaceIdentifier
        | Kind::PrimitiveType => tree.text_of(n),
        Kind::SizedTypeSpecifier => match texts_of(tree, written_children(tree, n)) {
            None => None,
            Some(words) => Some(joined(words, " ".spec_bytes())),
        },
        Kind::QualifiedIdentifier => match tree.child_in_role(n, Field::Name) {
            None => None,
            Some(last) => match type_written(tree, last) {
                None => None,
                Some(name) => match tree.child_in_role(n, Field::Scope) {
                    None => Some(scoped(Seq::empty(), name)),
                    Some(scope) => match type_written(tree, scope) {
                        None => None,
                        Some(prefix) => Some(scoped(prefix, name)),
                    },
                },
            },
        },
        Kind::TemplateType | Kind::TemplateFunction => match (
            tree.child_in_role(n, Field::Name),
            tree.child_in_role(n, Field::Arguments),
        ) {
            (Some(own), Some(list)) => match (
                type_written(tree, own),
                values_in(tree, list, tree.named_children_of(list).len()),
            ) {
                (Some(name), Some(values)) => Some(
                    name + "<".spec_bytes() + joined(values, ",".spec_bytes()) + ">".spec_bytes(),
                ),
                _ => None,
            },
            _ => None,
        },
        _ => None,
    }
}

/// The written form of layers behind a type.
pub open spec fn with_layers(text: Seq<u8>, layers: Seq<LayerView>) -> Seq<u8>
    decreases layers.len(),
{
    if layers.len() == 0 {
        text
    } else {
        let before = with_layers(text, layers.drop_last()) + layers.last().operator;
        if layers.last().cv.len() == 0 {
            before
        } else {
            before + " ".spec_bytes() + joined(layers.last().cv, " ".spec_bytes())
        }
    }
}

/// Layers whose last, if it is a pointer, has no qualifiers: those of a parameter
/// itself do not tell callables apart.
pub open spec fn adjusted(layers: Seq<LayerView>) -> Seq<LayerView> {
    if layers.len() > 0 && layers.last().operator == "*".spec_bytes() {
        layers.drop_last().push(LayerView { cv: Seq::empty(), ..layers.last() })
    } else {
        layers
    }
}

/// The layers of a declarator that may be absent.
pub open spec fn optional_layers(tree: SyntaxTree, n: Option<usize>) -> Option<Seq<LayerView>> {
    match n {
        None => Some(Seq::empty()),
        Some(declarator) => layers_of(tree, declarator),
    }
}

/// The written form of a type with its qualifiers and its declarator, without the
/// declared name. Arrays and functions are not supported.
pub open spec fn written_type_of(tree: SyntaxTree, n: usize, parameter: bool) -> Option<Seq<u8>>
    decreases tree.count() - n, 0nat,
    via written_type_decreases
{
    let declarator = tree.child_in_role(n, Field::Declarator);
    let default = tree.child_in_role(n, Field::DefaultValue);
    match tree.child_in_role(n, Field::Type) {
        None => None,
        Some(ty) => match (
            type_written(tree, ty),
            cv_of(tree, apart_from(tree, n, Some(ty), declarator, default)),
            optional_layers(tree, declarator),
        ) {
            (Some(name), Some(words), Some(layers)) => {
                let cv = if parameter && layers.len() == 0 {
                    Seq::empty()
                } else {
                    ordered_texts(words)
                };
                Some(
                    with_layers(
                        if cv.len() == 0 {
                            name
                        } else {
                            joined(cv, " ".spec_bytes()) + " ".spec_bytes() + name
                        },
                        if parameter {
                            adjusted(layers)
                        } else {
                            layers
                        },
                    ),
                )
            },
            _ => None,
        },
    }
}

#[via_fn]
proof fn values_in_decreases(tree: SyntaxTree, list: usize, count: nat) {
    if count > 0 && count <= tree.named_children_of(list).len() {
        tree.named_children_are_children(list, count - 1);
    }
}

#[via_fn]
proof fn type_written_decreases(tree: SyntaxTree, n: usize) {
    tree.child_in_role_is_child(n, Field::Name);
    tree.child_in_role_is_child(n, Field::Scope);
    tree.child_in_role_is_child(n, Field::Arguments);
}

#[via_fn]
proof fn written_type_decreases(tree: SyntaxTree, n: usize, parameter: bool) {
    tree.child_in_role_is_child(n, Field::Type);
}

proof fn lemma_values_stay(tree: SyntaxTree, list: usize, count: nat, more: nat)
    requires
        count <= more <= tree.named_children_of(list).len(),
        values_in(tree, list, count) is None,
    ensures
        values_in(tree, list, more) is None,
    decreases more,
{
    if count < more {
        lemma_values_stay(tree, list, count, (more - 1) as nat);
    }
}

/// The written forms of template arguments.
fn read_values(tree: &SyntaxTree, list: usize) -> (r: Option<Vec<Vec<u8>>>)
    ensures
        lists(r, values_in(*tree, list, tree.named_children_of(list).len())),
    decreases tree.count() - list, 1int,
{
    let children = tree.named_children(list);
    let mut values: Vec<Vec<u8>> = Vec::new();
    let mut i: usize = 0;
    assert(byte_views(values@) =~= Seq::empty());
    while i < children.len()
        invariant
            i <= children@.len(),
            children@ == tree.named_children_of(list),
            values_in(*tree, list, i as nat) == Some(byte_views(values@)),
        decreases children@.len() - i,
    {
        let c: usize = children[i];
        proof {
            tree.named_children_are_children(list, i as int);
            if values_in(*tree, list, (i + 1) as nat) is None {
                lemma_values_stay(*tree, list, (i + 1) as nat, children@.len());
            }
        }
        let kind = tree.kind(c);
        if kind != Kind::Comment {
            let value = match kind {
                Kind::TypeDescriptor => written_type(tree, c, false),
                Kind::QualifiedIdentifier | Kind::Identifier | Kind::TemplateFunction => {
                    written_name(tree, c)
                },
                Kind::NumberLiteral | Kind::True | Kind::False => match tree.node_text(c) {
                    None => None,
                    Some(text) => Some(copy_bytes(text)),
                },
                _ => None,
            };
            match value {
                None => {
                    return None;
                },
                Some(value) => {
                    let ghost before = values@;
                    values.push(value);
                    proof {
                        lemma_push_bytes(before, value);
                    }
                },
            }
        }
        i += 1;
    }
    Some(values)
}

/// The written form of a type without its qualifiers.
fn written_name(tree: &SyntaxTree, n: usize) -> (r: Option<Vec<u8>>)
    ensures
        optional_vec(r) == type_written(*tree, n),
    decreases tree.count() - n, 0int,
{
    proof {
        tree.child_in_role_is_child(n, Field::Name);
        tree.child_in_role_is_child(n, Field::Scope);
        tree.child_in_role_is_child(n, Field::Arguments);
    }
    match tree.kind(n) {
        Kind::TypeIdentifier
        | Kind::Identifier
        | Kind::NamespaceIdentifier
        | Kind::PrimitiveType => match tree.node_text(n) {
            None => None,
            Some(text) => Some(copy_bytes(text)),
        },
        Kind::SizedTypeSpecifier => {
            let parts = find_written_children(tree, n);
            match find_texts(tree, parts.as_slice()) {
                None => None,
                Some(words) => Some(join(words.as_slice(), " ".as_bytes())),
            }
        },
        Kind::QualifiedIdentifier => match tree.child_by_field(n, Field::Name) {
            None => None,
            Some(last) => match written_name(tree, last) {
                None => None,
                Some(name) => match tree.child_by_field(n, Field::Scope) {
                    None => {
                        let none: [u8; 0] = [];
                        assert(none@ =~= Seq::empty());
                        Some(join_scope(&none, name.as_slice()))
                    },
                    Some(scope) => match written_name(tree, scope) {
                        None => None,
                        Some(prefix) => Some(join_scope(prefix.as_slice(), name.as_slice())),
                    },
                },
            },
        },
        Kind::TemplateType | Kind::TemplateFunction => match (
            tree.child_by_field(n, Field::Name),
            tree.child_by_field(n, Field::Arguments),
        ) {
            (Some(own), Some(list)) => match (written_name(tree, own), read_values(tree, list)) {
                (Some(name), Some(values)) => {
                    let mut text = name;
                    append_bytes(&mut text, "<".as_bytes());
                    append_bytes(&mut text, join(values.as_slice(), ",".as_bytes()).as_slice());
                    append_bytes(&mut text, ">".as_bytes());
                    Some(text)
                },
                _ => None,
            },
            _ => None,
        },
        _ => None,
    }
}

fn append_layers(text: Vec<u8>, layers: &[Layer]) -> (r: Vec<u8>)
    ensures
        r@ == with_layers(text@, views(layers@)),
{
    let ghost all = views(layers@);
    let ghost start = text@;
    let mut text = text;
    let mut i: usize = 0;
    assert(all.take(0) =~= Seq::empty());
    while i < layers.len()
        invariant
            i <= layers@.len(),
            all == views(layers@),
            text@ == with_layers(start, all.take(i as int)),
        decreases layers@.len() - i,
    {
        assert(all.take(i + 1).drop_last() =~= all.take(i as int));
        assert(all[i as int] == layers@[i as int]@);
        append_bytes(&mut text, layers[i].operator.as_slice());
        if layers[i].cv.len() > 0 {
            append_bytes(&mut text, " ".as_bytes());
            append_bytes(&mut text, join(layers[i].cv.as_slice(), " ".as_bytes()).as_slice());
        }
        i += 1;
    }
    assert(all.take(i as int) =~= all);
    text
}

/// Forget the qualifiers of a last pointer.
fn adjust(layers: &mut Vec<Layer>)
    ensures
        views(final(layers)@) == adjusted(views(old(layers)@)),
{
    let ghost all = views(layers@);
    if layers.len() == 0 {
        return;
    }
    let last = layers.len() - 1;
    assert(all.last() == layers@[last as int]@);
    if same_bytes(layers[last].operator.as_slice(), "*".as_bytes()) {
        let none: Vec<Vec<u8>> = Vec::new();
        assert(byte_views(none@) =~= Seq::empty());
        let layer = Layer { operator: copy_bytes(layers[last].operator.as_slice()), cv: none };
        layers.set(last, layer);
        assert(views(layers@) =~= adjusted(all));
    }
}

/// The written form of a type with its qualifiers and its declarator.
fn written_type(tree: &SyntaxTree, n: usize, parameter: bool) -> (r: Option<Vec<u8>>)
    ensures
        optional_vec(r) == written_type_of(*tree, n, parameter),
    decreases tree.count() - n, 0int,
{
    proof {
        tree.child_in_role_is_child(n, Field::Type);
    }
    let declarator = tree.child_by_field(n, Field::Declarator);
    let default = tree.child_by_field(n, Field::DefaultValue);
    let ty = match tree.child_by_field(n, Field::Type) {
        None => {
            return None;
        },
        Some(ty) => ty,
    };
    let name = match written_name(tree, ty) {
        None => {
            return None;
        },
        Some(name) => name,
    };
    let rest = find_apart(tree, n, Some(ty), declarator, default);
    let words = match read_cv(tree, rest.as_slice()) {
        None => {
            return None;
        },
        Some(words) => words,
    };
    let mut layers: Vec<Layer> = Vec::new();
    assert(views(layers@) =~= Seq::<LayerView>::empty());
    if let Some(declarator) = declarator {
        if !declarator_layers(tree, declarator, &mut layers) {
            return None;
        }
        assert(Seq::<LayerView>::empty() + layers_of(*tree, declarator)->0 =~= layers_of(
            *tree,
            declarator,
        )->0);
    }
    let ghost found = views(layers@);
    assert(optional_layers(*tree, declarator) == Some(found));
    let cv = if parameter && layers.len() == 0 {
        Vec::new()
    } else {
        order_texts(words.as_slice())
    };
    let ghost want = if parameter && found.len() == 0 {
        Seq::empty()
    } else {
        ordered_texts(byte_views(words@))
    };
    assert(byte_views(cv@) =~= want);
    if parameter {
        adjust(&mut layers);
    }
    let start = if cv.len() == 0 {
        name
    } else {
        let mut start = join(cv.as_slice(), " ".as_bytes());
        append_bytes(&mut start, " ".as_bytes());
        append_bytes(&mut start, name.as_slice());
        start
    };
    Some(append_layers(start, layers.as_slice()))
}

/// What the parameters of a callable say.
#[verifier::ext_equal]
pub struct ParametersView {
    pub written: Seq<Seq<u8>>,
    pub declared: Seq<Option<DeclaredTypeView>>,
    pub minimum: nat,
    pub defaulted: bool,
}

/// What some nodes say as parameters; nothing where they are not supported: another
/// node, an explicit object, a parameter without a default behind one with a default,
/// or a type that cannot be written down.
pub open spec fn parameters_in(tree: SyntaxTree, nodes: Seq<usize>) -> Option<ParametersView>
    decreases nodes.len(),
{
    if nodes.len() == 0 {
        Some(
            ParametersView {
                written: Seq::empty(),
                declared: Seq::empty(),
                minimum: 0,
                defaulted: false,
            },
        )
    } else {
        let n = nodes.last();
        let default = tree.child_in_role(n, Field::DefaultValue) is Some;
        match parameters_in(tree, nodes.drop_last()) {
            None => None,
            Some(before) => if tree.kind_of(n) == Kind::Comment {
                Some(before)
            } else if tree.kind_of(n) != Kind::ParameterDeclaration && tree.kind_of(n)
                != Kind::OptionalParameterDeclaration {
                None
            } else if tree.has_one_of(tree.children_of(n), seq![Kind::This]) || (!default
                && before.defaulted) {
                None
            } else {
                match written_type_of(tree, n, true) {
                    None => None,
                    Some(text) => Some(
                        ParametersView {
                            written: before.written.push(text),
                            declared: before.declared.push(parameter_type_of(tree, n)),
                            minimum: if default {
                                before.minimum
                            } else {
                                before.minimum + 1
                            },
                            defaulted: before.defaulted || default,
                        },
                    ),
                }
            },
        }
    }
}

/// Parameters, where `void` alone means that there are none.
pub open spec fn without_void(p: ParametersView) -> ParametersView {
    if p.written == seq!["void".spec_bytes()] {
        ParametersView { written: Seq::empty(), declared: Seq::empty(), minimum: 0, ..p }
    } else {
        p
    }
}

/// The qualifiers of a callable among some nodes; nothing where another node is among
/// them.
pub open spec fn callable_qualifiers(tree: SyntaxTree, nodes: Seq<usize>) -> Option<Seq<Seq<u8>>>
    decreases nodes.len(),
{
    if nodes.len() == 0 {
        Some(Seq::empty())
    } else {
        let n = nodes.last();
        match callable_qualifiers(tree, nodes.drop_last()) {
            None => None,
            Some(before) => match tree.kind_of(n) {
                Kind::TypeQualifier | Kind::RefQualifier => match tree.text_of(n) {
                    None => None,
                    Some(word) => Some(before.push(word)),
                },
                Kind::VirtualSpecifier
                | Kind::Noexcept
                | Kind::ThrowSpecifier
                | Kind::TrailingReturnType
                | Kind::Comment => Some(before),
                _ => None,
            },
        }
    }
}

/// Whether a node is a namespace without a name.
pub open spec fn is_anonymous_namespace(tree: SyntaxTree, n: usize) -> bool {
    tree.kind_of(n) == Kind::NamespaceDefinition && tree.child_in_role(n, Field::Name) is None
}

/// Whether a node is the word `static`.
pub open spec fn is_static_word(tree: SyntaxTree, n: usize) -> bool {
    tree.kind_of(n) == Kind::StorageClassSpecifier && tree.text_of(n) == Some(
        "static".spec_bytes(),
    )
}

/// Whether a declaration is known in its file only.
pub open spec fn is_internal(tree: SyntaxTree, name: usize, declaration: usize) -> bool {
    ||| exists|i: int|
        0 <= i < tree.ancestors_of(name).len() && is_anonymous_namespace(
            tree,
            #[trigger] tree.ancestors_of(name)[i],
        )
    ||| (exists|i: int|
        0 <= i < tree.named_children_of(declaration).len() && is_static_word(
            tree,
            #[trigger] tree.named_children_of(declaration)[i],
        )) && !tree.has_one_of(
        tree.ancestors_of(declaration),
        seq![Kind::ClassSpecifier, Kind::StructSpecifier],
    )
}

/// The declarator of a callable that has a name.
pub open spec fn function_around(tree: SyntaxTree, name: usize) -> Option<usize> {
    tree.first_of(
        tree.ancestors_of(name),
        seq![Kind::FunctionDeclarator],
        seq![Kind::CompoundStatement, Kind::TranslationUnit],
    )
}

/// The callable that a name declares, with its parameters as they are written; nothing
/// where it is not supported.
pub open spec fn callable_of(
    tree: SyntaxTree,
    symbol: SymbolId,
    range: TextRange,
) -> Option<CallableDeclarationView> {
    match tree.node_at(range.start_byte, range.end_byte) {
        None => None,
        Some(name) => match (function_parameters_of(tree, name), function_around(tree, name)) {
            (Some(template_parameters), Some(function)) => match (
                tree.child_in_role(function, Field::Parameters),
                tree.child_in_role(function, Field::Declarator),
                tree.first_of(tree.ancestors_of(function), callable_kinds(), Seq::empty()),
            ) {
                (Some(list), Some(declarator), Some(declaration)) => {
                    if tree.node(function).has_error || tree.has_one_of(
                        tree.children_of(list),
                        seq![Kind::Ellipsis],
                    ) {
                        None
                    } else {
                        match (
                            parameters_in(tree, tree.named_children_of(list)),
                            callable_qualifiers(
                                tree,
                                apart_from(tree, function, Some(declarator), Some(list), None),
                            ),
                        ) {
                            (Some(p), Some(words)) => Some(
                                CallableDeclarationView {
                                    symbol_id: symbol,
                                    template_parameters,
                                    parameter_types: without_void(p).written,
                                    parameter_declared_types: without_void(p).declared,
                                    minimum_arity: without_void(p).minimum as usize,
                                    qualifiers: joined(ordered_texts(words), " ".spec_bytes()),
                                    is_virtual: tree.has_one_of(
                                        tree.children_of(declaration),
                                        seq![Kind::VirtualKeyword],
                                    ),
                                    internal_linkage: is_internal(tree, name, declaration),
                                    return_type: returned_type(tree, declaration, function),
                                },
                            ),
                            _ => None,
                        }
                    }
                },
                _ => None,
            },
            _ => None,
        },
    }
}

proof fn lemma_parameters_stay(tree: SyntaxTree, nodes: Seq<usize>, count: int)
    requires
        0 <= count <= nodes.len(),
        parameters_in(tree, nodes.take(count)) is None,
    ensures
        parameters_in(tree, nodes) is None,
    decreases nodes.len(),
{
    if count == nodes.len() {
        assert(nodes.take(count) =~= nodes);
    } else {
        assert(nodes.drop_last().take(count) =~= nodes.take(count));
        lemma_parameters_stay(tree, nodes.drop_last(), count);
    }
}

proof fn lemma_qualifiers_stay(tree: SyntaxTree, nodes: Seq<usize>, count: int)
    requires
        0 <= count <= nodes.len(),
        callable_qualifiers(tree, nodes.take(count)) is None,
    ensures
        callable_qualifiers(tree, nodes) is None,
    decreases nodes.len(),
{
    if count == nodes.len() {
        assert(nodes.take(count) =~= nodes);
    } else {
        assert(nodes.drop_last().take(count) =~= nodes.take(count));
        lemma_qualifiers_stay(tree, nodes.drop_last(), count);
    }
}

/// What the parameters of a callable say.
struct Parameters {
    written: Vec<Text>,
    declared: Vec<Option<CppDeclaredType>>,
    minimum: usize,
    defaulted: bool,
}

impl View for Parameters {
    type V = ParametersView;

    closed spec fn view(&self) -> ParametersView {
        ParametersView {
            written: text_views(self.written@),
            declared: optional_views(self.declared@),
            minimum: self.minimum as nat,
            defaulted: self.defaulted,
        }
    }
}

fn read_parameters(tree: &SyntaxTree, nodes: &[usize]) -> (r: Option<Parameters>)
    ensures
        optional_view(r) == parameters_in(*tree, nodes@),
{
    let mut p = Parameters {
        written: Vec::new(),
        declared: Vec::new(),
        minimum: 0,
        defaulted: false,
    };
    let this = [Kind::This];
    let mut i: usize = 0;
    assert(this@ =~= seq![Kind::This]);
    assert(p@.written =~= Seq::empty());
    assert(p@.declared =~= Seq::empty());
    while i < nodes.len()
        invariant
            i <= nodes@.len(),
            this@ == seq![Kind::This],
            p.minimum <= i,
            parameters_in(*tree, nodes@.take(i as int)) == Some(p@),
        decreases nodes@.len() - i,
    {
        let n: usize = nodes[i];
        proof {
            assert(nodes@.take(i + 1).drop_last() =~= nodes@.take(i as int));
            if parameters_in(*tree, nodes@.take(i + 1)) is None {
                lemma_parameters_stay(*tree, nodes@, i + 1);
            }
        }
        let kind = tree.kind(n);
        if kind != Kind::Comment {
            if kind != Kind::ParameterDeclaration && kind != Kind::OptionalParameterDeclaration {
                return None;
            }
            let default = tree.child_by_field(n, Field::DefaultValue).is_some();
            if tree.has_any(tree.children(n), &this) || (!default && p.defaulted) {
                return None;
            }
            let written = match written_type(tree, n, true) {
                None => {
                    return None;
                },
                Some(text) => Text::from_vec(text),
            };
            let declared = parameter_type(tree, n);
            let ghost before = p;
            p.written.push(written);
            p.declared.push(declared);
            if !default {
                p.minimum += 1;
            }
            p.defaulted = p.defaulted || default;
            proof {
                lemma_push_text(before.written@, written);
                assert(p@.declared =~= before@.declared.push(parameter_type_of(*tree, n)));
            }
        }
        i += 1;
    }
    assert(nodes@.take(i as int) =~= nodes@);
    Some(p)
}

fn read_callable_qualifiers(tree: &SyntaxTree, nodes: &[usize]) -> (r: Option<Vec<Vec<u8>>>)
    ensures
        lists(r, callable_qualifiers(*tree, nodes@)),
{
    let mut words: Vec<Vec<u8>> = Vec::new();
    let mut i: usize = 0;
    assert(byte_views(words@) =~= Seq::empty());
    while i < nodes.len()
        invariant
            i <= nodes@.len(),
            callable_qualifiers(*tree, nodes@.take(i as int)) == Some(byte_views(words@)),
        decreases nodes@.len() - i,
    {
        let n: usize = nodes[i];
        proof {
            assert(nodes@.take(i + 1).drop_last() =~= nodes@.take(i as int));
            if callable_qualifiers(*tree, nodes@.take(i + 1)) is None {
                lemma_qualifiers_stay(*tree, nodes@, i + 1);
            }
        }
        match tree.kind(n) {
            Kind::TypeQualifier | Kind::RefQualifier => match tree.node_text(n) {
                None => {
                    return None;
                },
                Some(word) => {
                    let ghost before = words@;
                    let item = copy_bytes(word);
                    words.push(item);
                    proof {
                        lemma_push_bytes(before, item);
                    }
                },
            },
            Kind::VirtualSpecifier
            | Kind::Noexcept
            | Kind::ThrowSpecifier
            | Kind::TrailingReturnType
            | Kind::Comment => {},
            _ => {
                return None;
            },
        }
        i += 1;
    }
    assert(nodes@.take(i as int) =~= nodes@);
    Some(words)
}

fn find_internal(tree: &SyntaxTree, name: usize, declaration: usize) -> (r: bool)
    ensures
        r == is_internal(*tree, name, declaration),
{
    let around = tree.ancestors(name);
    let mut i: usize = 0;
    while i < around.len()
        invariant
            i <= around@.len(),
            around@ == tree.ancestors_of(name),
            forall|k: int|
                0 <= k < i ==> !is_anonymous_namespace(*tree, #[trigger] tree.ancestors_of(name)[k]),
        decreases around@.len() - i,
    {
        let n: usize = around[i];
        if tree.kind(n) == Kind::NamespaceDefinition && tree.child_by_field(
            n,
            Field::Name,
        ).is_none() {
            assert(is_anonymous_namespace(*tree, tree.ancestors_of(name)[i as int]));
            return true;
        }
        i += 1;
    }
    let children = tree.named_children(declaration);
    let mut is_static = false;
    i = 0;
    while i < children.len()
        invariant
            i <= children@.len(),
            children@ == tree.named_children_of(declaration),
            is_static == exists|k: int|
                0 <= k < i && is_static_word(
                    *tree,
                    #[trigger] tree.named_children_of(declaration)[k],
                ),
        decreases children@.len() - i,
    {
        let n: usize = children[i];
        if tree.kind(n) == Kind::StorageClassSpecifier && tree.text_is(n, "static") {
            assert(is_static_word(*tree, tree.named_children_of(declaration)[i as int]));
            is_static = true;
        }
        i += 1;
    }
    let records = [Kind::ClassSpecifier, Kind::StructSpecifier];
    assert(records@ =~= seq![Kind::ClassSpecifier, Kind::StructSpecifier]);
    let outer = tree.ancestors(declaration);
    is_static && !tree.has_any(outer.as_slice(), &records)
}

/// Whether the only parameter is written `void`.
fn is_void(written: &[Text]) -> (r: bool)
    ensures
        r == (text_views(written@) == seq!["void".spec_bytes()]),
{
    let r = written.len() == 1 && same_bytes(written[0].as_bytes(), "void".as_bytes());
    proof {
        let all = text_views(written@);
        if r {
            assert(all =~= seq!["void".spec_bytes()]);
        }
        if all == seq!["void".spec_bytes()] {
            assert(all.len() == 1);
            assert(all[0] == "void".spec_bytes());
            assert(all[0] == written@[0]@);
        }
    }
    r
}

/// The callable that a symbol names, with its parameters as they are written.
pub fn extract(tree: &SyntaxTree, symbol: &SymbolDef) -> (r: Option<CppCallableDeclaration>)
    ensures
        optional_view(r) == callable_of(*tree, symbol.id, symbol.name_range),
{
    let name = match tree.descendant_for_byte_range(
        symbol.name_range.start_byte,
        symbol.name_range.end_byte,
    ) {
        None => {
            return None;
        },
        Some(name) => name,
    };
    let template_parameters = match function_parameters(tree, name) {
        None => {
            return None;
        },
        Some(names) => names,
    };
    let want = [Kind::FunctionDeclarator];
    let stop = [Kind::CompoundStatement, Kind::TranslationUnit];
    assert(want@ =~= seq![Kind::FunctionDeclarator]);
    assert(stop@ =~= seq![Kind::CompoundStatement, Kind::TranslationUnit]);
    let around = tree.ancestors(name);
    let function = match tree.find_first(around.as_slice(), &want, &stop) {
        None => {
            return None;
        },
        Some(function) => function,
    };
    let list = match tree.child_by_field(function, Field::Parameters) {
        None => {
            return None;
        },
        Some(list) => list,
    };
    let declarator = match tree.child_by_field(function, Field::Declarator) {
        None => {
            return None;
        },
        Some(declarator) => declarator,
    };
    let ellipsis = [Kind::Ellipsis];
    assert(ellipsis@ =~= seq![Kind::Ellipsis]);
    if tree.data(function).has_error || tree.has_any(tree.children(list), &ellipsis) {
        return None;
    }
    let nodes = tree.named_children(list);
    let p = match read_parameters(tree, nodes.as_slice()) {
        None => {
            return None;
        },
        Some(p) => p,
    };
    let rest = find_apart(tree, function, Some(declarator), Some(list), None);
    let words = match read_callable_qualifiers(tree, rest.as_slice()) {
        None => {
            return None;
        },
        Some(words) => words,
    };
    let kinds = [Kind::FunctionDefinition, Kind::Declaration, Kind::FieldDeclaration];
    let never: [Kind; 0] = [];
    assert(kinds@ =~= callable_kinds());
    assert(never@ =~= Seq::empty());
    let outer = tree.ancestors(function);
    let declaration = match tree.find_first(outer.as_slice(), &kinds, &never) {
        None => {
            return None;
        },
        Some(declaration) => declaration,
    };
    let virtual_word = [Kind::VirtualKeyword];
    assert(virtual_word@ =~= seq![Kind::VirtualKeyword]);
    let Parameters { written, declared, minimum, defaulted: _ } = p;
    let (parameter_types, parameter_declared_types, minimum_arity) = if is_void(
        written.as_slice(),
    ) {
        let no_types: Vec<Text> = Vec::new();
        let no_declared: Vec<Option<CppDeclaredType>> = Vec::new();
        assert(text_views(no_types@) =~= Seq::empty());
        assert(optional_views(no_declared@) =~= Seq::empty());
        (no_types, no_declared, 0)
    } else {
        (written, declared, minimum)
    };
    Some(
        CppCallableDeclaration {
            symbol_id: symbol.id,
            template_parameters,
            parameter_types,
            parameter_declared_types,
            minimum_arity,
            qualifiers: Text::from_vec(
                join(order_texts(words.as_slice()).as_slice(), " ".as_bytes()),
            ),
            is_virtual: tree.has_any(tree.children(declaration), &virtual_word),
            internal_linkage: find_internal(tree, name, declaration),
            return_type: return_type(tree, declaration, function),
        },
    )
}

/// Whether a record has a body and no error outside it.
pub open spec fn is_record_supported(tree: SyntaxTree, n: usize) -> bool {
    tree.child_in_role(n, Field::Body) is Some && forall|i: int|
        0 <= i < tree.children_of(n).len() ==> tree.child_in_role(n, Field::Body) == Some(
            #[trigger] tree.children_of(n)[i],
        ) || !tree.node(tree.children_of(n)[i]).has_error
}

/// Whether a record has a body and no error outside it.
pub fn record_scope_supported(tree: &SyntaxTree, n: usize) -> (r: bool)
    ensures
        r == is_record_supported(*tree, n),
{
    let body = tree.child_by_field(n, Field::Body);
    if body.is_none() {
        return false;
    }
    let children = tree.children(n);
    let mut i: usize = 0;
    while i < children.len()
        invariant
            i <= children@.len(),
            children@ == tree.children_of(n),
            body == tree.child_in_role(n, Field::Body),
            forall|k: int|
                0 <= k < i ==> body == Some(#[trigger] tree.children_of(n)[k]) || !tree.node(
                    tree.children_of(n)[k],
                ).has_error,
        decreases children@.len() - i,
    {
        if body != Some(children[i]) && tree.data(children[i]).has_error {
            assert(body != Some(tree.children_of(n)[i as int]));
            return false;
        }
        i += 1;
    }
    true
}

/// The innermost declarator of a function from a node up to another.
pub open spec fn function_below(tree: SyntaxTree, n: usize, outer: usize) -> Option<usize>
    decreases n,
{
    if n == outer {
        None
    } else if tree.kind_of(n) == Kind::FunctionDeclarator {
        Some(n)
    } else {
        match tree.parent_of(n) {
            None => None,
            Some(above) => if above < n {
                function_below(tree, above, outer)
            } else {
                None
            },
        }
    }
}

/// Whether a callable outside a record is supported: it spells its owner, or nothing
/// of it says that it is a member.
pub open spec fn is_namespace_callable(tree: SyntaxTree, declaration: usize, name: usize) -> bool {
    match function_below(tree, name, declaration) {
        None => false,
        Some(n) => {
            ||| match tree.child_in_role(n, Field::Declarator) {
                None => false,
                Some(own) => tree.kind_of(own) == Kind::QualifiedIdentifier,
            }
            ||| !tree.has_one_of(
                tree.named_children_of(n),
                seq![Kind::TypeQualifier, Kind::RefQualifier, Kind::VirtualSpecifier],
            ) && !tree.has_one_of(tree.children_of(declaration), seq![Kind::VirtualKeyword])
        },
    }
}

fn namespace_callable_scope_supported(
    tree: &SyntaxTree,
    declaration: usize,
    name: usize,
) -> (r: bool)
    ensures
        r == is_namespace_callable(*tree, declaration, name),
{
    let mut n: usize = name;
    let ghost whole = function_below(*tree, name, declaration);
    loop
        invariant
            whole == function_below(*tree, name, declaration),
            whole == function_below(*tree, n, declaration),
        decreases n,
    {
        if n == declaration {
            return false;
        }
        if tree.kind(n) == Kind::FunctionDeclarator {
            if let Some(own) = tree.child_by_field(n, Field::Declarator) {
                if tree.kind(own) == Kind::QualifiedIdentifier {
                    return true;
                }
            }
            let member = [Kind::TypeQualifier, Kind::RefQualifier, Kind::VirtualSpecifier];
            let virtual_word = [Kind::VirtualKeyword];
            assert(member@ =~= seq![
                Kind::TypeQualifier,
                Kind::RefQualifier,
                Kind::VirtualSpecifier,
            ]);
            assert(virtual_word@ =~= seq![Kind::VirtualKeyword]);
            let parts = tree.named_children(n);
            return !tree.has_any(parts.as_slice(), &member) && !tree.has_any(
                tree.children(declaration),
                &virtual_word,
            );
        }
        match tree.parent(n) {
            None => {
                return false;
            },
            Some(above) => {
                n = above;
            },
        }
    }
}

/// The kinds that decide whether callables in them are supported.
pub open spec fn deciding_kinds() -> Seq<Kind> {
    seq![
        Kind::ClassSpecifier,
        Kind::StructSpecifier,
        Kind::NamespaceDefinition,
        Kind::TranslationUnit,
        Kind::FunctionDefinition,
        Kind::LambdaExpression,
        Kind::Error,
        Kind::FriendDeclaration,
    ]
}

/// Whether the scope of a callable is supported. A repaired tree may nest a callable
/// in a function or in an error: the owner that its nesting shows is not used.
pub open spec fn is_scope_supported(tree: SyntaxTree, range: TextRange) -> bool {
    match tree.node_at(range.start_byte, range.end_byte) {
        None => false,
        Some(name) => match tree.first_of(
            tree.ancestors_of(name),
            callable_kinds(),
            Seq::empty(),
        ) {
            None => false,
            Some(declaration) => match tree.first_of(
                tree.ancestors_of(declaration),
                deciding_kinds(),
                Seq::empty(),
            ) {
                None => true,
                Some(n) => match tree.kind_of(n) {
                    Kind::ClassSpecifier | Kind::StructSpecifier => is_record_supported(tree, n),
                    Kind::NamespaceDefinition | Kind::TranslationUnit => is_namespace_callable(
                        tree,
                        declaration,
                        name,
                    ),
                    _ => false,
                },
            },
        },
    }
}

/// Whether the scope of a callable is supported.
pub fn scope_supported(tree: &SyntaxTree, symbol: &SymbolDef) -> (r: bool)
    ensures
        r == is_scope_supported(*tree, symbol.name_range),
{
    let name = match tree.descendant_for_byte_range(
        symbol.name_range.start_byte,
        symbol.name_range.end_byte,
    ) {
        None => {
            return false;
        },
        Some(name) => name,
    };
    let kinds = [Kind::FunctionDefinition, Kind::Declaration, Kind::FieldDeclaration];
    let never: [Kind; 0] = [];
    assert(kinds@ =~= callable_kinds());
    assert(never@ =~= Seq::empty());
    let around = tree.ancestors(name);
    let declaration = match tree.find_first(around.as_slice(), &kinds, &never) {
        None => {
            return false;
        },
        Some(declaration) => declaration,
    };
    let deciding = [
        Kind::ClassSpecifier,
        Kind::StructSpecifier,
        Kind::NamespaceDefinition,
        Kind::TranslationUnit,
        Kind::FunctionDefinition,
        Kind::LambdaExpression,
        Kind::Error,
        Kind::FriendDeclaration,
    ];
    assert(deciding@ =~= deciding_kinds());
    let outer = tree.ancestors(declaration);
    match tree.find_first(outer.as_slice(), &deciding, &never) {
        None => true,
        Some(n) => match tree.kind(n) {
            Kind::ClassSpecifier | Kind::StructSpecifier => record_scope_supported(tree, n),
            Kind::NamespaceDefinition | Kind::TranslationUnit => {
                namespace_callable_scope_supported(tree, declaration, name)
            },
            _ => false,
        },
    }
}

} // verus!
