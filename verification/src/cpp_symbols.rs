//! Symbols of C++ files: what captured nodes define, and how occurrences of one
//! declaration are told apart.

use crate::cpp_callables::is_static_word;
use crate::cpp_declarations::is_callable;
use crate::cpp_facts::optional_view;
use crate::cpp_lambdas::{lambda_name, lambda_of, name as closure_name, node as closure_node};
use crate::cpp_names::{
    alias_named, cpp_alias_name, find_simple_name, is_absolute, plain_qualified,
    plain_qualified_definition, qualified_name, qualified_name_from_node_cpp, simple_name,
};
use crate::cpp_templates::callable_kinds;
use crate::cpp_tokens::{find_last_separator, has_pair_at, last_separator, COLON};
use crate::facts::{Language, ReferenceKind, ScopeKind, SymbolDef, SymbolKind, TextRange};
use crate::ids::{digest_bytes, digest_text, hex_text, FileId, Identity, SymbolId};
use crate::syntax::{Field, Kind, SyntaxTree};
use crate::text::{append_bytes, copy_bytes, decimal, decimal_digits, same_bytes, Text};
use vstd::prelude::*;
use vstd::string::StringSliceAdditionalSpecFns;

verus! {

broadcast use {SyntaxTree::parent_comes_first, SyntaxTree::children_come_later};

/// Whether a capture has a name.
pub open spec fn is_capture(capture: Seq<u8>, name: &str) -> bool {
    capture == name.spec_bytes()
}

/// Whether a capture has a name.
pub fn capture_is(capture: &str, name: &str) -> (r: bool)
    ensures
        r == is_capture(capture.spec_bytes(), name),
{
    same_bytes(capture.as_bytes(), name.as_bytes())
}

/// What a captured node defines.
pub open spec fn definition_kind(capture: Seq<u8>) -> Option<SymbolKind> {
    if is_capture(capture, "definition.type_alias") {
        Some(SymbolKind::TypeAlias)
    } else if is_capture(capture, "definition.function") || is_capture(
        capture,
        "definition.function_declaration",
    ) {
        Some(SymbolKind::Function)
    } else if is_capture(capture, "definition.method") {
        Some(SymbolKind::Method)
    } else if is_capture(capture, "definition.class") {
        Some(SymbolKind::Class)
    } else if is_capture(capture, "definition.namespace") {
        Some(SymbolKind::Namespace)
    } else if is_capture(capture, "definition.enum") {
        Some(SymbolKind::Enum)
    } else if is_capture(capture, "definition.field") {
        Some(SymbolKind::Field)
    } else if is_capture(capture, "definition.macro") {
        Some(SymbolKind::Macro)
    } else if is_capture(capture, "definition.variable") {
        Some(SymbolKind::Variable)
    } else {
        None
    }
}

/// What a captured node defines.
pub fn cpp_definition_kind(capture: &str) -> (r: Option<SymbolKind>)
    ensures
        r == definition_kind(capture.spec_bytes()),
{
    if capture_is(capture, "definition.type_alias") {
        Some(SymbolKind::TypeAlias)
    } else if capture_is(capture, "definition.function") || capture_is(
        capture,
        "definition.function_declaration",
    ) {
        Some(SymbolKind::Function)
    } else if capture_is(capture, "definition.method") {
        Some(SymbolKind::Method)
    } else if capture_is(capture, "definition.class") {
        Some(SymbolKind::Class)
    } else if capture_is(capture, "definition.namespace") {
        Some(SymbolKind::Namespace)
    } else if capture_is(capture, "definition.enum") {
        Some(SymbolKind::Enum)
    } else if capture_is(capture, "definition.field") {
        Some(SymbolKind::Field)
    } else if capture_is(capture, "definition.macro") {
        Some(SymbolKind::Macro)
    } else if capture_is(capture, "definition.variable") {
        Some(SymbolKind::Variable)
    } else {
        None
    }
}

/// How a captured node refers.
pub open spec fn reference_kind(capture: Seq<u8>) -> Option<ReferenceKind> {
    if is_capture(capture, "reference.call") {
        Some(ReferenceKind::Call)
    } else if is_capture(capture, "reference.type") {
        Some(ReferenceKind::TypeReference)
    } else if is_capture(capture, "reference.field") {
        Some(ReferenceKind::FieldAccess)
    } else {
        None
    }
}

/// How a captured node refers.
pub fn cpp_reference_kind(capture: &str) -> (r: Option<ReferenceKind>)
    ensures
        r == reference_kind(capture.spec_bytes()),
{
    if capture_is(capture, "reference.call") {
        Some(ReferenceKind::Call)
    } else if capture_is(capture, "reference.type") {
        Some(ReferenceKind::TypeReference)
    } else if capture_is(capture, "reference.field") {
        Some(ReferenceKind::FieldAccess)
    } else {
        None
    }
}

/// What a captured scope belongs to.
pub open spec fn scope_kind(capture: Seq<u8>) -> Option<ScopeKind> {
    if is_capture(capture, "scope.file") {
        Some(ScopeKind::File)
    } else if is_capture(capture, "scope.function") {
        Some(ScopeKind::Function)
    } else if is_capture(capture, "scope.class") {
        Some(ScopeKind::Class)
    } else if is_capture(capture, "scope.enum") {
        Some(ScopeKind::Enum)
    } else if is_capture(capture, "scope.namespace") {
        Some(ScopeKind::Namespace)
    } else if is_capture(capture, "scope.block") {
        Some(ScopeKind::Block)
    } else if is_capture(capture, "scope.conditional") {
        Some(ScopeKind::Conditional)
    } else if is_capture(capture, "scope.loop") {
        Some(ScopeKind::Loop)
    } else {
        None
    }
}

/// What a captured scope belongs to.
pub fn cpp_scope_kind(capture: &str) -> (r: Option<ScopeKind>)
    ensures
        r == scope_kind(capture.spec_bytes()),
{
    if capture_is(capture, "scope.file") {
        Some(ScopeKind::File)
    } else if capture_is(capture, "scope.function") {
        Some(ScopeKind::Function)
    } else if capture_is(capture, "scope.class") {
        Some(ScopeKind::Class)
    } else if capture_is(capture, "scope.enum") {
        Some(ScopeKind::Enum)
    } else if capture_is(capture, "scope.namespace") {
        Some(ScopeKind::Namespace)
    } else if capture_is(capture, "scope.block") {
        Some(ScopeKind::Block)
    } else if capture_is(capture, "scope.conditional") {
        Some(ScopeKind::Conditional)
    } else if capture_is(capture, "scope.loop") {
        Some(ScopeKind::Loop)
    } else {
        None
    }
}

/// A scope as it is written, by value.
#[verifier::ext_equal]
pub struct WrittenScopeView {
    pub kind: ScopeKind,
    pub text: Seq<u8>,
    pub range: TextRange,
}

/// A scope as it is written.
#[derive(Debug)]
pub struct WrittenScope {
    pub kind: ScopeKind,
    pub text: Text,
    pub range: TextRange,
}

impl View for WrittenScope {
    type V = WrittenScopeView;

    open spec fn view(&self) -> WrittenScopeView {
        WrittenScopeView { kind: self.kind, text: self.text@, range: self.range }
    }
}

/// The scope that a capture opens.
pub open spec fn scope_at(tree: SyntaxTree, capture: Seq<u8>, n: usize) -> Option<
    WrittenScopeView,
> {
    match scope_kind(capture) {
        None => None,
        Some(kind) => Some(
            WrittenScopeView {
                kind,
                text: match tree.text_of(n) {
                    None => Seq::empty(),
                    Some(text) => text,
                },
                range: tree.range_of(n),
            },
        ),
    }
}

/// The scope that a capture opens.
pub fn normalize_cpp_scope(tree: &SyntaxTree, capture: &str, n: usize) -> (r: Option<WrittenScope>)
    ensures
        optional_view(r) == scope_at(*tree, capture.spec_bytes(), n),
{
    match cpp_scope_kind(capture) {
        None => None,
        Some(kind) => {
            let text = match tree.node_text(n) {
                None => Text::from_vec(Vec::new()),
                Some(text) => Text::from_bytes(text),
            };
            Some(WrittenScope { kind, text, range: tree.range(n) })
        },
    }
}

/// What a node defines, by value.
#[verifier::ext_equal]
pub struct DefinitionView {
    pub kind: SymbolKind,
    pub name: Seq<u8>,
    pub qualified_name: Seq<u8>,
    pub range: TextRange,
    pub static_: bool,
}

/// What a node defines.
#[derive(Debug)]
pub struct Definition {
    pub kind: SymbolKind,
    pub name: Text,
    pub qualified_name: Text,
    pub range: TextRange,
    pub static_: bool,
}

impl View for Definition {
    type V = DefinitionView;

    open spec fn view(&self) -> DefinitionView {
        DefinitionView {
            kind: self.kind,
            name: self.name@,
            qualified_name: self.qualified_name@,
            range: self.range,
            static_: self.static_,
        }
    }
}

/// The kinds between a declaration and the class that it is a member of.
pub open spec fn member_owner_kinds() -> Seq<Kind> {
    seq![
        Kind::ClassSpecifier,
        Kind::StructSpecifier,
        Kind::NamespaceDefinition,
        Kind::TranslationUnit,
        Kind::FriendDeclaration,
        Kind::FunctionDefinition,
        Kind::LambdaExpression,
    ]
}

/// Whether a node is a class.
pub open spec fn is_record(tree: SyntaxTree, n: usize) -> bool {
    tree.kind_of(n) == Kind::ClassSpecifier || tree.kind_of(n) == Kind::StructSpecifier
}

/// Whether a name is declared directly in a class.
pub open spec fn is_member_name(tree: SyntaxTree, n: usize) -> bool {
    match tree.first_of(tree.ancestors_of(n), callable_kinds(), Seq::empty()) {
        None => false,
        Some(declaration) => match tree.first_of(
            tree.ancestors_of(declaration),
            member_owner_kinds(),
            Seq::empty(),
        ) {
            None => false,
            Some(owner) => is_record(tree, owner),
        },
    }
}

fn member_name(tree: &SyntaxTree, n: usize) -> (r: bool)
    ensures
        r == is_member_name(*tree, n),
{
    let kinds = [Kind::FunctionDefinition, Kind::Declaration, Kind::FieldDeclaration];
    let owners = [
        Kind::ClassSpecifier,
        Kind::StructSpecifier,
        Kind::NamespaceDefinition,
        Kind::TranslationUnit,
        Kind::FriendDeclaration,
        Kind::FunctionDefinition,
        Kind::LambdaExpression,
    ];
    let never: [Kind; 0] = [];
    assert(kinds@ =~= callable_kinds());
    assert(owners@ =~= member_owner_kinds());
    assert(never@ =~= Seq::empty());
    let around = tree.ancestors(n);
    match tree.find_first(around.as_slice(), &kinds, &never) {
        None => false,
        Some(declaration) => {
            let outer = tree.ancestors(declaration);
            match tree.find_first(outer.as_slice(), &owners, &never) {
                None => false,
                Some(owner) => matches!(
                    tree.kind(owner),
                    Kind::ClassSpecifier | Kind::StructSpecifier
                ),
            }
        },
    }
}

/// The kinds that decide whether an operator is a member.
pub open spec fn operator_owner_kinds() -> Seq<Kind> {
    seq![
        Kind::FriendDeclaration,
        Kind::ClassSpecifier,
        Kind::StructSpecifier,
        Kind::NamespaceDefinition,
        Kind::TranslationUnit,
    ]
}

/// Whether an operator is a member of a class. A friend is not.
pub open spec fn is_member_operator(tree: SyntaxTree, n: usize) -> bool {
    match tree.first_of(tree.ancestors_of(n), operator_owner_kinds(), Seq::empty()) {
        None => false,
        Some(owner) => is_record(tree, owner),
    }
}

fn member_operator(tree: &SyntaxTree, n: usize) -> (r: bool)
    ensures
        r == is_member_operator(*tree, n),
{
    let owners = [
        Kind::FriendDeclaration,
        Kind::ClassSpecifier,
        Kind::StructSpecifier,
        Kind::NamespaceDefinition,
        Kind::TranslationUnit,
    ];
    let never: [Kind; 0] = [];
    assert(owners@ =~= operator_owner_kinds());
    assert(never@ =~= Seq::empty());
    let around = tree.ancestors(n);
    match tree.find_first(around.as_slice(), &owners, &never) {
        None => false,
        Some(owner) => matches!(tree.kind(owner), Kind::ClassSpecifier | Kind::StructSpecifier),
    }
}

/// The kind of a captured definition. A function that is declared directly in a class is
/// a method, and an operator that is not is a function.
pub open spec fn kind_at(tree: SyntaxTree, kind: SymbolKind, n: usize) -> SymbolKind {
    if tree.kind_of(n) == Kind::OperatorName && !is_member_operator(tree, n) {
        SymbolKind::Function
    } else if kind == SymbolKind::Function && tree.kind_of(n) != Kind::QualifiedIdentifier
        && is_member_name(tree, n) {
        SymbolKind::Method
    } else {
        kind
    }
}

/// What a defined name is written as, and the node of its last part.
pub open spec fn written_definition(tree: SyntaxTree, n: usize) -> Option<(Seq<u8>, usize)> {
    if tree.kind_of(n) == Kind::QualifiedIdentifier {
        plain_qualified(tree, n)
    } else {
        match simple_name(tree, n) {
            None => None,
            Some(name) => Some((name, n)),
        }
    }
}

/// Whether the declaration around a name is static.
pub open spec fn is_declared_static(tree: SyntaxTree, n: usize) -> bool {
    match tree.first_of(tree.ancestors_of(n), callable_kinds(), Seq::empty()) {
        None => false,
        Some(declaration) => exists|i: int|
            0 <= i < tree.named_children_of(declaration).len() && is_static_word(
                tree,
                #[trigger] tree.named_children_of(declaration)[i],
            ),
    }
}

/// What a node with a name defines.
pub open spec fn named_definition(tree: SyntaxTree, kind: SymbolKind, n: usize) -> Option<
    DefinitionView,
> {
    match written_definition(tree, n) {
        None => None,
        Some((written, last)) => match simple_name(tree, last) {
            None => None,
            Some(name) => Some(
                DefinitionView {
                    kind,
                    name,
                    qualified_name: if is_absolute(written) {
                        written.skip(2)
                    } else {
                        qualified_name(tree, written, n)
                    },
                    range: tree.range_of(last),
                    static_: (is_callable(kind) || kind == SymbolKind::Field)
                        && is_declared_static(tree, last),
                },
            ),
        },
    }
}

/// What a captured node defines; a closure is captured as a whole.
pub open spec fn definition_at(tree: SyntaxTree, capture: Seq<u8>, n: usize) -> Option<
    DefinitionView,
> {
    if is_capture(capture, "definition.lambda") {
        lambda_definition(tree, n)
    } else {
        plain_definition(tree, capture, n)
    }
}

/// What a captured node that is no closure defines.
pub open spec fn plain_definition(tree: SyntaxTree, capture: Seq<u8>, n: usize) -> Option<
    DefinitionView,
> {
    match definition_kind(capture) {
        None => None,
        Some(SymbolKind::TypeAlias) => match alias_named(tree, n) {
            None => None,
            Some(own) => named_definition(tree, SymbolKind::TypeAlias, own),
        },
        Some(kind) => named_definition(tree, kind_at(tree, kind, n), n),
    }
}

/// The name that the declarator of a function holds.
pub open spec fn declarator_name_of(tree: SyntaxTree, n: usize) -> Option<usize>
    decreases tree.count() - n,
    via declarator_name_decreases
{
    match tree.child_in_role(n, Field::Declarator) {
        None => None,
        Some(inner) => if tree.kind_of(n) == Kind::FunctionDeclarator {
            Some(inner)
        } else {
            declarator_name_of(tree, inner)
        },
    }
}

#[via_fn]
proof fn declarator_name_decreases(tree: SyntaxTree, n: usize) {
    tree.child_in_role_is_child(n, Field::Declarator);
}

/// The qualified name of the function around a closure.
pub open spec fn enclosing_name(tree: SyntaxTree, lambda: usize) -> Option<Seq<u8>> {
    match tree.first_of(
        tree.ancestors_of(lambda),
        seq![Kind::FunctionDefinition],
        Seq::empty(),
    ) {
        None => None,
        Some(function) => match tree.child_in_role(function, Field::Declarator) {
            None => None,
            Some(declarator) => match declarator_name_of(tree, declarator) {
                None => None,
                Some(name) => match plain_definition(
                    tree,
                    "definition.function".spec_bytes(),
                    name,
                ) {
                    None => None,
                    Some(definition) => Some(definition.qualified_name),
                },
            },
        },
    }
}

/// A name in the scope of another.
pub open spec fn beside(other: Seq<u8>, name: Seq<u8>) -> Seq<u8> {
    match last_separator(other, other.len() as int) {
        None => name,
        Some(at) => other.take(at as int) + "::".spec_bytes() + name,
    }
}

/// What a closure defines: a function in the scope of the one around it.
pub open spec fn lambda_definition(tree: SyntaxTree, lambda: usize) -> Option<DefinitionView> {
    match (tree.child_in_role(lambda, Field::Captures), tree.child_in_role(lambda, Field::Body)) {
        (Some(captures), Some(_)) => {
            let name = lambda_name(tree, lambda);
            Some(
                DefinitionView {
                    kind: SymbolKind::Function,
                    name,
                    qualified_name: match enclosing_name(tree, lambda) {
                        None => qualified_name(tree, name, captures),
                        Some(outer) => beside(outer, name),
                    },
                    range: tree.range_of(captures),
                    static_: false,
                },
            )
        },
        _ => None,
    }
}

fn find_written_definition(tree: &SyntaxTree, n: usize) -> (r: Option<(Vec<u8>, usize)>)
    ensures
        match r {
            None => written_definition(*tree, n) is None,
            Some((text, last)) => written_definition(*tree, n) == Some((text@, last)),
        },
{
    if tree.kind(n) == Kind::QualifiedIdentifier {
        plain_qualified_definition(tree, n)
    } else {
        match find_simple_name(tree, n) {
            None => None,
            Some(name) => Some((name, n)),
        }
    }
}

fn declared_static(tree: &SyntaxTree, n: usize) -> (r: bool)
    ensures
        r == is_declared_static(*tree, n),
{
    let kinds = [Kind::FunctionDefinition, Kind::Declaration, Kind::FieldDeclaration];
    let never: [Kind; 0] = [];
    assert(kinds@ =~= callable_kinds());
    assert(never@ =~= Seq::empty());
    let around = tree.ancestors(n);
    match tree.find_first(around.as_slice(), &kinds, &never) {
        None => false,
        Some(declaration) => has_static_word(tree, declaration),
    }
}

fn has_static_word(tree: &SyntaxTree, declaration: usize) -> (r: bool)
    ensures
        r == exists|i: int|
            0 <= i < tree.named_children_of(declaration).len() && is_static_word(
                *tree,
                #[trigger] tree.named_children_of(declaration)[i],
            ),
{
    let children = tree.named_children(declaration);
    let mut i: usize = 0;
    while i < children.len()
        invariant
            i <= children@.len(),
            children@ == tree.named_children_of(declaration),
            forall|k: int|
                0 <= k < i ==> !is_static_word(
                    *tree,
                    #[trigger] tree.named_children_of(declaration)[k],
                ),
        decreases children@.len() - i,
    {
        if tree.kind(children[i]) == Kind::StorageClassSpecifier && tree.text_is(
            children[i],
            "static",
        ) {
            assert(is_static_word(*tree, tree.named_children_of(declaration)[i as int]));
            return true;
        }
        i += 1;
    }
    false
}

fn find_named_definition(tree: &SyntaxTree, kind: SymbolKind, n: usize) -> (r: Option<Definition>)
    ensures
        crate::cpp_facts::optional_view(r) == named_definition(*tree, kind, n),
{
    let (written, last) = match find_written_definition(tree, n) {
        None => {
            return None;
        },
        Some(found) => found,
    };
    let name = match find_simple_name(tree, last) {
        None => {
            return None;
        },
        Some(name) => name,
    };
    let qualified = if has_pair_at(written.as_slice(), 0, COLON, COLON) {
        let rest = &written[2..written.len()];
        assert(rest@ =~= written@.skip(2));
        copy_bytes(rest)
    } else {
        qualified_name_from_node_cpp(tree, written.as_slice(), n)
    };
    Some(
        Definition {
            kind,
            name: Text::from_vec(name),
            qualified_name: Text::from_vec(qualified),
            range: tree.range(last),
            static_: matches!(kind, SymbolKind::Function | SymbolKind::Method | SymbolKind::Field)
                && declared_static(tree, last),
        },
    )
}

fn find_kind_at(tree: &SyntaxTree, kind: SymbolKind, n: usize) -> (r: SymbolKind)
    ensures
        r == kind_at(*tree, kind, n),
{
    if tree.kind(n) == Kind::OperatorName && !member_operator(tree, n) {
        SymbolKind::Function
    } else if kind == SymbolKind::Function && tree.kind(n) != Kind::QualifiedIdentifier
        && member_name(tree, n) {
        SymbolKind::Method
    } else {
        kind
    }
}

fn find_plain_definition(tree: &SyntaxTree, capture: &str, n: usize) -> (r: Option<Definition>)
    ensures
        crate::cpp_facts::optional_view(r) == plain_definition(*tree, capture.spec_bytes(), n),
{
    match cpp_definition_kind(capture) {
        None => None,
        Some(SymbolKind::TypeAlias) => match cpp_alias_name(tree, n) {
            None => None,
            Some(own) => find_named_definition(tree, SymbolKind::TypeAlias, own),
        },
        Some(kind) => find_named_definition(tree, find_kind_at(tree, kind, n), n),
    }
}

fn find_declarator_name(tree: &SyntaxTree, from: usize) -> (r: Option<usize>)
    ensures
        r == declarator_name_of(*tree, from),
{
    let mut n: usize = from;
    loop
        invariant
            declarator_name_of(*tree, from) == declarator_name_of(*tree, n),
        decreases tree.count() - n,
    {
        proof {
            tree.child_in_role_is_child(n, Field::Declarator);
        }
        match tree.child_by_field(n, Field::Declarator) {
            None => {
                return None;
            },
            Some(inner) => {
                if tree.kind(n) == Kind::FunctionDeclarator {
                    return Some(inner);
                }
                n = inner;
            },
        }
    }
}

fn find_enclosing_name(tree: &SyntaxTree, lambda: usize) -> (r: Option<Text>)
    ensures
        crate::text::optional_bytes(r) == enclosing_name(*tree, lambda),
{
    let functions = [Kind::FunctionDefinition];
    let never: [Kind; 0] = [];
    assert(functions@ =~= seq![Kind::FunctionDefinition]);
    assert(never@ =~= Seq::empty());
    let around = tree.ancestors(lambda);
    match tree.find_first(around.as_slice(), &functions, &never) {
        None => None,
        Some(function) => match tree.child_by_field(function, Field::Declarator) {
            None => None,
            Some(declarator) => match find_declarator_name(tree, declarator) {
                None => None,
                Some(name) => match find_plain_definition(tree, "definition.function", name) {
                    None => None,
                    Some(definition) => Some(definition.qualified_name),
                },
            },
        },
    }
}

/// What a closure defines.
pub fn definition(tree: &SyntaxTree, lambda: usize) -> (r: Option<Definition>)
    ensures
        crate::cpp_facts::optional_view(r) == lambda_definition(*tree, lambda),
{
    let captures = match tree.child_by_field(lambda, Field::Captures) {
        None => {
            return None;
        },
        Some(captures) => captures,
    };
    if tree.child_by_field(lambda, Field::Body).is_none() {
        return None;
    }
    let name = closure_name(tree, lambda);
    let qualified = match find_enclosing_name(tree, lambda) {
        None => qualified_name_from_node_cpp(tree, name.as_slice(), captures),
        Some(outer) => match find_last_separator(outer.as_bytes()) {
            None => copy_bytes(name.as_slice()),
            Some(at) => {
                let scope = &outer.as_bytes()[0..at];
                assert(scope@ =~= outer@.take(at as int));
                let mut text = copy_bytes(scope);
                append_bytes(&mut text, "::".as_bytes());
                append_bytes(&mut text, name.as_slice());
                text
            },
        },
    };
    Some(
        Definition {
            kind: SymbolKind::Function,
            name: Text::from_vec(name),
            qualified_name: Text::from_vec(qualified),
            range: tree.range(captures),
            static_: false,
        },
    )
}

/// What a captured node defines.
pub fn normalize_cpp_definition(tree: &SyntaxTree, capture: &str, n: usize) -> (r: Option<
    Definition,
>)
    ensures
        crate::cpp_facts::optional_view(r) == definition_at(*tree, capture.spec_bytes(), n),
{
    if capture_is(capture, "definition.lambda") {
        definition(tree, n)
    } else {
        find_plain_definition(tree, capture, n)
    }
}

/// The identity of a defined symbol. Callables with one name are told apart by what
/// their declarations are written as.
pub open spec fn definition_id(
    file: FileId,
    definition: DefinitionView,
    discriminator: Option<Seq<u8>>,
) -> SymbolId {
    SymbolId::generated(
        file,
        Language::Cpp.name().spec_bytes(),
        definition.qualified_name,
        definition.kind.name().spec_bytes(),
        if is_callable(definition.kind) {
            discriminator
        } else {
            None
        },
    )
}

/// The symbol of a definition in a file.
pub fn define_symbol(
    file_id: FileId,
    definition: Definition,
    discriminator: Option<&[u8]>,
    signature: Option<Text>,
) -> (r: SymbolDef)
    ensures
        r.id == definition_id(
            file_id,
            definition@,
            crate::facts::optional_slice_field(discriminator),
        ),
        r.file_id == file_id,
        r.language == Language::Cpp,
        r.name@ == definition@.name,
        r.qualified_name@ == definition@.qualified_name,
        r.kind == definition@.kind,
        r.name_range == definition@.range,
        r.range == definition@.range,
        r.static_ == definition@.static_,
        r.scope_id is None,
        r.signature == signature,
{
    let tag = if matches!(definition.kind, SymbolKind::Function | SymbolKind::Method) {
        discriminator
    } else {
        None
    };
    let id = SymbolId::generate(
        &file_id,
        Language::Cpp.as_str(),
        definition.qualified_name.as_bytes(),
        definition.kind.as_str(),
        tag,
    );
    SymbolDef {
        id,
        file_id,
        language: Language::Cpp,
        name: definition.name,
        qualified_name: definition.qualified_name,
        kind: definition.kind,
        name_range: definition.range,
        range: definition.range,
        static_: definition.static_,
        scope_id: None,
        signature,
    }
}

/// The kinds that can define a symbol of a kind.
pub open spec fn defining_kinds(kind: SymbolKind) -> Seq<Kind> {
    match kind {
        SymbolKind::Function | SymbolKind::Method | SymbolKind::Constructor => seq![
            Kind::FunctionDefinition,
        ],
        SymbolKind::Class | SymbolKind::Struct => seq![
            Kind::ClassSpecifier,
            Kind::StructSpecifier,
        ],
        SymbolKind::Enum => seq![Kind::EnumSpecifier],
        _ => Seq::empty(),
    }
}

/// The kinds of declarations around a name.
pub open spec fn declaring_kinds() -> Seq<Kind> {
    seq![
        Kind::FunctionDefinition,
        Kind::ClassSpecifier,
        Kind::StructSpecifier,
        Kind::EnumSpecifier,
        Kind::Declaration,
        Kind::FieldDeclaration,
        Kind::ParameterDeclaration,
    ]
}

/// The range that a symbol is defined over: its nearest declaration must have a body
/// itself.
pub open spec fn defined_over(tree: SyntaxTree, kind: SymbolKind, range: TextRange) -> Option<
    TextRange,
> {
    match lambda_of(tree, range) {
        Some(lambda) => Some(tree.range_of(lambda)),
        None => match tree.node_at(range.start_byte, range.end_byte) {
            None => None,
            Some(name) => match tree.first_of(
                tree.lineage_of(name),
                declaring_kinds(),
                Seq::empty(),
            ) {
                Some(declaration) if defining_kinds(kind).contains(tree.kind_of(declaration))
                    && tree.child_in_role(declaration, Field::Body) is Some => Some(
                    tree.range_of(declaration),
                ),
                _ => None,
            },
        },
    }
}

fn is_defining(symbol: SymbolKind, kind: Kind) -> (r: bool)
    ensures
        r == defining_kinds(symbol).contains(kind),
{
    let r = match symbol {
        SymbolKind::Function | SymbolKind::Method | SymbolKind::Constructor => kind
            == Kind::FunctionDefinition,
        SymbolKind::Class | SymbolKind::Struct => matches!(
            kind,
            Kind::ClassSpecifier | Kind::StructSpecifier
        ),
        SymbolKind::Enum => kind == Kind::EnumSpecifier,
        _ => false,
    };
    proof {
        let kinds = defining_kinds(symbol);
        if r {
            assert(kinds.len() > 0);
            assert(kinds[0] == kind || kinds[1] == kind);
        }
    }
    r
}

/// The range that a symbol is defined over.
pub fn definition_range(tree: &SyntaxTree, symbol: &SymbolDef) -> (r: Option<TextRange>)
    ensures
        r == defined_over(*tree, symbol.kind, symbol.name_range),
{
    if let Some(lambda) = closure_node(tree, symbol) {
        return Some(tree.range(lambda));
    }
    let kinds = [
        Kind::FunctionDefinition,
        Kind::ClassSpecifier,
        Kind::StructSpecifier,
        Kind::EnumSpecifier,
        Kind::Declaration,
        Kind::FieldDeclaration,
        Kind::ParameterDeclaration,
    ];
    let never: [Kind; 0] = [];
    assert(kinds@ =~= declaring_kinds());
    assert(never@ =~= Seq::empty());
    match tree.descendant_for_byte_range(symbol.name_range.start_byte, symbol.name_range.end_byte) {
        None => None,
        Some(name) => {
            let around = tree.lineage(name);
            match tree.find_first(around.as_slice(), &kinds, &never) {
                None => None,
                Some(declaration) => if is_defining(symbol.kind, tree.kind(declaration))
                    && tree.child_by_field(declaration, Field::Body).is_some() {
                    Some(tree.range(declaration))
                } else {
                    None
                },
            }
        },
    }
}

/// Where the name of a symbol stands.
pub open spec fn place(symbol: SymbolDef) -> (u32, u32) {
    (symbol.name_range.start_byte, symbol.name_range.end_byte)
}

/// Whether one place comes before another.
pub open spec fn stands_before(a: (u32, u32), b: (u32, u32)) -> bool {
    a.0 < b.0 || (a.0 == b.0 && a.1 < b.1)
}

/// Whether a symbol is an earlier occurrence of a callable.
pub open spec fn is_earlier(symbol: SymbolDef, other: SymbolDef) -> bool {
    is_callable(other.kind) && other.id == symbol.id && stands_before(place(other), place(symbol))
}

/// The places of earlier occurrences of a callable among the first symbols, each once.
pub open spec fn earlier_places(
    symbols: Seq<SymbolDef>,
    symbol: SymbolDef,
    count: nat,
) -> Seq<(u32, u32)>
    decreases count,
{
    if count == 0 || count > symbols.len() {
        Seq::empty()
    } else {
        let before = earlier_places(symbols, symbol, (count - 1) as nat);
        let other = symbols[count - 1];
        if is_earlier(symbol, other) && !before.contains(place(other)) {
            before.push(place(other))
        } else {
            before
        }
    }
}

/// The number of places at which a callable occurs before this one.
pub open spec fn ordinal(symbols: Seq<SymbolDef>, symbol: SymbolDef) -> nat {
    earlier_places(symbols, symbol, symbols.len()).len()
}

/// Whether the number of an occurrence of a callable fits in 32 bits.
pub open spec fn has_number(symbols: Seq<SymbolDef>, symbol: SymbolDef) -> bool {
    is_callable(symbol.kind) ==> ordinal(symbols, symbol) <= u32::MAX
}

/// Whether the numbers of all occurrences of callables fit in 32 bits.
pub open spec fn are_numbered(symbols: Seq<SymbolDef>) -> bool {
    forall|i: int| 0 <= i < symbols.len() ==> has_number(symbols, #[trigger] symbols[i])
}

/// What tells a later occurrence of a callable from the first.
pub open spec fn occurrence_tag(id: SymbolId, number: nat) -> Seq<u8> {
    "occurrence:".spec_bytes() + hex_text(digest_bytes(id.0)) + ":".spec_bytes() + decimal(number)
}

/// A symbol with the identity of its occurrence. The first occurrence of a callable
/// keeps its identity.
pub open spec fn distinguished_id(symbols: Seq<SymbolDef>, symbol: SymbolDef) -> SymbolId {
    if !is_callable(symbol.kind) || ordinal(symbols, symbol) == 0 {
        symbol.id
    } else {
        SymbolId::generated(
            symbol.file_id,
            symbol.language.name().spec_bytes(),
            symbol.qualified_name@,
            symbol.kind.name().spec_bytes(),
            Some(occurrence_tag(symbol.id, ordinal(symbols, symbol))),
        )
    }
}

/// The symbols once later occurrences of callables have identities of their own.
pub open spec fn distinguished(symbols: Seq<SymbolDef>) -> Seq<SymbolDef> {
    symbols.map_values(|s: SymbolDef| SymbolDef { id: distinguished_id(symbols, s), ..s })
}

fn is_before_place(a: &TextRange, b: &TextRange) -> (r: bool)
    ensures
        r == stands_before((a.start_byte, a.end_byte), (b.start_byte, b.end_byte)),
{
    a.start_byte < b.start_byte || (a.start_byte == b.start_byte && a.end_byte < b.end_byte)
}

fn holds_place(places: &[(u32, u32)], start: u32, end: u32) -> (r: bool)
    ensures
        r == places@.contains((start, end)),
{
    let mut i: usize = 0;
    while i < places.len()
        invariant
            i <= places@.len(),
            forall|k: int| 0 <= k < i ==> places@[k] != (start, end),
        decreases places@.len() - i,
    {
        if places[i].0 == start && places[i].1 == end {
            assert(places@[i as int] == (start, end));
            return true;
        }
        i += 1;
    }
    false
}

fn count_earlier(symbols: &[SymbolDef], symbol: &SymbolDef) -> (r: usize)
    ensures
        r == ordinal(symbols@, *symbol),
        r <= symbols@.len(),
{
    let mut places: Vec<(u32, u32)> = Vec::new();
    let mut i: usize = 0;
    while i < symbols.len()
        invariant
            i <= symbols@.len(),
            places@ == earlier_places(symbols@, *symbol, i as nat),
            places@.len() <= i,
        decreases symbols@.len() - i,
    {
        let other = &symbols[i];
        if matches!(other.kind, SymbolKind::Function | SymbolKind::Method) && other.id.same(
            &symbol.id,
        ) && is_before_place(&other.name_range, &symbol.name_range) && !holds_place(
            places.as_slice(),
            other.name_range.start_byte,
            other.name_range.end_byte,
        ) {
            places.push((other.name_range.start_byte, other.name_range.end_byte));
        }
        i += 1;
    }
    places.len()
}

/// Give later occurrences of a callable identities of their own. A written declarator
/// does not tell conditional definitions, template overloads or repeated declarations
/// apart. Occurrences are numbered, in 32 bits, in the order in which they stand.
pub fn distinguish_callable_occurrences(symbols: &mut Vec<SymbolDef>)
    requires
        are_numbered(old(symbols)@),
    ensures
        final(symbols)@ == distinguished(old(symbols)@),
{
    let ghost all = symbols@;
    let mut ids: Vec<SymbolId> = Vec::new();
    let mut i: usize = 0;
    while i < symbols.len()
        invariant
            i <= symbols@.len(),
            are_numbered(all),
            symbols@ == all,
            ids@.len() == i,
            forall|k: int| 0 <= k < i ==> #[trigger] ids@[k] == distinguished_id(all, all[k]),
        decreases symbols@.len() - i,
    {
        let symbol = &symbols[i];
        let mut id = symbol.id;
        if matches!(symbol.kind, SymbolKind::Function | SymbolKind::Method) {
            let number = count_earlier(symbols.as_slice(), symbol);
            assert(has_number(all, all[i as int]));
            if number > 0 {
                let mut tag = copy_bytes("occurrence:".as_bytes());
                append_bytes(&mut tag, digest_text(symbol.id.0).as_slice());
                append_bytes(&mut tag, ":".as_bytes());
                append_bytes(&mut tag, decimal_digits(number as u32).as_slice());
                id = SymbolId::generate(
                    &symbol.file_id,
                    symbol.language.as_str(),
                    symbol.qualified_name.as_bytes(),
                    symbol.kind.as_str(),
                    Some(tag.as_slice()),
                );
            }
        }
        ids.push(id);
        i += 1;
    }
    i = 0;
    while i < symbols.len()
        invariant
            i <= symbols@.len(),
            symbols@.len() == all.len(),
            ids@.len() == all.len(),
            forall|k: int|
                0 <= k < all.len() ==> #[trigger] ids@[k] == distinguished_id(all, all[k]),
            forall|k: int|
                0 <= k < i ==> #[trigger] symbols@[k] == (SymbolDef {
                    id: distinguished_id(all, all[k]),
                    ..all[k]
                }),
            forall|k: int| i <= k < all.len() ==> symbols@[k] == all[k],
        decreases symbols@.len() - i,
    {
        let mut symbol = symbols[i].clone();
        symbol.id = ids[i];
        symbols.set(i, symbol);
        i += 1;
    }
    assert(symbols@ =~= distinguished(all));
}

proof fn lemma_earlier_places(
    symbols: Seq<SymbolDef>,
    symbol: SymbolDef,
    count: nat,
)
    requires
        count <= symbols.len(),
    ensures
        earlier_places(symbols, symbol, count).no_duplicates(),
        forall|k: int|
            0 <= k < count && is_earlier(symbol, #[trigger] symbols[k]) ==> earlier_places(
                symbols,
                symbol,
                count,
            ).contains(place(symbols[k])),
        forall|p: (u32, u32)| #[trigger]
            earlier_places(symbols, symbol, count).contains(p) ==> stands_before(p, place(symbol))
                && exists|k: int|
                0 <= k < count && is_earlier(symbol, #[trigger] symbols[k]) && place(symbols[k])
                    == p,
    decreases count,
{
    if count > 0 {
        let shorter = (count - 1) as nat;
        lemma_earlier_places(symbols, symbol, shorter);
        let before = earlier_places(symbols, symbol, shorter);
        let places = earlier_places(symbols, symbol, count);
        let other = symbols[count - 1];
        assert forall|k: int|
            0 <= k < count && is_earlier(symbol, #[trigger] symbols[k]) implies places.contains(
            place(symbols[k]),
        ) by {
            if places.len() > before.len() {
                assert(places[before.len() as int] == place(other));
                if k < shorter {
                    let at = choose|at: int|
                        0 <= at < before.len() && before[at] == place(symbols[k]);
                    assert(places[at] == place(symbols[k]));
                }
            }
        }
        assert forall|p: (u32, u32)| #[trigger] places.contains(p) implies stands_before(
            p,
            place(symbol),
        ) && exists|k: int|
            0 <= k < count && is_earlier(symbol, #[trigger] symbols[k]) && place(symbols[k])
                == p by {
            let at = choose|at: int| 0 <= at < places.len() && places[at] == p;
            if at < before.len() {
                assert(before[at] == p);
                assert(before.contains(p));
                let k = choose|k: int|
                    0 <= k < shorter && is_earlier(symbol, #[trigger] symbols[k]) && place(
                        symbols[k],
                    ) == p;
                assert(is_earlier(symbol, symbols[k]));
            } else {
                assert(is_earlier(symbol, symbols[count - 1]));
            }
        }
    }
}

/// Occurrences of a callable are numbered in the order in which they stand: one that
/// stands before another has the smaller number.
pub proof fn occurrences_are_numbered_in_order(symbols: Seq<SymbolDef>, i: int, j: int)
    requires
        0 <= i < symbols.len(),
        0 <= j < symbols.len(),
        is_callable(symbols[i].kind),
        is_callable(symbols[j].kind),
        symbols[i].id == symbols[j].id,
        stands_before(place(symbols[i]), place(symbols[j])),
    ensures
        ordinal(symbols, symbols[i]) < ordinal(symbols, symbols[j]),
{
    let a = earlier_places(symbols, symbols[i], symbols.len());
    let b = earlier_places(symbols, symbols[j], symbols.len());
    lemma_earlier_places(symbols, symbols[i], symbols.len());
    lemma_earlier_places(symbols, symbols[j], symbols.len());
    let p = place(symbols[i]);
    let small = a.to_set();
    let large = b.to_set();
    a.unique_seq_to_set();
    b.unique_seq_to_set();
    assert(is_earlier(symbols[j], symbols[i]));
    assert(b.contains(p));
    assert(!a.contains(p));
    assert forall|q: (u32, u32)| small.insert(p).contains(q) implies large.contains(q) by {
        if q != p {
            assert(a.contains(q));
            let k = choose|k: int|
                0 <= k < symbols.len() && is_earlier(symbols[i], #[trigger] symbols[k]) && place(
                    symbols[k],
                ) == q;
            assert(is_earlier(symbols[j], symbols[k]));
            assert(b.contains(q));
        }
    }
    assert(small.insert(p).subset_of(large));
    vstd::set_lib::lemma_len_subset(small.insert(p), large);
}

/// Occurrences of a callable at one place have one number.
pub proof fn one_place_has_one_number(symbols: Seq<SymbolDef>, a: SymbolDef, b: SymbolDef)
    requires
        a.id == b.id,
        place(a) == place(b),
    ensures
        ordinal(symbols, a) == ordinal(symbols, b),
{
    lemma_same_places(symbols, a, b, symbols.len());
}

proof fn lemma_same_places(symbols: Seq<SymbolDef>, a: SymbolDef, b: SymbolDef, count: nat)
    requires
        a.id == b.id,
        place(a) == place(b),
    ensures
        earlier_places(symbols, a, count) == earlier_places(symbols, b, count),
    decreases count,
{
    if count > 0 && count <= symbols.len() {
        lemma_same_places(symbols, a, b, (count - 1) as nat);
    }
}

/// An occurrence of a callable that none stands before keeps its identity.
pub proof fn the_first_occurrence_keeps_its_identity(symbols: Seq<SymbolDef>, i: int)
    requires
        0 <= i < symbols.len(),
        forall|k: int| 0 <= k < symbols.len() ==> !is_earlier(symbols[i], #[trigger] symbols[k]),
    ensures
        distinguished_id(symbols, symbols[i]) == symbols[i].id,
{
    let places = earlier_places(symbols, symbols[i], symbols.len());
    lemma_earlier_places(symbols, symbols[i], symbols.len());
    if places.len() > 0 {
        assert(places.contains(places[0]));
    }
}

/// Whether two lists of symbols hold the same callables in the same order, perhaps at
/// other places.
pub open spec fn same_order(a: Seq<SymbolDef>, b: Seq<SymbolDef>) -> bool {
    a.len() == b.len() && (forall|i: int|
        0 <= i < a.len() ==> (#[trigger] a[i]).id == b[i].id && a[i].kind == b[i].kind) && (
    forall|i: int, j: int|
        0 <= i < a.len() && 0 <= j < a.len() ==> #[trigger] stands_before(place(a[i]), place(a[j]))
            == stands_before(place(b[i]), place(b[j])))
}

proof fn lemma_same_order_counts(a: Seq<SymbolDef>, b: Seq<SymbolDef>, i: int, count: nat)
    requires
        same_order(a, b),
        0 <= i < a.len(),
        count <= a.len(),
    ensures
        earlier_places(a, a[i], count).len() == earlier_places(b, b[i], count).len(),
        forall|k: int|
            0 <= k < a.len() ==> (earlier_places(a, a[i], count).contains(
                place(#[trigger] a[k]),
            ) == earlier_places(b, b[i], count).contains(place(b[k]))),
    decreases count,
{
    if count > 0 {
        let shorter = (count - 1) as nat;
        lemma_same_order_counts(a, b, i, shorter);
        let first = earlier_places(a, a[i], shorter);
        let second = earlier_places(b, b[i], shorter);
        let x = a[count - 1];
        let y = b[count - 1];
        assert(stands_before(place(x), place(a[i])) == stands_before(place(y), place(b[i])));
        assert(is_earlier(a[i], x) == is_earlier(b[i], y));
        assert(first.contains(place(x)) == second.contains(place(y)));
        let more = earlier_places(a, a[i], count);
        let other = earlier_places(b, b[i], count);
        assert forall|k: int| 0 <= k < a.len() implies (more.contains(place(#[trigger] a[k]))
            == other.contains(place(b[k]))) by {
            if more.len() > first.len() {
                assert(stands_before(place(a[k]), place(x)) == stands_before(
                    place(b[k]),
                    place(y),
                ));
                assert(stands_before(place(x), place(a[k])) == stands_before(
                    place(y),
                    place(b[k]),
                ));
                assert((place(a[k]) == place(x)) == (place(b[k]) == place(y)));
                lemma_push_contains(first, place(x), place(a[k]));
                lemma_push_contains(second, place(y), place(b[k]));
            }
        }
    }
}

proof fn lemma_push_contains<T>(items: Seq<T>, item: T, other: T)
    ensures
        items.push(item).contains(other) == (items.contains(other) || item == other),
{
    let longer = items.push(item);
    assert(longer[items.len() as int] == item);
    if items.contains(other) {
        let at = choose|at: int| 0 <= at < items.len() && items[at] == other;
        assert(longer[at] == other);
    }
    if longer.contains(other) {
        let at = choose|at: int| 0 <= at < longer.len() && longer[at] == other;
        if at < items.len() {
            assert(items[at] == other);
        }
    }
}

/// An edit that moves callables and keeps their order keeps their numbers, and with them
/// their identities.
pub proof fn moving_callables_keeps_their_numbers(a: Seq<SymbolDef>, b: Seq<SymbolDef>, i: int)
    requires
        same_order(a, b),
        0 <= i < a.len(),
    ensures
        ordinal(a, a[i]) == ordinal(b, b[i]),
{
    lemma_same_order_counts(a, b, i, a.len());
}

proof fn lemma_places_are_few(symbols: Seq<SymbolDef>, symbol: SymbolDef, count: nat)
    ensures
        earlier_places(symbols, symbol, count).len() <= count,
    decreases count,
{
    if count > 0 && count <= symbols.len() {
        lemma_places_are_few(symbols, symbol, (count - 1) as nat);
    }
}

/// Where there are no more symbols than 32 bits count, the occurrences of each callable
/// can be numbered.
pub proof fn few_symbols_are_numbered(symbols: Seq<SymbolDef>)
    requires
        symbols.len() <= u32::MAX,
    ensures
        are_numbered(symbols),
{
    assert forall|i: int| 0 <= i < symbols.len() implies has_number(
        symbols,
        #[trigger] symbols[i],
    ) by {
        lemma_places_are_few(symbols, symbols[i], symbols.len());
    }
}

/// Whether callables share an identity afterwards only where they are occurrences with one
/// number of what had one identity before: no generated identity is another one's too.
pub open spec fn do_not_collide(symbols: Seq<SymbolDef>) -> bool {
    forall|i: int, j: int|
        0 <= i < symbols.len() && 0 <= j < symbols.len() && is_callable(
            (#[trigger] symbols[i]).kind,
        ) && is_callable((#[trigger] symbols[j]).kind) && distinguished_id(symbols, symbols[i])
            == distinguished_id(symbols, symbols[j]) ==> symbols[i].id == symbols[j].id && ordinal(
            symbols,
            symbols[i],
        ) == ordinal(symbols, symbols[j])
}

/// What is no callable keeps its identity.
pub proof fn other_symbols_keep_their_identities(symbols: Seq<SymbolDef>, i: int)
    requires
        0 <= i < symbols.len(),
        !is_callable(symbols[i].kind),
    ensures
        distinguished(symbols)[i] == symbols[i],
{
}

/// Callables at different places end with different identities.
pub proof fn places_end_with_identities_of_their_own(symbols: Seq<SymbolDef>, i: int, j: int)
    requires
        do_not_collide(symbols),
        0 <= i < symbols.len(),
        0 <= j < symbols.len(),
        is_callable(symbols[i].kind),
        is_callable(symbols[j].kind),
        place(symbols[i]) != place(symbols[j]),
    ensures
        distinguished(symbols)[i].id != distinguished(symbols)[j].id,
{
    if symbols[i].id == symbols[j].id {
        if stands_before(place(symbols[i]), place(symbols[j])) {
            occurrences_are_numbered_in_order(symbols, i, j);
        } else {
            occurrences_are_numbered_in_order(symbols, j, i);
        }
    }
}

/// Callables that had one identity, and are the same otherwise as far as identities are
/// made from it, end with one identity where they stand at one place.
pub proof fn one_place_ends_with_one_identity(symbols: Seq<SymbolDef>, i: int, j: int)
    requires
        0 <= i < symbols.len(),
        0 <= j < symbols.len(),
        symbols[i].id == symbols[j].id,
        place(symbols[i]) == place(symbols[j]),
        symbols[i].file_id == symbols[j].file_id,
        symbols[i].language == symbols[j].language,
        symbols[i].qualified_name@ == symbols[j].qualified_name@,
        symbols[i].kind == symbols[j].kind,
    ensures
        distinguished(symbols)[i].id == distinguished(symbols)[j].id,
{
    one_place_has_one_number(symbols, symbols[i], symbols[j]);
}

/// Telling callables apart again changes nothing.
pub proof fn distinguishing_twice_changes_nothing(symbols: Seq<SymbolDef>)
    requires
        do_not_collide(symbols),
    ensures
        distinguished(distinguished(symbols)) == distinguished(symbols),
{
    let once = distinguished(symbols);
    assert forall|i: int| 0 <= i < once.len() implies distinguished_id(once, #[trigger] once[i])
        == once[i].id by {
        if is_callable(once[i].kind) {
            assert forall|k: int| 0 <= k < once.len() implies !is_earlier(
                once[i],
                #[trigger] once[k],
            ) by {
                if is_earlier(once[i], once[k]) {
                    assert(is_callable(symbols[k].kind));
                    places_end_with_identities_of_their_own(symbols, i, k);
                }
            }
            the_first_occurrence_keeps_its_identity(once, i);
        }
    }
    assert(distinguished(once) =~= once);
}

pub(crate) proof fn lemma_bytes_tell_text(a: &str, b: &str)
    requires
        a.spec_bytes() == b.spec_bytes(),
    ensures
        a@ == b@,
{
    vstd::utf8::encode_utf8_decode_utf8(a@);
    vstd::utf8::encode_utf8_decode_utf8(b@);
}

proof fn lemma_definition_captures_differ()
    ensures
        "definition.type_alias".spec_bytes() != "definition.function".spec_bytes(),
        "definition.type_alias".spec_bytes() != "definition.function_declaration".spec_bytes(),
        "definition.type_alias".spec_bytes() != "definition.method".spec_bytes(),
        "definition.type_alias".spec_bytes() != "definition.class".spec_bytes(),
        "definition.type_alias".spec_bytes() != "definition.namespace".spec_bytes(),
        "definition.type_alias".spec_bytes() != "definition.enum".spec_bytes(),
        "definition.type_alias".spec_bytes() != "definition.field".spec_bytes(),
        "definition.type_alias".spec_bytes() != "definition.macro".spec_bytes(),
        "definition.type_alias".spec_bytes() != "definition.variable".spec_bytes(),
        "definition.type_alias".spec_bytes() != "definition.lambda".spec_bytes(),
        "definition.function".spec_bytes() != "definition.function_declaration".spec_bytes(),
        "definition.function".spec_bytes() != "definition.method".spec_bytes(),
        "definition.function".spec_bytes() != "definition.class".spec_bytes(),
        "definition.function".spec_bytes() != "definition.namespace".spec_bytes(),
        "definition.function".spec_bytes() != "definition.enum".spec_bytes(),
        "definition.function".spec_bytes() != "definition.field".spec_bytes(),
        "definition.function".spec_bytes() != "definition.macro".spec_bytes(),
        "definition.function".spec_bytes() != "definition.variable".spec_bytes(),
        "definition.function".spec_bytes() != "definition.lambda".spec_bytes(),
        "definition.function_declaration".spec_bytes() != "definition.method".spec_bytes(),
        "definition.function_declaration".spec_bytes() != "definition.class".spec_bytes(),
        "definition.function_declaration".spec_bytes() != "definition.namespace".spec_bytes(),
        "definition.function_declaration".spec_bytes() != "definition.enum".spec_bytes(),
        "definition.function_declaration".spec_bytes() != "definition.field".spec_bytes(),
        "definition.function_declaration".spec_bytes() != "definition.macro".spec_bytes(),
        "definition.function_declaration".spec_bytes() != "definition.variable".spec_bytes(),
        "definition.function_declaration".spec_bytes() != "definition.lambda".spec_bytes(),
        "definition.method".spec_bytes() != "definition.class".spec_bytes(),
        "definition.method".spec_bytes() != "definition.namespace".spec_bytes(),
        "definition.method".spec_bytes() != "definition.enum".spec_bytes(),
        "definition.method".spec_bytes() != "definition.field".spec_bytes(),
        "definition.method".spec_bytes() != "definition.macro".spec_bytes(),
        "definition.method".spec_bytes() != "definition.variable".spec_bytes(),
        "definition.method".spec_bytes() != "definition.lambda".spec_bytes(),
        "definition.class".spec_bytes() != "definition.namespace".spec_bytes(),
        "definition.class".spec_bytes() != "definition.enum".spec_bytes(),
        "definition.class".spec_bytes() != "definition.field".spec_bytes(),
        "definition.class".spec_bytes() != "definition.macro".spec_bytes(),
        "definition.class".spec_bytes() != "definition.variable".spec_bytes(),
        "definition.class".spec_bytes() != "definition.lambda".spec_bytes(),
        "definition.namespace".spec_bytes() != "definition.enum".spec_bytes(),
        "definition.namespace".spec_bytes() != "definition.field".spec_bytes(),
        "definition.namespace".spec_bytes() != "definition.macro".spec_bytes(),
        "definition.namespace".spec_bytes() != "definition.variable".spec_bytes(),
        "definition.namespace".spec_bytes() != "definition.lambda".spec_bytes(),
        "definition.enum".spec_bytes() != "definition.field".spec_bytes(),
        "definition.enum".spec_bytes() != "definition.macro".spec_bytes(),
        "definition.enum".spec_bytes() != "definition.variable".spec_bytes(),
        "definition.enum".spec_bytes() != "definition.lambda".spec_bytes(),
        "definition.field".spec_bytes() != "definition.macro".spec_bytes(),
        "definition.field".spec_bytes() != "definition.variable".spec_bytes(),
        "definition.field".spec_bytes() != "definition.lambda".spec_bytes(),
        "definition.macro".spec_bytes() != "definition.variable".spec_bytes(),
        "definition.macro".spec_bytes() != "definition.lambda".spec_bytes(),
        "definition.variable".spec_bytes() != "definition.lambda".spec_bytes(),
{
    reveal_strlit("definition.type_alias");
    reveal_strlit("definition.function");
    reveal_strlit("definition.function_declaration");
    reveal_strlit("definition.method");
    reveal_strlit("definition.class");
    reveal_strlit("definition.namespace");
    reveal_strlit("definition.enum");
    reveal_strlit("definition.field");
    reveal_strlit("definition.macro");
    reveal_strlit("definition.variable");
    reveal_strlit("definition.lambda");
    assert("definition.type_alias".spec_bytes() != "definition.function".spec_bytes()) by {
        assert("definition.type_alias"@.len() != "definition.function"@.len());
        if "definition.type_alias".spec_bytes() == "definition.function".spec_bytes() {
            lemma_bytes_tell_text("definition.type_alias", "definition.function");
        }
    }
    assert("definition.type_alias".spec_bytes() != "definition.function_declaration".spec_bytes()) by {
        assert("definition.type_alias"@.len() != "definition.function_declaration"@.len());
        if "definition.type_alias".spec_bytes() == "definition.function_declaration".spec_bytes() {
            lemma_bytes_tell_text("definition.type_alias", "definition.function_declaration");
        }
    }
    assert("definition.type_alias".spec_bytes() != "definition.method".spec_bytes()) by {
        assert("definition.type_alias"@.len() != "definition.method"@.len());
        if "definition.type_alias".spec_bytes() == "definition.method".spec_bytes() {
            lemma_bytes_tell_text("definition.type_alias", "definition.method");
        }
    }
    assert("definition.type_alias".spec_bytes() != "definition.class".spec_bytes()) by {
        assert("definition.type_alias"@.len() != "definition.class"@.len());
        if "definition.type_alias".spec_bytes() == "definition.class".spec_bytes() {
            lemma_bytes_tell_text("definition.type_alias", "definition.class");
        }
    }
    assert("definition.type_alias".spec_bytes() != "definition.namespace".spec_bytes()) by {
        assert("definition.type_alias"@.len() != "definition.namespace"@.len());
        if "definition.type_alias".spec_bytes() == "definition.namespace".spec_bytes() {
            lemma_bytes_tell_text("definition.type_alias", "definition.namespace");
        }
    }
    assert("definition.type_alias".spec_bytes() != "definition.enum".spec_bytes()) by {
        assert("definition.type_alias"@.len() != "definition.enum"@.len());
        if "definition.type_alias".spec_bytes() == "definition.enum".spec_bytes() {
            lemma_bytes_tell_text("definition.type_alias", "definition.enum");
        }
    }
    assert("definition.type_alias".spec_bytes() != "definition.field".spec_bytes()) by {
        assert("definition.type_alias"@.len() != "definition.field"@.len());
        if "definition.type_alias".spec_bytes() == "definition.field".spec_bytes() {
            lemma_bytes_tell_text("definition.type_alias", "definition.field");
        }
    }
    assert("definition.type_alias".spec_bytes() != "definition.macro".spec_bytes()) by {
        assert("definition.type_alias"@.len() != "definition.macro"@.len());
        if "definition.type_alias".spec_bytes() == "definition.macro".spec_bytes() {
            lemma_bytes_tell_text("definition.type_alias", "definition.macro");
        }
    }
    assert("definition.type_alias".spec_bytes() != "definition.variable".spec_bytes()) by {
        assert("definition.type_alias"@.len() != "definition.variable"@.len());
        if "definition.type_alias".spec_bytes() == "definition.variable".spec_bytes() {
            lemma_bytes_tell_text("definition.type_alias", "definition.variable");
        }
    }
    assert("definition.type_alias".spec_bytes() != "definition.lambda".spec_bytes()) by {
        assert("definition.type_alias"@.len() != "definition.lambda"@.len());
        if "definition.type_alias".spec_bytes() == "definition.lambda".spec_bytes() {
            lemma_bytes_tell_text("definition.type_alias", "definition.lambda");
        }
    }
    assert("definition.function".spec_bytes() != "definition.function_declaration".spec_bytes()) by {
        assert("definition.function"@.len() != "definition.function_declaration"@.len());
        if "definition.function".spec_bytes() == "definition.function_declaration".spec_bytes() {
            lemma_bytes_tell_text("definition.function", "definition.function_declaration");
        }
    }
    assert("definition.function".spec_bytes() != "definition.method".spec_bytes()) by {
        assert("definition.function"@.len() != "definition.method"@.len());
        if "definition.function".spec_bytes() == "definition.method".spec_bytes() {
            lemma_bytes_tell_text("definition.function", "definition.method");
        }
    }
    assert("definition.function".spec_bytes() != "definition.class".spec_bytes()) by {
        assert("definition.function"@.len() != "definition.class"@.len());
        if "definition.function".spec_bytes() == "definition.class".spec_bytes() {
            lemma_bytes_tell_text("definition.function", "definition.class");
        }
    }
    assert("definition.function".spec_bytes() != "definition.namespace".spec_bytes()) by {
        assert("definition.function"@.len() != "definition.namespace"@.len());
        if "definition.function".spec_bytes() == "definition.namespace".spec_bytes() {
            lemma_bytes_tell_text("definition.function", "definition.namespace");
        }
    }
    assert("definition.function".spec_bytes() != "definition.enum".spec_bytes()) by {
        assert("definition.function"@.len() != "definition.enum"@.len());
        if "definition.function".spec_bytes() == "definition.enum".spec_bytes() {
            lemma_bytes_tell_text("definition.function", "definition.enum");
        }
    }
    assert("definition.function".spec_bytes() != "definition.field".spec_bytes()) by {
        assert("definition.function"@.len() != "definition.field"@.len());
        if "definition.function".spec_bytes() == "definition.field".spec_bytes() {
            lemma_bytes_tell_text("definition.function", "definition.field");
        }
    }
    assert("definition.function".spec_bytes() != "definition.macro".spec_bytes()) by {
        assert("definition.function"@.len() != "definition.macro"@.len());
        if "definition.function".spec_bytes() == "definition.macro".spec_bytes() {
            lemma_bytes_tell_text("definition.function", "definition.macro");
        }
    }
    assert("definition.function".spec_bytes() != "definition.variable".spec_bytes()) by {
        assert("definition.function"@[11] != "definition.variable"@[11]);
        if "definition.function".spec_bytes() == "definition.variable".spec_bytes() {
            lemma_bytes_tell_text("definition.function", "definition.variable");
        }
    }
    assert("definition.function".spec_bytes() != "definition.lambda".spec_bytes()) by {
        assert("definition.function"@.len() != "definition.lambda"@.len());
        if "definition.function".spec_bytes() == "definition.lambda".spec_bytes() {
            lemma_bytes_tell_text("definition.function", "definition.lambda");
        }
    }
    assert("definition.function_declaration".spec_bytes() != "definition.method".spec_bytes()) by {
        assert("definition.function_declaration"@.len() != "definition.method"@.len());
        if "definition.function_declaration".spec_bytes() == "definition.method".spec_bytes() {
            lemma_bytes_tell_text("definition.function_declaration", "definition.method");
        }
    }
    assert("definition.function_declaration".spec_bytes() != "definition.class".spec_bytes()) by {
        assert("definition.function_declaration"@.len() != "definition.class"@.len());
        if "definition.function_declaration".spec_bytes() == "definition.class".spec_bytes() {
            lemma_bytes_tell_text("definition.function_declaration", "definition.class");
        }
    }
    assert("definition.function_declaration".spec_bytes() != "definition.namespace".spec_bytes()) by {
        assert("definition.function_declaration"@.len() != "definition.namespace"@.len());
        if "definition.function_declaration".spec_bytes() == "definition.namespace".spec_bytes() {
            lemma_bytes_tell_text("definition.function_declaration", "definition.namespace");
        }
    }
    assert("definition.function_declaration".spec_bytes() != "definition.enum".spec_bytes()) by {
        assert("definition.function_declaration"@.len() != "definition.enum"@.len());
        if "definition.function_declaration".spec_bytes() == "definition.enum".spec_bytes() {
            lemma_bytes_tell_text("definition.function_declaration", "definition.enum");
        }
    }
    assert("definition.function_declaration".spec_bytes() != "definition.field".spec_bytes()) by {
        assert("definition.function_declaration"@.len() != "definition.field"@.len());
        if "definition.function_declaration".spec_bytes() == "definition.field".spec_bytes() {
            lemma_bytes_tell_text("definition.function_declaration", "definition.field");
        }
    }
    assert("definition.function_declaration".spec_bytes() != "definition.macro".spec_bytes()) by {
        assert("definition.function_declaration"@.len() != "definition.macro"@.len());
        if "definition.function_declaration".spec_bytes() == "definition.macro".spec_bytes() {
            lemma_bytes_tell_text("definition.function_declaration", "definition.macro");
        }
    }
    assert("definition.function_declaration".spec_bytes() != "definition.variable".spec_bytes()) by {
        assert("definition.function_declaration"@.len() != "definition.variable"@.len());
        if "definition.function_declaration".spec_bytes() == "definition.variable".spec_bytes() {
            lemma_bytes_tell_text("definition.function_declaration", "definition.variable");
        }
    }
    assert("definition.function_declaration".spec_bytes() != "definition.lambda".spec_bytes()) by {
        assert("definition.function_declaration"@.len() != "definition.lambda"@.len());
        if "definition.function_declaration".spec_bytes() == "definition.lambda".spec_bytes() {
            lemma_bytes_tell_text("definition.function_declaration", "definition.lambda");
        }
    }
    assert("definition.method".spec_bytes() != "definition.class".spec_bytes()) by {
        assert("definition.method"@.len() != "definition.class"@.len());
        if "definition.method".spec_bytes() == "definition.class".spec_bytes() {
            lemma_bytes_tell_text("definition.method", "definition.class");
        }
    }
    assert("definition.method".spec_bytes() != "definition.namespace".spec_bytes()) by {
        assert("definition.method"@.len() != "definition.namespace"@.len());
        if "definition.method".spec_bytes() == "definition.namespace".spec_bytes() {
            lemma_bytes_tell_text("definition.method", "definition.namespace");
        }
    }
    assert("definition.method".spec_bytes() != "definition.enum".spec_bytes()) by {
        assert("definition.method"@.len() != "definition.enum"@.len());
        if "definition.method".spec_bytes() == "definition.enum".spec_bytes() {
            lemma_bytes_tell_text("definition.method", "definition.enum");
        }
    }
    assert("definition.method".spec_bytes() != "definition.field".spec_bytes()) by {
        assert("definition.method"@.len() != "definition.field"@.len());
        if "definition.method".spec_bytes() == "definition.field".spec_bytes() {
            lemma_bytes_tell_text("definition.method", "definition.field");
        }
    }
    assert("definition.method".spec_bytes() != "definition.macro".spec_bytes()) by {
        assert("definition.method"@.len() != "definition.macro"@.len());
        if "definition.method".spec_bytes() == "definition.macro".spec_bytes() {
            lemma_bytes_tell_text("definition.method", "definition.macro");
        }
    }
    assert("definition.method".spec_bytes() != "definition.variable".spec_bytes()) by {
        assert("definition.method"@.len() != "definition.variable"@.len());
        if "definition.method".spec_bytes() == "definition.variable".spec_bytes() {
            lemma_bytes_tell_text("definition.method", "definition.variable");
        }
    }
    assert("definition.method".spec_bytes() != "definition.lambda".spec_bytes()) by {
        assert("definition.method"@[11] != "definition.lambda"@[11]);
        if "definition.method".spec_bytes() == "definition.lambda".spec_bytes() {
            lemma_bytes_tell_text("definition.method", "definition.lambda");
        }
    }
    assert("definition.class".spec_bytes() != "definition.namespace".spec_bytes()) by {
        assert("definition.class"@.len() != "definition.namespace"@.len());
        if "definition.class".spec_bytes() == "definition.namespace".spec_bytes() {
            lemma_bytes_tell_text("definition.class", "definition.namespace");
        }
    }
    assert("definition.class".spec_bytes() != "definition.enum".spec_bytes()) by {
        assert("definition.class"@.len() != "definition.enum"@.len());
        if "definition.class".spec_bytes() == "definition.enum".spec_bytes() {
            lemma_bytes_tell_text("definition.class", "definition.enum");
        }
    }
    assert("definition.class".spec_bytes() != "definition.field".spec_bytes()) by {
        assert("definition.class"@[11] != "definition.field"@[11]);
        if "definition.class".spec_bytes() == "definition.field".spec_bytes() {
            lemma_bytes_tell_text("definition.class", "definition.field");
        }
    }
    assert("definition.class".spec_bytes() != "definition.macro".spec_bytes()) by {
        assert("definition.class"@[11] != "definition.macro"@[11]);
        if "definition.class".spec_bytes() == "definition.macro".spec_bytes() {
            lemma_bytes_tell_text("definition.class", "definition.macro");
        }
    }
    assert("definition.class".spec_bytes() != "definition.variable".spec_bytes()) by {
        assert("definition.class"@.len() != "definition.variable"@.len());
        if "definition.class".spec_bytes() == "definition.variable".spec_bytes() {
            lemma_bytes_tell_text("definition.class", "definition.variable");
        }
    }
    assert("definition.class".spec_bytes() != "definition.lambda".spec_bytes()) by {
        assert("definition.class"@.len() != "definition.lambda"@.len());
        if "definition.class".spec_bytes() == "definition.lambda".spec_bytes() {
            lemma_bytes_tell_text("definition.class", "definition.lambda");
        }
    }
    assert("definition.namespace".spec_bytes() != "definition.enum".spec_bytes()) by {
        assert("definition.namespace"@.len() != "definition.enum"@.len());
        if "definition.namespace".spec_bytes() == "definition.enum".spec_bytes() {
            lemma_bytes_tell_text("definition.namespace", "definition.enum");
        }
    }
    assert("definition.namespace".spec_bytes() != "definition.field".spec_bytes()) by {
        assert("definition.namespace"@.len() != "definition.field"@.len());
        if "definition.namespace".spec_bytes() == "definition.field".spec_bytes() {
            lemma_bytes_tell_text("definition.namespace", "definition.field");
        }
    }
    assert("definition.namespace".spec_bytes() != "definition.macro".spec_bytes()) by {
        assert("definition.namespace"@.len() != "definition.macro"@.len());
        if "definition.namespace".spec_bytes() == "definition.macro".spec_bytes() {
            lemma_bytes_tell_text("definition.namespace", "definition.macro");
        }
    }
    assert("definition.namespace".spec_bytes() != "definition.variable".spec_bytes()) by {
        assert("definition.namespace"@.len() != "definition.variable"@.len());
        if "definition.namespace".spec_bytes() == "definition.variable".spec_bytes() {
            lemma_bytes_tell_text("definition.namespace", "definition.variable");
        }
    }
    assert("definition.namespace".spec_bytes() != "definition.lambda".spec_bytes()) by {
        assert("definition.namespace"@.len() != "definition.lambda"@.len());
        if "definition.namespace".spec_bytes() == "definition.lambda".spec_bytes() {
            lemma_bytes_tell_text("definition.namespace", "definition.lambda");
        }
    }
    assert("definition.enum".spec_bytes() != "definition.field".spec_bytes()) by {
        assert("definition.enum"@.len() != "definition.field"@.len());
        if "definition.enum".spec_bytes() == "definition.field".spec_bytes() {
            lemma_bytes_tell_text("definition.enum", "definition.field");
        }
    }
    assert("definition.enum".spec_bytes() != "definition.macro".spec_bytes()) by {
        assert("definition.enum"@.len() != "definition.macro"@.len());
        if "definition.enum".spec_bytes() == "definition.macro".spec_bytes() {
            lemma_bytes_tell_text("definition.enum", "definition.macro");
        }
    }
    assert("definition.enum".spec_bytes() != "definition.variable".spec_bytes()) by {
        assert("definition.enum"@.len() != "definition.variable"@.len());
        if "definition.enum".spec_bytes() == "definition.variable".spec_bytes() {
            lemma_bytes_tell_text("definition.enum", "definition.variable");
        }
    }
    assert("definition.enum".spec_bytes() != "definition.lambda".spec_bytes()) by {
        assert("definition.enum"@.len() != "definition.lambda"@.len());
        if "definition.enum".spec_bytes() == "definition.lambda".spec_bytes() {
            lemma_bytes_tell_text("definition.enum", "definition.lambda");
        }
    }
    assert("definition.field".spec_bytes() != "definition.macro".spec_bytes()) by {
        assert("definition.field"@[11] != "definition.macro"@[11]);
        if "definition.field".spec_bytes() == "definition.macro".spec_bytes() {
            lemma_bytes_tell_text("definition.field", "definition.macro");
        }
    }
    assert("definition.field".spec_bytes() != "definition.variable".spec_bytes()) by {
        assert("definition.field"@.len() != "definition.variable"@.len());
        if "definition.field".spec_bytes() == "definition.variable".spec_bytes() {
            lemma_bytes_tell_text("definition.field", "definition.variable");
        }
    }
    assert("definition.field".spec_bytes() != "definition.lambda".spec_bytes()) by {
        assert("definition.field"@.len() != "definition.lambda"@.len());
        if "definition.field".spec_bytes() == "definition.lambda".spec_bytes() {
            lemma_bytes_tell_text("definition.field", "definition.lambda");
        }
    }
    assert("definition.macro".spec_bytes() != "definition.variable".spec_bytes()) by {
        assert("definition.macro"@.len() != "definition.variable"@.len());
        if "definition.macro".spec_bytes() == "definition.variable".spec_bytes() {
            lemma_bytes_tell_text("definition.macro", "definition.variable");
        }
    }
    assert("definition.macro".spec_bytes() != "definition.lambda".spec_bytes()) by {
        assert("definition.macro"@.len() != "definition.lambda"@.len());
        if "definition.macro".spec_bytes() == "definition.lambda".spec_bytes() {
            lemma_bytes_tell_text("definition.macro", "definition.lambda");
        }
    }
    assert("definition.variable".spec_bytes() != "definition.lambda".spec_bytes()) by {
        assert("definition.variable"@.len() != "definition.lambda"@.len());
        if "definition.variable".spec_bytes() == "definition.lambda".spec_bytes() {
            lemma_bytes_tell_text("definition.variable", "definition.lambda");
        }
    }
}

proof fn lemma_scope_captures_differ()
    ensures
        "scope.file".spec_bytes() != "scope.function".spec_bytes(),
        "scope.file".spec_bytes() != "scope.class".spec_bytes(),
        "scope.file".spec_bytes() != "scope.enum".spec_bytes(),
        "scope.file".spec_bytes() != "scope.namespace".spec_bytes(),
        "scope.file".spec_bytes() != "scope.block".spec_bytes(),
        "scope.file".spec_bytes() != "scope.conditional".spec_bytes(),
        "scope.file".spec_bytes() != "scope.loop".spec_bytes(),
        "scope.function".spec_bytes() != "scope.class".spec_bytes(),
        "scope.function".spec_bytes() != "scope.enum".spec_bytes(),
        "scope.function".spec_bytes() != "scope.namespace".spec_bytes(),
        "scope.function".spec_bytes() != "scope.block".spec_bytes(),
        "scope.function".spec_bytes() != "scope.conditional".spec_bytes(),
        "scope.function".spec_bytes() != "scope.loop".spec_bytes(),
        "scope.class".spec_bytes() != "scope.enum".spec_bytes(),
        "scope.class".spec_bytes() != "scope.namespace".spec_bytes(),
        "scope.class".spec_bytes() != "scope.block".spec_bytes(),
        "scope.class".spec_bytes() != "scope.conditional".spec_bytes(),
        "scope.class".spec_bytes() != "scope.loop".spec_bytes(),
        "scope.enum".spec_bytes() != "scope.namespace".spec_bytes(),
        "scope.enum".spec_bytes() != "scope.block".spec_bytes(),
        "scope.enum".spec_bytes() != "scope.conditional".spec_bytes(),
        "scope.enum".spec_bytes() != "scope.loop".spec_bytes(),
        "scope.namespace".spec_bytes() != "scope.block".spec_bytes(),
        "scope.namespace".spec_bytes() != "scope.conditional".spec_bytes(),
        "scope.namespace".spec_bytes() != "scope.loop".spec_bytes(),
        "scope.block".spec_bytes() != "scope.conditional".spec_bytes(),
        "scope.block".spec_bytes() != "scope.loop".spec_bytes(),
        "scope.conditional".spec_bytes() != "scope.loop".spec_bytes(),
{
    reveal_strlit("scope.file");
    reveal_strlit("scope.function");
    reveal_strlit("scope.class");
    reveal_strlit("scope.enum");
    reveal_strlit("scope.namespace");
    reveal_strlit("scope.block");
    reveal_strlit("scope.conditional");
    reveal_strlit("scope.loop");
    assert("scope.file".spec_bytes() != "scope.function".spec_bytes()) by {
        assert("scope.file"@.len() != "scope.function"@.len());
        if "scope.file".spec_bytes() == "scope.function".spec_bytes() {
            lemma_bytes_tell_text("scope.file", "scope.function");
        }
    }
    assert("scope.file".spec_bytes() != "scope.class".spec_bytes()) by {
        assert("scope.file"@.len() != "scope.class"@.len());
        if "scope.file".spec_bytes() == "scope.class".spec_bytes() {
            lemma_bytes_tell_text("scope.file", "scope.class");
        }
    }
    assert("scope.file".spec_bytes() != "scope.enum".spec_bytes()) by {
        assert("scope.file"@[6] != "scope.enum"@[6]);
        if "scope.file".spec_bytes() == "scope.enum".spec_bytes() {
            lemma_bytes_tell_text("scope.file", "scope.enum");
        }
    }
    assert("scope.file".spec_bytes() != "scope.namespace".spec_bytes()) by {
        assert("scope.file"@.len() != "scope.namespace"@.len());
        if "scope.file".spec_bytes() == "scope.namespace".spec_bytes() {
            lemma_bytes_tell_text("scope.file", "scope.namespace");
        }
    }
    assert("scope.file".spec_bytes() != "scope.block".spec_bytes()) by {
        assert("scope.file"@.len() != "scope.block"@.len());
        if "scope.file".spec_bytes() == "scope.block".spec_bytes() {
            lemma_bytes_tell_text("scope.file", "scope.block");
        }
    }
    assert("scope.file".spec_bytes() != "scope.conditional".spec_bytes()) by {
        assert("scope.file"@.len() != "scope.conditional"@.len());
        if "scope.file".spec_bytes() == "scope.conditional".spec_bytes() {
            lemma_bytes_tell_text("scope.file", "scope.conditional");
        }
    }
    assert("scope.file".spec_bytes() != "scope.loop".spec_bytes()) by {
        assert("scope.file"@[6] != "scope.loop"@[6]);
        if "scope.file".spec_bytes() == "scope.loop".spec_bytes() {
            lemma_bytes_tell_text("scope.file", "scope.loop");
        }
    }
    assert("scope.function".spec_bytes() != "scope.class".spec_bytes()) by {
        assert("scope.function"@.len() != "scope.class"@.len());
        if "scope.function".spec_bytes() == "scope.class".spec_bytes() {
            lemma_bytes_tell_text("scope.function", "scope.class");
        }
    }
    assert("scope.function".spec_bytes() != "scope.enum".spec_bytes()) by {
        assert("scope.function"@.len() != "scope.enum"@.len());
        if "scope.function".spec_bytes() == "scope.enum".spec_bytes() {
            lemma_bytes_tell_text("scope.function", "scope.enum");
        }
    }
    assert("scope.function".spec_bytes() != "scope.namespace".spec_bytes()) by {
        assert("scope.function"@.len() != "scope.namespace"@.len());
        if "scope.function".spec_bytes() == "scope.namespace".spec_bytes() {
            lemma_bytes_tell_text("scope.function", "scope.namespace");
        }
    }
    assert("scope.function".spec_bytes() != "scope.block".spec_bytes()) by {
        assert("scope.function"@.len() != "scope.block"@.len());
        if "scope.function".spec_bytes() == "scope.block".spec_bytes() {
            lemma_bytes_tell_text("scope.function", "scope.block");
        }
    }
    assert("scope.function".spec_bytes() != "scope.conditional".spec_bytes()) by {
        assert("scope.function"@.len() != "scope.conditional"@.len());
        if "scope.function".spec_bytes() == "scope.conditional".spec_bytes() {
            lemma_bytes_tell_text("scope.function", "scope.conditional");
        }
    }
    assert("scope.function".spec_bytes() != "scope.loop".spec_bytes()) by {
        assert("scope.function"@.len() != "scope.loop"@.len());
        if "scope.function".spec_bytes() == "scope.loop".spec_bytes() {
            lemma_bytes_tell_text("scope.function", "scope.loop");
        }
    }
    assert("scope.class".spec_bytes() != "scope.enum".spec_bytes()) by {
        assert("scope.class"@.len() != "scope.enum"@.len());
        if "scope.class".spec_bytes() == "scope.enum".spec_bytes() {
            lemma_bytes_tell_text("scope.class", "scope.enum");
        }
    }
    assert("scope.class".spec_bytes() != "scope.namespace".spec_bytes()) by {
        assert("scope.class"@.len() != "scope.namespace"@.len());
        if "scope.class".spec_bytes() == "scope.namespace".spec_bytes() {
            lemma_bytes_tell_text("scope.class", "scope.namespace");
        }
    }
    assert("scope.class".spec_bytes() != "scope.block".spec_bytes()) by {
        assert("scope.class"@[6] != "scope.block"@[6]);
        if "scope.class".spec_bytes() == "scope.block".spec_bytes() {
            lemma_bytes_tell_text("scope.class", "scope.block");
        }
    }
    assert("scope.class".spec_bytes() != "scope.conditional".spec_bytes()) by {
        assert("scope.class"@.len() != "scope.conditional"@.len());
        if "scope.class".spec_bytes() == "scope.conditional".spec_bytes() {
            lemma_bytes_tell_text("scope.class", "scope.conditional");
        }
    }
    assert("scope.class".spec_bytes() != "scope.loop".spec_bytes()) by {
        assert("scope.class"@.len() != "scope.loop"@.len());
        if "scope.class".spec_bytes() == "scope.loop".spec_bytes() {
            lemma_bytes_tell_text("scope.class", "scope.loop");
        }
    }
    assert("scope.enum".spec_bytes() != "scope.namespace".spec_bytes()) by {
        assert("scope.enum"@.len() != "scope.namespace"@.len());
        if "scope.enum".spec_bytes() == "scope.namespace".spec_bytes() {
            lemma_bytes_tell_text("scope.enum", "scope.namespace");
        }
    }
    assert("scope.enum".spec_bytes() != "scope.block".spec_bytes()) by {
        assert("scope.enum"@.len() != "scope.block"@.len());
        if "scope.enum".spec_bytes() == "scope.block".spec_bytes() {
            lemma_bytes_tell_text("scope.enum", "scope.block");
        }
    }
    assert("scope.enum".spec_bytes() != "scope.conditional".spec_bytes()) by {
        assert("scope.enum"@.len() != "scope.conditional"@.len());
        if "scope.enum".spec_bytes() == "scope.conditional".spec_bytes() {
            lemma_bytes_tell_text("scope.enum", "scope.conditional");
        }
    }
    assert("scope.enum".spec_bytes() != "scope.loop".spec_bytes()) by {
        assert("scope.enum"@[6] != "scope.loop"@[6]);
        if "scope.enum".spec_bytes() == "scope.loop".spec_bytes() {
            lemma_bytes_tell_text("scope.enum", "scope.loop");
        }
    }
    assert("scope.namespace".spec_bytes() != "scope.block".spec_bytes()) by {
        assert("scope.namespace"@.len() != "scope.block"@.len());
        if "scope.namespace".spec_bytes() == "scope.block".spec_bytes() {
            lemma_bytes_tell_text("scope.namespace", "scope.block");
        }
    }
    assert("scope.namespace".spec_bytes() != "scope.conditional".spec_bytes()) by {
        assert("scope.namespace"@.len() != "scope.conditional"@.len());
        if "scope.namespace".spec_bytes() == "scope.conditional".spec_bytes() {
            lemma_bytes_tell_text("scope.namespace", "scope.conditional");
        }
    }
    assert("scope.namespace".spec_bytes() != "scope.loop".spec_bytes()) by {
        assert("scope.namespace"@.len() != "scope.loop"@.len());
        if "scope.namespace".spec_bytes() == "scope.loop".spec_bytes() {
            lemma_bytes_tell_text("scope.namespace", "scope.loop");
        }
    }
    assert("scope.block".spec_bytes() != "scope.conditional".spec_bytes()) by {
        assert("scope.block"@.len() != "scope.conditional"@.len());
        if "scope.block".spec_bytes() == "scope.conditional".spec_bytes() {
            lemma_bytes_tell_text("scope.block", "scope.conditional");
        }
    }
    assert("scope.block".spec_bytes() != "scope.loop".spec_bytes()) by {
        assert("scope.block"@.len() != "scope.loop"@.len());
        if "scope.block".spec_bytes() == "scope.loop".spec_bytes() {
            lemma_bytes_tell_text("scope.block", "scope.loop");
        }
    }
    assert("scope.conditional".spec_bytes() != "scope.loop".spec_bytes()) by {
        assert("scope.conditional"@.len() != "scope.loop"@.len());
        if "scope.conditional".spec_bytes() == "scope.loop".spec_bytes() {
            lemma_bytes_tell_text("scope.conditional", "scope.loop");
        }
    }
}

/// What the captures of names define.
pub open spec fn defines_as(capture: &str, kind: SymbolKind) -> bool {
    ||| capture@ == "definition.function"@ && kind == SymbolKind::Function
    ||| capture@ == "definition.function_declaration"@ && kind == SymbolKind::Function
    ||| capture@ == "definition.method"@ && kind == SymbolKind::Method
    ||| capture@ == "definition.class"@ && kind == SymbolKind::Class
    ||| capture@ == "definition.namespace"@ && kind == SymbolKind::Namespace
    ||| capture@ == "definition.enum"@ && kind == SymbolKind::Enum
    ||| capture@ == "definition.field"@ && kind == SymbolKind::Field
    ||| capture@ == "definition.macro"@ && kind == SymbolKind::Macro
    ||| capture@ == "definition.variable"@ && kind == SymbolKind::Variable
}

/// A captured name is defined as what it is: a node that is a plain name and whose text can be
/// read defines a symbol of the captured kind with that name, at the range of the node. Of a
/// function the place tells whether it is a method.
pub proof fn a_captured_name_is_defined(
    tree: SyntaxTree,
    capture: &str,
    kind: SymbolKind,
    n: usize,
    name: Seq<u8>,
)
    requires
        defines_as(capture, kind),
        tree.kind_of(n) != Kind::OperatorName,
        tree.kind_of(n) != Kind::DestructorName,
        tree.kind_of(n) != Kind::QualifiedIdentifier,
        tree.text_of(n) == Some(name),
    ensures
        ({
            let found = definition_at(tree, capture.spec_bytes(), n);
            &&& found is Some
            &&& found->0.name == name
            &&& found->0.range == tree.range_of(n)
            &&& found->0.kind == kind || (kind == SymbolKind::Function && found->0.kind
                == SymbolKind::Method && is_member_name(tree, n))
            &&& kind == SymbolKind::Function && is_member_name(tree, n) ==> found->0.kind
                == SymbolKind::Method
        }),
{
    lemma_definition_captures_differ();
    assert(definition_kind(capture.spec_bytes()) == Some(kind));
}

/// The kinds of scopes that captures open.
pub open spec fn opens_as(capture: &str, kind: ScopeKind) -> bool {
    ||| capture@ == "scope.file"@ && kind == ScopeKind::File
    ||| capture@ == "scope.function"@ && kind == ScopeKind::Function
    ||| capture@ == "scope.class"@ && kind == ScopeKind::Class
    ||| capture@ == "scope.enum"@ && kind == ScopeKind::Enum
    ||| capture@ == "scope.namespace"@ && kind == ScopeKind::Namespace
    ||| capture@ == "scope.block"@ && kind == ScopeKind::Block
    ||| capture@ == "scope.conditional"@ && kind == ScopeKind::Conditional
    ||| capture@ == "scope.loop"@ && kind == ScopeKind::Loop
}

/// A captured scope is opened as what it is, with the text and the range of the node.
pub proof fn a_captured_scope_is_opened(
    tree: SyntaxTree,
    capture: &str,
    kind: ScopeKind,
    n: usize,
)
    requires
        opens_as(capture, kind),
    ensures
        ({
            let found = scope_at(tree, capture.spec_bytes(), n);
            &&& found is Some
            &&& found->0.kind == kind
            &&& tree.text_of(n) is Some ==> found->0.text == tree.text_of(n)->0
            &&& found->0.range == tree.range_of(n)
        }),
{
    lemma_scope_captures_differ();
    assert(scope_kind(capture.spec_bytes()) == Some(kind));
}

} // verus!
