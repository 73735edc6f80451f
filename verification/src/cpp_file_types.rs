//! Everything that is recorded of the C++ declarations of a file: a walk over its tree,
//! and what its symbols, bindings and references add.

use crate::collections::{in_order, key_views, ordered_rows, stable_order};
use crate::cpp_annotation_sites::{candidates_of, collect_node, macros_of};
use crate::cpp_callables::{
    callable_of, extract as extract_callable, is_record_supported, is_scope_supported,
    record_scope_supported, scope_supported,
};
use crate::cpp_declarations::{
    aliased, alias_target, ancestor, argument_at, argument_expression, at, auto_call,
    auto_initializer, base_classes, bases_of, captures_this, enclosing_of, find_last_name,
    find_word, forward_declaration, has_ancestor, has_word, is_callable, is_forward_declaration,
    is_within, keeps_this, lambda_capture, lambda_captures, last_name, may_hide_member, node_over,
    single_using_name, template_record, template_record_name, unmodeled_record_error, used_name,
    value_type, value_type_of, verified_block, verified_block_range, MAX_ARGUMENT_DEPTH,
};
use crate::cpp_expressions::{evaluated_from, may_be_evaluated};
use crate::cpp_facts::{
    lemma_push_text, lemma_push_view, optional_view, text_views, views, AnnotationTokenView,
    ArgumentExpressionView, CallArgumentsView, CallableDeclarationView, CppAllocationSite,
    CppArgumentExpression, CppCallArguments, CppCallableDeclaration, CppFileTypes,
    CppLookupLimit, CppMemberMacro, CppRecordType, CppTemplateCall, CppTypeAlias, CppValueType,
    LambdaCaptureView, LookupLimitView, MacroDefinitionView, MemberMacroView, RecordTypeView,
    TemplateCallView, TypeAliasView, ValueTypeView,
};
use crate::cpp_lambdas::{
    annotate, annotated, caller_initializers, initializers_of, is_lambda_supported, lambda_of,
    lambda_scope_supported, node,
};
use crate::cpp_member_macros::{candidate, candidate_of, drop_space, sort_names, sorted_names, without_space};
use crate::cpp_names::{
    drop_leading, find_scope, is_absolute, qualified_name, qualified_name_from_node_cpp, scope_of,
    without_leading,
};
use crate::cpp_templates::{
    class_template_parameters, function_name, optional_vec, template_call, template_call_of,
    template_function_name, template_parameters,
};
use crate::cpp_tokens::{owner, owner_of, tokens, tokens_of};
use crate::cpp_types::{join_scope, scoped};
use crate::facts::{
    BindingDef, ReferenceKind, ReferenceUse, ScopeDef, SymbolDef, SymbolKind, TextRange,
};
use crate::ids::{Identity, ReferenceId, SymbolId};
use crate::symbol_registry::{RegistryView, SymbolRegistry};
use crate::syntax::{get_slice, slice_of, Field, Kind, SyntaxTree};
use crate::text::{byte_views, copy_bytes, lemma_push_bytes, same_bytes, Text};
use vstd::prelude::*;
use vstd::string::StringSliceAdditionalSpecFns;

verus! {

broadcast use {SyntaxTree::parent_comes_first, SyntaxTree::children_come_later};

/// A recorded call with the ranges of its arguments.
#[derive(Debug)]
pub struct WrittenCall {
    pub reference_id: Option<ReferenceId>,
    pub arguments: Vec<Option<TextRange>>,
}

/// What is already known of a file.
#[derive(Debug)]
pub struct FileFacts {
    pub symbols: Vec<SymbolDef>,
    pub scopes: Vec<ScopeDef>,
    pub references: Vec<ReferenceUse>,
    pub calls: Vec<WrittenCall>,
    pub bindings: Vec<BindingDef>,
}

impl FileFacts {
    /// Whether there is a reference, a call, a binding or a symbol.
    pub open spec fn is_listed(&self) -> bool {
        self.references@.len() > 0 || self.calls@.len() > 0 || self.bindings@.len() > 0
            || self.symbols@.len() > 0
    }
}

/// What is recorded of the declarations of a file, by value.
#[verifier::ext_equal]
pub struct FileTypesView {
    pub allocation_sites: Seq<CppAllocationSite>,
    pub lambda_captures: Seq<LambdaCaptureView>,
    pub macros: Seq<MacroDefinitionView>,
    pub annotation_candidates: Seq<AnnotationTokenView>,
    pub member_macros: Seq<MemberMacroView>,
    pub adl_limits: Seq<LookupLimitView>,
    pub lookup_limits: Seq<LookupLimitView>,
    pub specialized_templates: Seq<Seq<u8>>,
    pub template_calls: Seq<TemplateCallView>,
    pub arguments: Seq<CallArgumentsView>,
    pub values: Seq<ValueTypeView>,
    pub aliases: Seq<TypeAliasView>,
    pub unverified_callable_scopes: Seq<SymbolId>,
    pub callables: Seq<CallableDeclarationView>,
    pub records: Seq<RecordTypeView>,
    pub this_capture_unavailable: Seq<ReferenceId>,
}

impl View for CppFileTypes {
    type V = FileTypesView;

    open spec fn view(&self) -> FileTypesView {
        FileTypesView {
            allocation_sites: self.allocation_sites@,
            lambda_captures: views(self.lambda_captures@),
            macros: views(self.macros@),
            annotation_candidates: views(self.annotation_candidates@),
            member_macros: views(self.member_macros@),
            adl_limits: views(self.adl_limits@),
            lookup_limits: views(self.lookup_limits@),
            specialized_templates: text_views(self.specialized_templates@),
            template_calls: views(self.template_calls@),
            arguments: views(self.arguments@),
            values: views(self.values@),
            aliases: views(self.aliases@),
            unverified_callable_scopes: self.unverified_callable_scopes@,
            callables: views(self.callables@),
            records: views(self.records@),
            this_capture_unavailable: self.this_capture_unavailable@,
        }
    }
}

/// Nothing recorded.
pub open spec fn no_types() -> FileTypesView {
    FileTypesView {
        allocation_sites: Seq::empty(),
        lambda_captures: Seq::empty(),
        macros: Seq::empty(),
        annotation_candidates: Seq::empty(),
        member_macros: Seq::empty(),
        adl_limits: Seq::empty(),
        lookup_limits: Seq::empty(),
        specialized_templates: Seq::empty(),
        template_calls: Seq::empty(),
        arguments: Seq::empty(),
        values: Seq::empty(),
        aliases: Seq::empty(),
        unverified_callable_scopes: Seq::empty(),
        callables: Seq::empty(),
        records: Seq::empty(),
        this_capture_unavailable: Seq::empty(),
    }
}

impl Default for CppFileTypes {
    fn default() -> (r: Self)
        ensures
            r@ == no_types(),
    {
        let r = CppFileTypes {
            allocation_sites: Vec::new(),
            lambda_captures: Vec::new(),
            macros: Vec::new(),
            annotation_candidates: Vec::new(),
            member_macros: Vec::new(),
            adl_limits: Vec::new(),
            lookup_limits: Vec::new(),
            specialized_templates: Vec::new(),
            template_calls: Vec::new(),
            arguments: Vec::new(),
            values: Vec::new(),
            aliases: Vec::new(),
            unverified_callable_scopes: Vec::new(),
            callables: Vec::new(),
            records: Vec::new(),
            this_capture_unavailable: Vec::new(),
        };
        assert(r@ =~= no_types());
        r
    }
}

/// Whether an identity is that of a function or method.
pub open spec fn is_callable_id(symbols: Seq<SymbolDef>, id: SymbolId) -> bool {
    exists|i: int|
        0 <= i < symbols.len() && is_callable((#[trigger] symbols[i]).kind) && symbols[i].id == id
}

fn find_callable_id(symbols: &[SymbolDef], id: &SymbolId) -> (r: bool)
    ensures
        r == is_callable_id(symbols@, *id),
{
    let mut i: usize = 0;
    while i < symbols.len()
        invariant
            i <= symbols@.len(),
            forall|k: int|
                0 <= k < i ==> !(is_callable((#[trigger] symbols@[k]).kind) && symbols@[k].id
                    == *id),
        decreases symbols@.len() - i,
    {
        if matches!(symbols[i].kind, SymbolKind::Function | SymbolKind::Method)
            && symbols[i].id.same(id) {
            assert(is_callable(symbols@[i as int].kind));
            return true;
        }
        i += 1;
    }
    false
}

/// What a node adds to the allocations.
pub open spec fn allocation_at(
    tree: SyntaxTree,
    symbols: Seq<SymbolDef>,
    registry: RegistryView,
    n: usize,
) -> Seq<CppAllocationSite> {
    if tree.kind_of(n) == Kind::NewExpression && evaluated_from(tree, tree.range_of(n), n) {
        let source = registry.source(tree.range_of(n));
        seq![
            CppAllocationSite {
                range: tree.range_of(n),
                source_symbol: match source {
                    Some(id) if is_callable_id(symbols, id) => source,
                    _ => None,
                },
            },
        ]
    } else {
        Seq::empty()
    }
}

fn add_allocation(
    tree: &SyntaxTree,
    symbols: &[SymbolDef],
    registry: &SymbolRegistry,
    n: usize,
    sites: &mut Vec<CppAllocationSite>,
)
    ensures
        final(sites)@ == old(sites)@ + allocation_at(*tree, symbols@, registry@, n),
{
    if tree.kind(n) == Kind::NewExpression && may_be_evaluated(tree, n) {
        let range = tree.range(n);
        let source_symbol = match registry.source_for_range(range) {
            None => None,
            Some(id) => if find_callable_id(symbols, &id) {
                Some(id)
            } else {
                None
            },
        };
        sites.push(CppAllocationSite { range, source_symbol });
    }
    assert(sites@ =~= old(sites)@ + allocation_at(*tree, symbols@, registry@, n));
}

/// What a node adds to the closures.
pub open spec fn lambda_at(
    tree: SyntaxTree,
    symbols: Seq<SymbolDef>,
    bindings: Seq<BindingDef>,
    registry: RegistryView,
    n: usize,
) -> Seq<LambdaCaptureView> {
    if tree.kind_of(n) == Kind::LambdaExpression {
        seq![annotated(tree, n, symbols, bindings, registry, lambda_captures(tree, n))]
    } else {
        Seq::empty()
    }
}

/// The name that a friend function declares.
pub open spec fn friend_name(tree: SyntaxTree, n: usize) -> Option<Seq<u8>> {
    match tree.child_in_role(n, Field::Declarator) {
        None => None,
        Some(declarator) => match last_name(tree, declarator) {
            None => None,
            Some(name) => tree.text_of(name),
        },
    }
}

/// A limit of a scope without a block.
pub open spec fn limit(scope: Seq<u8>, name: Option<Seq<u8>>, range: TextRange) -> LookupLimitView {
    LookupLimitView { scope, name, declaration_range: range, block_range: None }
}

/// What a friend function adds: it belongs to the namespace and is found through its
/// class.
pub open spec fn friend_limits(tree: SyntaxTree, n: usize) -> Seq<LookupLimitView> {
    if tree.kind_of(n) == Kind::FunctionDeclarator && tree.first_of(
        tree.ancestors_of(n),
        seq![Kind::FriendDeclaration],
        seq![Kind::CompoundStatement, Kind::ClassSpecifier, Kind::StructSpecifier],
    ) is Some {
        seq![limit(scope_of(tree, n), friend_name(tree, n), tree.range_of(n))]
    } else {
        Seq::empty()
    }
}

/// What an inline namespace adds: its names are those of the namespace around it.
pub open spec fn inline_limits(tree: SyntaxTree, n: usize) -> Seq<LookupLimitView> {
    if tree.kind_of(n) == Kind::NamespaceDefinition && tree.has_one_of(
        tree.children_of(n),
        seq![Kind::InlineKeyword],
    ) {
        let outer = scope_of(tree, n);
        let own = match tree.child_in_role(n, Field::Name) {
            None => None,
            Some(name) => tree.text_of(name),
        };
        seq![limit(outer, None, tree.range_of(n))] + match own {
            None => Seq::empty(),
            Some(name) => seq![
                limit(
                    if outer.len() == 0 {
                        name
                    } else {
                        scoped(outer, name)
                    },
                    None,
                    tree.range_of(n),
                ),
            ],
        }
    } else {
        Seq::empty()
    }
}

/// What a function template adds: its name, until its whole signature is recorded.
pub open spec fn template_limits(tree: SyntaxTree, n: usize) -> Seq<LookupLimitView> {
    match template_function_name(tree, n) {
        None => Seq::empty(),
        Some(name) => seq![limit(scope_of(tree, n), Some(name), tree.range_of(n))],
    }
}

fn push_limit(
    limits: &mut Vec<CppLookupLimit>,
    scope: Vec<u8>,
    name: Option<Vec<u8>>,
    range: TextRange,
)
    ensures
        views(final(limits)@) == views(old(limits)@) + seq![
            limit(scope@, optional_vec(name), range),
        ],
{
    let ghost before = limits@;
    let item = CppLookupLimit {
        scope: Text::from_vec(scope),
        name: match name {
            None => None,
            Some(name) => Some(Text::from_vec(name)),
        },
        declaration_range: range,
        block_range: None,
    };
    limits.push(item);
    proof {
        lemma_push_view(before, item);
        assert(views(before).push(item@) =~= views(before) + seq![item@]);
    }
}

fn role_copy(tree: &SyntaxTree, n: usize, field: Field) -> (r: Option<Vec<u8>>)
    ensures
        optional_vec(r) == match tree.child_in_role(n, field) {
            None => None,
            Some(child) => tree.text_of(child),
        },
{
    match tree.child_by_field(n, field) {
        None => None,
        Some(child) => match tree.node_text(child) {
            None => None,
            Some(text) => Some(copy_bytes(text)),
        },
    }
}

fn find_friend_name(tree: &SyntaxTree, n: usize) -> (r: Option<Vec<u8>>)
    ensures
        optional_vec(r) == friend_name(*tree, n),
{
    match tree.child_by_field(n, Field::Declarator) {
        None => None,
        Some(declarator) => match find_last_name(tree, declarator) {
            None => None,
            Some(name) => match tree.node_text(name) {
                None => None,
                Some(text) => Some(copy_bytes(text)),
            },
        },
    }
}

fn add_adl_limits(tree: &SyntaxTree, n: usize, limits: &mut Vec<CppLookupLimit>)
    ensures
        views(final(limits)@) == views(old(limits)@) + friend_limits(*tree, n) + inline_limits(
            *tree,
            n,
        ),
{
    let ghost start = views(limits@);
    if tree.kind(n) == Kind::FunctionDeclarator {
        let want = [Kind::FriendDeclaration];
        let stop = [Kind::CompoundStatement, Kind::ClassSpecifier, Kind::StructSpecifier];
        assert(want@ =~= seq![Kind::FriendDeclaration]);
        assert(stop@ =~= seq![
            Kind::CompoundStatement,
            Kind::ClassSpecifier,
            Kind::StructSpecifier,
        ]);
        let around = tree.ancestors(n);
        if tree.find_first(around.as_slice(), &want, &stop).is_some() {
            push_limit(limits, find_scope(tree, n), find_friend_name(tree, n), tree.range(n));
        }
    }
    assert(views(limits@) =~= start + friend_limits(*tree, n));
    let ghost middle = views(limits@);
    let inline_word = [Kind::InlineKeyword];
    assert(inline_word@ =~= seq![Kind::InlineKeyword]);
    if tree.kind(n) == Kind::NamespaceDefinition && tree.has_any(tree.children(n), &inline_word) {
        let outer = find_scope(tree, n);
        let own = match role_copy(tree, n, Field::Name) {
            None => None,
            Some(name) => Some(
                if outer.len() == 0 {
                    name
                } else {
                    join_scope(outer.as_slice(), name.as_slice())
                },
            ),
        };
        push_limit(limits, outer, None, tree.range(n));
        if let Some(own) = own {
            push_limit(limits, own, None, tree.range(n));
        }
    }
    assert(views(limits@) =~= middle + inline_limits(*tree, n));
}

/// The invocation among members that a node is, with its text and with what follows it
/// in the node.
pub open spec fn macro_parts(tree: SyntaxTree, n: usize) -> Option<
    (Seq<u8>, TextRange, Option<Seq<u8>>, Option<Seq<u8>>),
> {
    match candidate_of(tree, n) {
        None => None,
        Some((name, range)) => Some(
            (
                name,
                range,
                slice_of(tree.text(), range.start_byte as int, range.end_byte as int),
                slice_of(tree.text(), range.end_byte as int, tree.range_of(n).end_byte as int),
            ),
        ),
    }
}

/// Whether an invocation among members lies outside the text.
pub open spec fn is_broken(tree: SyntaxTree, n: usize) -> bool {
    match macro_parts(tree, n) {
        None => false,
        Some((_, _, text, rest)) => text is None || rest is None,
    }
}

/// What a node adds to the macro invocations among members.
pub open spec fn member_macros_at(tree: SyntaxTree, n: usize) -> Seq<MemberMacroView> {
    match macro_parts(tree, n) {
        Some((name, range, Some(text), _)) => seq![
            MemberMacroView { scope: scope_of(tree, n), name, text, range },
        ],
        _ => Seq::empty(),
    }
}

/// What an invocation among members adds: any names, where it is a whole declaration.
pub open spec fn macro_limits(tree: SyntaxTree, n: usize) -> Seq<LookupLimitView> {
    match macro_parts(tree, n) {
        Some((_, range, _, Some(rest))) if tokens_of(rest) == Some(Seq::<Seq<u8>>::empty()) => seq![
            limit(scope_of(tree, n), None, range),
        ],
        _ => Seq::empty(),
    }
}

/// Whether a symbol is the alias that a node declares.
pub open spec fn is_alias_in(tree: SyntaxTree, n: usize, symbol: SymbolDef) -> bool {
    symbol.kind == SymbolKind::TypeAlias && tree.range_of(n).covers(symbol.name_range)
}

/// Whether a node brings names into its scope that are not symbols of the file.
pub open spec fn brings_names(tree: SyntaxTree, symbols: Seq<SymbolDef>, n: usize) -> bool {
    match tree.kind_of(n) {
        Kind::UsingDeclaration => true,
        Kind::AliasDeclaration | Kind::TypeDefinition | Kind::NamespaceAliasDefinition => {
            !exists|i: int|
                0 <= i < symbols.len() && is_alias_in(tree, n, #[trigger] symbols[i])
        },
        _ => false,
    }
}

/// What a using-declaration or an alias adds.
pub open spec fn using_limits(tree: SyntaxTree, symbols: Seq<SymbolDef>, n: usize) -> Seq<
    LookupLimitView,
> {
    if brings_names(tree, symbols, n) {
        seq![
            LookupLimitView {
                scope: scope_of(tree, n),
                name: used_name(tree, n),
                declaration_range: tree.range_of(n),
                block_range: verified_block(tree, n, symbols),
            },
        ]
    } else {
        Seq::empty()
    }
}

/// Whether a node names the arrow operator.
pub open spec fn is_arrow_operator(tree: SyntaxTree, n: usize) -> bool {
    tree.kind_of(n) == Kind::OperatorName && match tree.text_of(n) {
        None => false,
        Some(text) => without_space(text) == "operator->".spec_bytes(),
    }
}

/// The class that a node defines, or whose arrow operator it defines.
pub open spec fn specialized_owner(tree: SyntaxTree, n: usize) -> Option<usize> {
    match tree.kind_of(n) {
        Kind::ClassSpecifier | Kind::StructSpecifier => tree.child_in_role(n, Field::Name),
        Kind::FunctionDeclarator => match tree.child_in_role(n, Field::Declarator) {
            Some(name) if tree.kind_of(name) == Kind::QualifiedIdentifier => {
                match tree.child_in_role(name, Field::Name) {
                    Some(last) if is_arrow_operator(tree, last) => tree.child_in_role(
                        name,
                        Field::Scope,
                    ),
                    _ => None,
                }
            },
            _ => None,
        },
        _ => None,
    }
}

/// What a node adds to the specialized templates.
pub open spec fn specialized_at(tree: SyntaxTree, n: usize) -> Seq<Seq<u8>> {
    match specialized_owner(tree, n) {
        None => Seq::empty(),
        Some(owner) => match template_record(tree, owner) {
            Some((name, true)) => seq![
                if is_absolute(name) {
                    without_leading(name)
                } else {
                    qualified_name(tree, name, n)
                },
            ],
            _ => Seq::empty(),
        },
    }
}

fn find_alias_in(tree: &SyntaxTree, n: usize, symbols: &[SymbolDef]) -> (r: bool)
    ensures
        r == exists|i: int|
            0 <= i < symbols@.len() && is_alias_in(*tree, n, #[trigger] symbols@[i]),
{
    let mut i: usize = 0;
    while i < symbols.len()
        invariant
            i <= symbols@.len(),
            forall|k: int| 0 <= k < i ==> !is_alias_in(*tree, n, #[trigger] symbols@[k]),
        decreases symbols@.len() - i,
    {
        if symbols[i].kind == SymbolKind::TypeAlias && tree.range(n).contains_range(
            &symbols[i].name_range,
        ) {
            assert(is_alias_in(*tree, n, symbols@[i as int]));
            return true;
        }
        i += 1;
    }
    false
}

fn find_brings_names(tree: &SyntaxTree, symbols: &[SymbolDef], n: usize) -> (r: bool)
    ensures
        r == brings_names(*tree, symbols@, n),
{
    match tree.kind(n) {
        Kind::UsingDeclaration => true,
        Kind::AliasDeclaration | Kind::TypeDefinition | Kind::NamespaceAliasDefinition => {
            !find_alias_in(tree, n, symbols)
        },
        _ => false,
    }
}

/// Add the invocation among members that a node is; says whether it lies in the text.
fn add_member_macro(
    tree: &SyntaxTree,
    n: usize,
    macros: &mut Vec<CppMemberMacro>,
    limits: &mut Vec<CppLookupLimit>,
) -> (r: bool)
    ensures
        r == !is_broken(*tree, n),
        r ==> views(final(macros)@) == views(old(macros)@) + member_macros_at(*tree, n),
        r ==> views(final(limits)@) == views(old(limits)@) + macro_limits(*tree, n),
{
    let ghost first = views(macros@);
    let ghost start = views(limits@);
    if let Some((name, range)) = candidate(tree, n) {
        let source = tree.source();
        let text = match get_slice(source, range.start_byte as usize, range.end_byte as usize) {
            None => {
                return false;
            },
            Some(text) => text,
        };
        let rest = match get_slice(
            source,
            range.end_byte as usize,
            tree.range(n).end_byte as usize,
        ) {
            None => {
                return false;
            },
            Some(rest) => rest,
        };
        let item = CppMemberMacro {
            scope: Text::from_vec(find_scope(tree, n)),
            name: Text::from_vec(name),
            text: Text::from_bytes(text),
            range,
        };
        let ghost before = macros@;
        macros.push(item);
        proof {
            lemma_push_view(before, item);
            assert(views(before).push(item@) =~= views(before) + seq![item@]);
        }
        let whole = match tokens(rest) {
            None => false,
            Some(tokens) => {
                let none = tokens.len() == 0;
                proof {
                    assert(none ==> byte_views(tokens@) =~= Seq::<Seq<u8>>::empty());
                    assert(byte_views(tokens@).len() == tokens@.len());
                }
                none
            },
        };
        if whole {
            push_limit(limits, find_scope(tree, n), None, range);
        }
    }
    assert(views(macros@) =~= first + member_macros_at(*tree, n));
    assert(views(limits@) =~= start + macro_limits(*tree, n));
    true
}

fn add_template_limit(tree: &SyntaxTree, n: usize, limits: &mut Vec<CppLookupLimit>)
    ensures
        views(final(limits)@) == views(old(limits)@) + template_limits(*tree, n),
{
    let ghost start = views(limits@);
    if let Some(name) = function_name(tree, n) {
        push_limit(limits, find_scope(tree, n), Some(name), tree.range(n));
    }
    assert(views(limits@) =~= start + template_limits(*tree, n));
}

fn add_using_limit(
    tree: &SyntaxTree,
    symbols: &[SymbolDef],
    n: usize,
    limits: &mut Vec<CppLookupLimit>,
)
    ensures
        views(final(limits)@) == views(old(limits)@) + using_limits(*tree, symbols@, n),
{
    let ghost start = views(limits@);
    if find_brings_names(tree, symbols, n) {
        let ghost before = limits@;
        let item = CppLookupLimit {
            scope: Text::from_vec(find_scope(tree, n)),
            name: match single_using_name(tree, n) {
                None => None,
                Some(name) => Some(Text::from_vec(name)),
            },
            declaration_range: tree.range(n),
            block_range: verified_block_range(tree, n, symbols),
        };
        limits.push(item);
        proof {
            lemma_push_view(before, item);
        }
    }
    assert(views(limits@) =~= start + using_limits(*tree, symbols@, n));
}

fn arrow_operator(tree: &SyntaxTree, n: usize) -> (r: bool)
    ensures
        r == is_arrow_operator(*tree, n),
{
    tree.kind(n) == Kind::OperatorName && match tree.node_text(n) {
        None => false,
        Some(text) => same_bytes(drop_space(text).as_slice(), "operator->".as_bytes()),
    }
}

fn find_specialized_owner(tree: &SyntaxTree, n: usize) -> (r: Option<usize>)
    ensures
        r == specialized_owner(*tree, n),
{
    match tree.kind(n) {
        Kind::ClassSpecifier | Kind::StructSpecifier => tree.child_by_field(n, Field::Name),
        Kind::FunctionDeclarator => match tree.child_by_field(n, Field::Declarator) {
            None => None,
            Some(name) => {
                if tree.kind(name) != Kind::QualifiedIdentifier {
                    return None;
                }
                match tree.child_by_field(name, Field::Name) {
                    None => None,
                    Some(last) => if arrow_operator(tree, last) {
                        tree.child_by_field(name, Field::Scope)
                    } else {
                        None
                    },
                }
            },
        },
        _ => None,
    }
}

fn add_specialized(tree: &SyntaxTree, n: usize, names: &mut Vec<Text>)
    ensures
        text_views(final(names)@) == text_views(old(names)@) + specialized_at(*tree, n),
{
    let ghost start = text_views(names@);
    if let Some(owner) = find_specialized_owner(tree, n) {
        if let Some((name, templated)) = template_record_name(tree, owner) {
            if templated {
                let ghost before = names@;
                let full = if crate::cpp_tokens::has_pair_at(
                    name.as_slice(),
                    0,
                    crate::cpp_tokens::COLON,
                    crate::cpp_tokens::COLON,
                ) {
                    Text::from_bytes(drop_leading(name.as_slice()))
                } else {
                    Text::from_vec(qualified_name_from_node_cpp(tree, name.as_slice(), n))
                };
                names.push(full);
                proof {
                    lemma_push_text(before, full);
                }
            }
        }
    }
    assert(text_views(names@) =~= start + specialized_at(*tree, n));
}

/// What is recorded with one more node.
pub open spec fn with_node(
    tree: SyntaxTree,
    facts: FileFacts,
    registry: RegistryView,
    n: usize,
    before: FileTypesView,
) -> FileTypesView {
    FileTypesView {
        allocation_sites: before.allocation_sites + allocation_at(
            tree,
            facts.symbols@,
            registry,
            n,
        ),
        lambda_captures: before.lambda_captures + lambda_at(
            tree,
            facts.symbols@,
            facts.bindings@,
            registry,
            n,
        ),
        macros: before.macros + macros_of(tree, n),
        annotation_candidates: before.annotation_candidates + candidates_of(tree, n),
        adl_limits: before.adl_limits + friend_limits(tree, n) + inline_limits(tree, n),
        member_macros: before.member_macros + member_macros_at(tree, n),
        lookup_limits: before.lookup_limits + template_limits(tree, n) + macro_limits(tree, n)
            + using_limits(tree, facts.symbols@, n),
        specialized_templates: before.specialized_templates + specialized_at(tree, n),
        ..before
    }
}

/// What the first nodes of the tree say. The nodes are counted in the order in which
/// they start.
pub open spec fn walked(
    tree: SyntaxTree,
    facts: FileFacts,
    registry: RegistryView,
    count: nat,
) -> FileTypesView
    decreases count,
{
    if count == 0 {
        no_types()
    } else {
        with_node(
            tree,
            facts,
            registry,
            (count - 1) as usize,
            walked(tree, facts, registry, (count - 1) as nat),
        )
    }
}

/// Record what a node says; says whether it lies in the text.
fn add_node(
    tree: &SyntaxTree,
    facts: &FileFacts,
    registry: &SymbolRegistry,
    n: usize,
    result: &mut CppFileTypes,
) -> (r: bool)
    ensures
        r == !is_broken(*tree, n),
        r ==> final(result)@ == with_node(*tree, *facts, registry@, n, old(result)@),
{
    let symbols = facts.symbols.as_slice();
    add_allocation(tree, symbols, registry, n, &mut result.allocation_sites);
    let ghost captures = result.lambda_captures@;
    if tree.kind(n) == Kind::LambdaExpression {
        let mut capture = lambda_capture(tree, n);
        annotate(tree, n, symbols, facts.bindings.as_slice(), registry, &mut capture);
        result.lambda_captures.push(capture);
        proof {
            lemma_push_view(captures, capture);
        }
    }
    assert(views(result.lambda_captures@) =~= views(captures) + lambda_at(
        *tree,
        facts.symbols@,
        facts.bindings@,
        registry@,
        n,
    ));
    collect_node(tree, n, &mut result.macros, &mut result.annotation_candidates);
    add_adl_limits(tree, n, &mut result.adl_limits);
    add_template_limit(tree, n, &mut result.lookup_limits);
    if !add_member_macro(tree, n, &mut result.member_macros, &mut result.lookup_limits) {
        return false;
    }
    add_specialized(tree, n, &mut result.specialized_templates);
    add_using_limit(tree, symbols, n, &mut result.lookup_limits);
    true
}

/// The calls with written template arguments among references.
pub open spec fn template_calls_in(tree: SyntaxTree, references: Seq<ReferenceUse>) -> Seq<
    TemplateCallView,
>
    decreases references.len(),
{
    if references.len() == 0 {
        Seq::empty()
    } else {
        let before = template_calls_in(tree, references.drop_last());
        let r = references.last();
        match template_call_of(tree, r.id, r.range, r.text@) {
            Some(call) if r.kind == ReferenceKind::Call => before.push(call),
            _ => before,
        }
    }
}

/// What the argument over a range says.
pub open spec fn argument_over(tree: SyntaxTree, range: Option<TextRange>) -> ArgumentExpressionView {
    match range {
        None => ArgumentExpressionView::Unknown,
        Some(range) => match node_over(tree, range) {
            None => ArgumentExpressionView::Unknown,
            Some(n) => argument_at(tree, n, MAX_ARGUMENT_DEPTH as nat),
        },
    }
}

/// The written arguments of the calls that are references.
pub open spec fn arguments_in(tree: SyntaxTree, calls: Seq<WrittenCall>) -> Seq<CallArgumentsView>
    decreases calls.len(),
{
    if calls.len() == 0 {
        Seq::empty()
    } else {
        let before = arguments_in(tree, calls.drop_last());
        match calls.last().reference_id {
            None => before,
            Some(reference_id) => before.push(
                CallArgumentsView {
                    reference_id,
                    arguments: calls.last().arguments@.map_values(
                        |range: Option<TextRange>| argument_over(tree, range),
                    ),
                },
            ),
        }
    }
}

/// The places at which limits start.
pub open spec fn start_keys(limits: Seq<LookupLimitView>) -> Seq<Seq<u128>> {
    limits.map_values(|l: LookupLimitView| seq![l.declaration_range.start_byte as u128])
}

/// Items without those that are equal to the one before them.
pub open spec fn without_repeats<T>(items: Seq<T>) -> Seq<T>
    decreases items.len(),
{
    if items.len() == 0 {
        Seq::empty()
    } else {
        let before = without_repeats(items.drop_last());
        if items.len() >= 2 && items[items.len() - 2] == items.last() {
            before
        } else {
            before.push(items.last())
        }
    }
}

/// Limits in the order in which they start, of equal neighbors only the first.
pub open spec fn ordered_limits(limits: Seq<LookupLimitView>) -> Seq<LookupLimitView> {
    without_repeats(in_order(limits, start_keys(limits)))
}

/// The bytes of the word that declares something that is defined elsewhere.
pub open spec fn elsewhere_word() -> Seq<u8> {
    seq![0x65u8, 0x78u8, 0x74u8, 0x65u8, 0x72u8, 0x6Eu8]
}

/// Whether a closure must capture a variable to use it.
pub open spec fn needs_capture(tree: SyntaxTree, declaration: usize) -> bool {
    let children = tree.children_of(declaration);
    !has_word(tree, children, "static".spec_bytes()) && !has_word(
        tree,
        children,
        "thread_local".spec_bytes(),
    ) && !has_word(tree, children, elsewhere_word())
}

/// The first symbol with an identity.
pub open spec fn symbol_with(symbols: Seq<SymbolDef>, id: SymbolId) -> Option<SymbolDef>
    decreases symbols.len(),
{
    if symbols.len() == 0 {
        None
    } else if symbols[0].id == id {
        Some(symbols[0])
    } else {
        symbol_with(symbols.drop_first(), id)
    }
}

/// The scope in which the type of a binding is looked up.
pub open spec fn binding_scope(
    tree: SyntaxTree,
    symbols: Seq<SymbolDef>,
    binding: BindingDef,
    declaration: usize,
) -> Seq<u8> {
    match binding.function_id {
        None => scope_of(tree, declaration),
        Some(id) => match symbol_with(symbols, id) {
            None => scope_of(tree, declaration),
            Some(function) => owner_of(function.qualified_name@),
        },
    }
}

/// What a binding adds to the values.
pub open spec fn binding_value(tree: SyntaxTree, facts: FileFacts, binding: BindingDef) -> Option<
    ValueTypeView,
> {
    match value_type_of(tree, binding.range) {
        None => None,
        Some((declaration, ty)) => Some(
            ValueTypeView {
                binding_id: Some(binding.id),
                symbol_id: None,
                mutable_: false,
                bit_field: false,
                capture_required: needs_capture(tree, declaration),
                declared_type: ty,
                initializer_call: auto_call(tree, binding.range, declaration, facts.references@),
                lookup_scope: binding_scope(tree, facts.symbols@, binding, declaration),
                declaration_range: tree.range_of(declaration),
            },
        ),
    }
}

/// What bindings add to the values.
pub open spec fn binding_values(
    tree: SyntaxTree,
    facts: FileFacts,
    bindings: Seq<BindingDef>,
) -> Seq<ValueTypeView>
    decreases bindings.len(),
{
    if bindings.len() == 0 {
        Seq::empty()
    } else {
        let before = binding_values(tree, facts, bindings.drop_last());
        match binding_value(tree, facts, bindings.last()) {
            None => before,
            Some(value) => before.push(value),
        }
    }
}

/// What an alias stands for, where its declaration is found and supported.
pub open spec fn alias_meaning(tree: SyntaxTree, range: TextRange) -> Option<
    (crate::cpp_facts::DeclaredTypeView, TextRange),
> {
    match node_over(tree, range) {
        None => None,
        Some(n) => match enclosing_of(
            tree,
            n,
            seq![Kind::AliasDeclaration, Kind::TypeDefinition],
        ) {
            None => None,
            Some(declaration) => aliased(tree, declaration),
        },
    }
}

/// What a symbol adds to the aliases.
pub open spec fn alias_rows(tree: SyntaxTree, symbol: SymbolDef) -> Seq<TypeAliasView> {
    if symbol.kind == SymbolKind::TypeAlias {
        let meaning = alias_meaning(tree, symbol.name_range);
        seq![
            TypeAliasView {
                symbol_id: symbol.id,
                target_range: match meaning {
                    None => symbol.name_range,
                    Some((_, range)) => range,
                },
                target: match meaning {
                    None => None,
                    Some((ty, _)) => Some(ty),
                },
            },
        ]
    } else {
        Seq::empty()
    }
}

/// Whether the scope of a callable symbol is supported, be it a closure or not.
pub open spec fn is_symbol_supported(
    tree: SyntaxTree,
    symbol: SymbolDef,
    symbols: Seq<SymbolDef>,
) -> bool {
    if lambda_of(tree, symbol.name_range) is Some {
        is_lambda_supported(tree, symbol, symbols)
    } else {
        is_scope_supported(tree, symbol.name_range)
    }
}

/// What a symbol adds to the callables.
pub open spec fn callable_rows(
    tree: SyntaxTree,
    symbol: SymbolDef,
    symbols: Seq<SymbolDef>,
) -> Seq<CallableDeclarationView> {
    if is_callable(symbol.kind) && is_symbol_supported(tree, symbol, symbols) && lambda_of(
        tree,
        symbol.name_range,
    ) is None {
        match callable_of(tree, symbol.id, symbol.name_range) {
            None => Seq::empty(),
            Some(callable) => seq![callable],
        }
    } else {
        Seq::empty()
    }
}

/// The class that a symbol names.
pub open spec fn record_node(tree: SyntaxTree, symbol: SymbolDef) -> Option<usize> {
    if symbol.kind == SymbolKind::Class || symbol.kind == SymbolKind::Struct {
        match node_over(tree, symbol.name_range) {
            None => None,
            Some(n) => enclosing_of(tree, n, seq![Kind::ClassSpecifier, Kind::StructSpecifier]),
        }
    } else {
        None
    }
}

/// What a symbol adds to the scopes that cannot be trusted: a callable in an unsupported
/// scope, or a class with a body that is not supported.
pub open spec fn unverified_rows(
    tree: SyntaxTree,
    symbol: SymbolDef,
    symbols: Seq<SymbolDef>,
) -> Seq<SymbolId> {
    if is_callable(symbol.kind) && !is_symbol_supported(tree, symbol, symbols) {
        seq![symbol.id]
    } else {
        match record_node(tree, symbol) {
            Some(n) if tree.child_in_role(n, Field::Body) is Some && !is_record_supported(
                tree,
                n,
            ) => seq![symbol.id],
            _ => Seq::empty(),
        }
    }
}

/// Whether a class is in a namespace without a name.
pub open spec fn is_in_anonymous(tree: SyntaxTree, n: usize) -> bool {
    exists|i: int|
        0 <= i < tree.ancestors_of(n).len() && crate::cpp_callables::is_anonymous_namespace(
            tree,
            #[trigger] tree.ancestors_of(n)[i],
        )
}

/// Whether a class can be told apart from others.
pub open spec fn is_identity_supported(tree: SyntaxTree, n: usize) -> bool {
    &&& is_record_supported(tree, n) || is_forward_declaration(tree, n)
    &&& !is_within(tree, n, seq![Kind::FunctionDefinition])
    &&& !is_within(tree, n, seq![Kind::TemplateDeclaration]) || class_template_parameters(
        tree,
        n,
    ) is Some
    &&& !is_in_anonymous(tree, n)
}

/// The base classes of a class; none where it has no clause.
pub open spec fn record_bases(tree: SyntaxTree, n: usize) -> Option<
    Seq<crate::cpp_facts::BaseClassView>,
> {
    match tree.first_of(
        tree.named_children_of(n),
        seq![Kind::BaseClassClause],
        Seq::empty(),
    ) {
        None => Some(Seq::empty()),
        Some(clause) => bases_of(tree, clause),
    }
}

/// What a symbol adds to the classes.
pub open spec fn record_rows(tree: SyntaxTree, symbol: SymbolDef) -> Seq<RecordTypeView> {
    match record_node(tree, symbol) {
        None => Seq::empty(),
        Some(n) => {
            let defined = tree.child_in_role(n, Field::Body) is Some;
            seq![
                RecordTypeView {
                    symbol_id: symbol.id,
                    is_definition: defined,
                    bases: record_bases(tree, n),
                    identity_supported: is_identity_supported(tree, n),
                    lookup_supported: is_identity_supported(tree, n) && defined
                        && !may_hide_member(tree, n),
                    template_parameters: class_template_parameters(tree, n),
                },
            ]
        },
    }
}

/// Whether the declarator over a range is followed by the width of a bit-field.
pub open spec fn is_bit_field(tree: SyntaxTree, range: TextRange) -> bool {
    match node_over(tree, range) {
        None => false,
        Some(name) => match tree.first_named(tree.later_siblings_of(name)) {
            None => false,
            Some(next) => tree.kind_of(next) == Kind::BitfieldClause,
        },
    }
}

/// What a symbol adds to the values.
pub open spec fn field_rows(tree: SyntaxTree, symbol: SymbolDef) -> Seq<ValueTypeView> {
    match value_type_of(tree, symbol.name_range) {
        Some((declaration, ty)) if symbol.kind == SymbolKind::Field => seq![
            ValueTypeView {
                binding_id: None,
                symbol_id: Some(symbol.id),
                mutable_: has_word(
                    tree,
                    tree.children_of(declaration),
                    "mutable".spec_bytes(),
                ),
                bit_field: is_bit_field(tree, symbol.name_range),
                capture_required: false,
                declared_type: ty,
                initializer_call: None,
                lookup_scope: owner_of(symbol.qualified_name@),
                declaration_range: tree.range_of(declaration),
            },
        ],
        _ => Seq::empty(),
    }
}

/// What is recorded with one more symbol.
pub open spec fn with_symbol(
    tree: SyntaxTree,
    symbols: Seq<SymbolDef>,
    symbol: SymbolDef,
    before: FileTypesView,
) -> FileTypesView {
    FileTypesView {
        aliases: before.aliases + alias_rows(tree, symbol),
        unverified_callable_scopes: before.unverified_callable_scopes + unverified_rows(
            tree,
            symbol,
            symbols,
        ),
        callables: before.callables + callable_rows(tree, symbol, symbols),
        records: before.records + record_rows(tree, symbol),
        values: before.values + field_rows(tree, symbol),
        ..before
    }
}

/// What is recorded with the first symbols.
pub open spec fn with_symbols(
    tree: SyntaxTree,
    symbols: Seq<SymbolDef>,
    count: nat,
    before: FileTypesView,
) -> FileTypesView
    decreases count,
{
    if count == 0 || count > symbols.len() {
        before
    } else {
        with_symbol(
            tree,
            symbols,
            symbols[count - 1],
            with_symbols(tree, symbols, (count - 1) as nat, before),
        )
    }
}

/// Whether a closure around a node, in the same callable or class, does not keep the
/// object.
pub open spec fn loses_this(tree: SyntaxTree, n: usize) -> bool
    decreases n,
{
    let kind = tree.kind_of(n);
    if kind == Kind::FunctionDefinition || kind == Kind::ClassSpecifier || kind
        == Kind::StructSpecifier {
        false
    } else if kind == Kind::LambdaExpression && !keeps_this(tree, n) {
        true
    } else {
        match tree.parent_of(n) {
            None => false,
            Some(above) => above < n && loses_this(tree, above),
        }
    }
}

/// Whether a call cannot use the object around it.
pub open spec fn is_cut_off(tree: SyntaxTree, reference: ReferenceUse) -> bool {
    reference.kind == ReferenceKind::Call && match node_over(tree, reference.range) {
        None => false,
        Some(n) => loses_this(tree, n),
    }
}

/// The calls that cannot use the object around them.
pub open spec fn cut_off(tree: SyntaxTree, references: Seq<ReferenceUse>) -> Seq<ReferenceId>
    decreases references.len(),
{
    if references.len() == 0 {
        Seq::empty()
    } else {
        let before = cut_off(tree, references.drop_last());
        if is_cut_off(tree, references.last()) {
            before.push(references.last().id)
        } else {
            before
        }
    }
}

/// Whether a symbol is that of a recorded function template in a range.
pub open spec fn is_recorded_in(
    range: TextRange,
    callable: CallableDeclarationView,
    symbol: SymbolDef,
) -> bool {
    callable.template_parameters is Some && symbol.id == callable.symbol_id && range.covers(
        symbol.name_range,
    )
}

/// Whether the whole signature of the template that a limit stands for is recorded.
pub open spec fn is_discharged(
    tree: SyntaxTree,
    symbols: Seq<SymbolDef>,
    callables: Seq<CallableDeclarationView>,
    limit: LookupLimitView,
) -> bool {
    match node_over(tree, limit.declaration_range) {
        None => false,
        Some(n) => tree.kind_of(n) == Kind::TemplateDeclaration && exists|i: int, j: int|
            0 <= i < callables.len() && 0 <= j < symbols.len() && #[trigger] is_recorded_in(
                limit.declaration_range,
                callables[i],
                symbols[j],
            ),
    }
}

/// The limits that no recorded signature discharges.
pub open spec fn open_limits(
    tree: SyntaxTree,
    symbols: Seq<SymbolDef>,
    callables: Seq<CallableDeclarationView>,
    limits: Seq<LookupLimitView>,
) -> Seq<LookupLimitView> {
    limits.filter(|l: LookupLimitView| !is_discharged(tree, symbols, callables, l))
}

/// What the symbols, bindings and references of a file add to what its tree says.
pub open spec fn collected(
    tree: SyntaxTree,
    facts: FileFacts,
    seen: FileTypesView,
) -> FileTypesView {
    let symbols = facts.symbols@;
    let all = with_symbols(
        tree,
        symbols,
        symbols.len(),
        FileTypesView {
            template_calls: seen.template_calls + template_calls_in(tree, facts.references@),
            arguments: seen.arguments + arguments_in(tree, facts.calls@),
            lookup_limits: ordered_limits(seen.lookup_limits),
            specialized_templates: sorted_names(seen.specialized_templates),
            values: seen.values + binding_values(tree, facts, facts.bindings@),
            ..seen
        },
    );
    FileTypesView {
        this_capture_unavailable: all.this_capture_unavailable + cut_off(tree, facts.references@),
        lookup_limits: open_limits(tree, symbols, all.callables, all.lookup_limits),
        ..all
    }
}

/// The owners of the ranges of a file.
pub open spec fn registry_of(tree: SyntaxTree, facts: FileFacts) -> RegistryView {
    RegistryView::made(facts.symbols@, facts.scopes@, initializers_of(tree, facts.symbols@))
}

/// Everything that is recorded of the declarations of a file; nothing where the tree
/// does not lie in its text.
pub open spec fn types_of(tree: SyntaxTree, facts: FileFacts) -> Option<FileTypesView> {
    if exists|n: usize| n < tree.count() && #[trigger] is_broken(tree, n) {
        None
    } else {
        Some(
            collected(
                tree,
                facts,
                walked(tree, facts, registry_of(tree, facts), tree.count()),
            ),
        )
    }
}

fn add_template_calls<F: Fn() -> bool>(
    tree: &SyntaxTree,
    references: &[ReferenceUse],
    cancel: &F,
    calls: &mut Vec<CppTemplateCall>,
) -> (r: bool)
    requires
        call_requires(*cancel, ()),
    ensures
        r ==> views(final(calls)@) == views(old(calls)@) + template_calls_in(*tree, references@),
        !r ==> call_ensures(*cancel, (), true),
        r && references@.len() > 0 ==> call_ensures(*cancel, (), false),
{
    let ghost start = views(calls@);
    let mut i: usize = 0;
    assert(views(calls@) =~= start + template_calls_in(*tree, references@.take(0)));
    while i < references.len()
        invariant
            i <= references@.len(),
            call_requires(*cancel, ()),
            i > 0 ==> call_ensures(*cancel, (), false),
            views(calls@) == start + template_calls_in(*tree, references@.take(i as int)),
        decreases references@.len() - i,
    {
        assert(references@.take(i + 1).drop_last() =~= references@.take(i as int));
        if cancel() {
            return false;
        }
        if references[i].kind == ReferenceKind::Call {
            if let Some(call) = template_call(tree, &references[i]) {
                let ghost before = calls@;
                calls.push(call);
                proof {
                    lemma_push_view(before, call);
                    assert(views(calls@) =~= start + template_calls_in(
                        *tree,
                        references@.take(i as int),
                    ).push(call@));
                }
            }
        }
        i += 1;
    }
    assert(references@.take(i as int) =~= references@);
    true
}

fn read_arguments(tree: &SyntaxTree, ranges: &[Option<TextRange>]) -> (r: Vec<
    CppArgumentExpression,
>)
    ensures
        views(r@) == ranges@.map_values(|range: Option<TextRange>| argument_over(*tree, range)),
{
    let mut arguments: Vec<CppArgumentExpression> = Vec::new();
    let mut i: usize = 0;
    while i < ranges.len()
        invariant
            i <= ranges@.len(),
            views(arguments@) =~= ranges@.take(i as int).map_values(
                |range: Option<TextRange>| argument_over(*tree, range),
            ),
        decreases ranges@.len() - i,
    {
        let argument = match ranges[i] {
            None => CppArgumentExpression::Unknown,
            Some(range) => match at(tree, range) {
                None => CppArgumentExpression::Unknown,
                Some(n) => argument_expression(tree, n, 0),
            },
        };
        let ghost before = arguments@;
        arguments.push(argument);
        proof {
            lemma_push_view(before, argument);
        }
        i += 1;
    }
    assert(ranges@.take(i as int) =~= ranges@);
    arguments
}

fn add_arguments<F: Fn() -> bool>(
    tree: &SyntaxTree,
    calls: &[WrittenCall],
    cancel: &F,
    arguments: &mut Vec<CppCallArguments>,
) -> (r: bool)
    requires
        call_requires(*cancel, ()),
    ensures
        r ==> views(final(arguments)@) == views(old(arguments)@) + arguments_in(*tree, calls@),
        !r ==> call_ensures(*cancel, (), true),
        r && calls@.len() > 0 ==> call_ensures(*cancel, (), false),
{
    let ghost start = views(arguments@);
    let mut i: usize = 0;
    assert(views(arguments@) =~= start + arguments_in(*tree, calls@.take(0)));
    while i < calls.len()
        invariant
            i <= calls@.len(),
            call_requires(*cancel, ()),
            i > 0 ==> call_ensures(*cancel, (), false),
            views(arguments@) == start + arguments_in(*tree, calls@.take(i as int)),
        decreases calls@.len() - i,
    {
        assert(calls@.take(i + 1).drop_last() =~= calls@.take(i as int));
        if cancel() {
            return false;
        }
        if let Some(reference_id) = calls[i].reference_id {
            let item = CppCallArguments {
                reference_id,
                arguments: read_arguments(tree, calls[i].arguments.as_slice()),
            };
            let ghost before = arguments@;
            arguments.push(item);
            proof {
                lemma_push_view(before, item);
                assert(views(arguments@) =~= start + arguments_in(
                    *tree,
                    calls@.take(i as int),
                ).push(item@));
            }
        }
        i += 1;
    }
    assert(calls@.take(i as int) =~= calls@);
    true
}

fn copy_limit(limit: &CppLookupLimit) -> (r: CppLookupLimit)
    ensures
        r@ == limit@,
{
    CppLookupLimit {
        scope: limit.scope.clone(),
        name: limit.name.clone(),
        declaration_range: limit.declaration_range,
        block_range: limit.block_range,
    }
}

fn same_limit(a: &CppLookupLimit, b: &CppLookupLimit) -> (r: bool)
    ensures
        r == (a@ == b@),
{
    let names = match (&a.name, &b.name) {
        (None, None) => true,
        (Some(a), Some(b)) => same_bytes(a.as_bytes(), b.as_bytes()),
        _ => false,
    };
    let blocks = match (a.block_range, b.block_range) {
        (None, None) => true,
        (Some(a), Some(b)) => a == b,
        _ => false,
    };
    names && blocks && same_bytes(a.scope.as_bytes(), b.scope.as_bytes()) && a.declaration_range
        == b.declaration_range
}

fn order_limits(limits: &[CppLookupLimit]) -> (r: Vec<CppLookupLimit>)
    ensures
        views(r@) == ordered_limits(views(limits@)),
{
    let ghost all = views(limits@);
    let mut keys: Vec<Vec<u128>> = Vec::new();
    let mut i: usize = 0;
    while i < limits.len()
        invariant
            i <= limits@.len(),
            all == views(limits@),
            keys@.len() == i,
            key_views(keys@) =~= start_keys(all).take(i as int),
        decreases limits@.len() - i,
    {
        let mut key: Vec<u128> = Vec::new();
        key.push(limits[i].declaration_range.start_byte as u128);
        assert(key@ =~= seq![all[i as int].declaration_range.start_byte as u128]);
        keys.push(key);
        i += 1;
    }
    assert(key_views(keys@) =~= start_keys(all));
    let order = stable_order(keys.as_slice());
    let ghost numbers = ordered_rows(start_keys(all), all.len());
    let ghost sorted = in_order(all, start_keys(all));
    let mut kept: Vec<CppLookupLimit> = Vec::new();
    i = 0;
    assert(views(kept@) =~= without_repeats(sorted.take(0)));
    while i < order.len()
        invariant
            i <= order@.len(),
            all == views(limits@),
            order@.len() == limits@.len(),
            numbers == order@.map_values(|i: usize| i as int),
            sorted == numbers.map_values(|i: int| all[i]),
            forall|i: int| 0 <= i < order@.len() ==> (#[trigger] order@[i]) < limits@.len(),
            views(kept@) == without_repeats(sorted.take(i as int)),
        decreases order@.len() - i,
    {
        let ghost now = sorted.take(i + 1);
        assert(now.drop_last() =~= sorted.take(i as int));
        assert(now.last() == all[order@[i as int] as int]);
        assert(order@[i as int] < limits@.len());
        let row: usize = order[i];
        let repeated = if i > 0 {
            let previous: usize = order[i - 1];
            assert(now[now.len() - 2] == all[order@[i - 1] as int]);
            same_limit(&limits[previous], &limits[row])
        } else {
            false
        };
        if !repeated {
            let item = copy_limit(&limits[row]);
            let ghost before = kept@;
            kept.push(item);
            proof {
                lemma_push_view(before, item);
            }
        }
        i += 1;
    }
    assert(sorted.take(i as int) =~= sorted);
    kept
}

fn order_names(names: &[Text]) -> (r: Vec<Text>)
    ensures
        text_views(r@) == sorted_names(text_views(names@)),
{
    let mut copies: Vec<Vec<u8>> = Vec::new();
    let mut i: usize = 0;
    while i < names.len()
        invariant
            i <= names@.len(),
            byte_views(copies@) =~= text_views(names@).take(i as int),
        decreases names@.len() - i,
    {
        let ghost before = copies@;
        let item = copy_bytes(names[i].as_bytes());
        copies.push(item);
        proof {
            lemma_push_bytes(before, item);
        }
        i += 1;
    }
    assert(byte_views(copies@) =~= text_views(names@));
    let sorted = sort_names(copies.as_slice());
    let mut texts: Vec<Text> = Vec::new();
    i = 0;
    while i < sorted.len()
        invariant
            i <= sorted@.len(),
            text_views(texts@) =~= byte_views(sorted@).take(i as int),
        decreases sorted@.len() - i,
    {
        let ghost before = texts@;
        let item = Text::from_bytes(sorted[i].as_slice());
        texts.push(item);
        proof {
            lemma_push_text(before, item);
        }
        i += 1;
    }
    assert(text_views(texts@) =~= byte_views(sorted@));
    texts
}

fn find_symbol_with<'a>(symbols: &'a [SymbolDef], id: &SymbolId) -> (r: Option<&'a SymbolDef>)
    ensures
        match r {
            None => symbol_with(symbols@, *id) is None,
            Some(symbol) => symbol_with(symbols@, *id) == Some(*symbol),
        },
{
    let mut i: usize = 0;
    assert(symbols@.skip(0) =~= symbols@);
    while i < symbols.len()
        invariant
            i <= symbols@.len(),
            symbol_with(symbols@, *id) == symbol_with(symbols@.skip(i as int), *id),
        decreases symbols@.len() - i,
    {
        assert(symbols@.skip(i as int).drop_first() =~= symbols@.skip(i + 1));
        if symbols[i].id.same(id) {
            return Some(&symbols[i]);
        }
        i += 1;
    }
    None
}

fn find_needs_capture(tree: &SyntaxTree, declaration: usize) -> (r: bool)
    ensures
        r == needs_capture(*tree, declaration),
{
    let children = tree.children(declaration);
    let elsewhere: [u8; 6] = [0x65, 0x78, 0x74, 0x65, 0x72, 0x6E];
    assert(elsewhere@ =~= elsewhere_word());
    !find_word(tree, children, "static".as_bytes()) && !find_word(
        tree,
        children,
        "thread_local".as_bytes(),
    ) && !find_word(tree, children, &elsewhere)
}

fn read_binding(tree: &SyntaxTree, facts: &FileFacts, binding: &BindingDef) -> (r: Option<
    CppValueType,
>)
    ensures
        optional_view(r) == binding_value(*tree, *facts, *binding),
{
    let (declaration, declared_type) = match value_type(tree, binding.range) {
        None => {
            return None;
        },
        Some(found) => found,
    };
    let function = match binding.function_id {
        None => None,
        Some(id) => find_symbol_with(facts.symbols.as_slice(), &id),
    };
    let lookup_scope = match function {
        None => Text::from_vec(find_scope(tree, declaration)),
        Some(function) => Text::from_bytes(owner(function.qualified_name.as_bytes())),
    };
    Some(
        CppValueType {
            binding_id: Some(binding.id),
            symbol_id: None,
            mutable_: false,
            bit_field: false,
            capture_required: find_needs_capture(tree, declaration),
            declared_type,
            initializer_call: auto_initializer(
                tree,
                binding.range,
                declaration,
                facts.references.as_slice(),
            ),
            lookup_scope,
            declaration_range: tree.range(declaration),
        },
    )
}

fn add_bindings<F: Fn() -> bool>(
    tree: &SyntaxTree,
    facts: &FileFacts,
    cancel: &F,
    values: &mut Vec<CppValueType>,
) -> (r: bool)
    requires
        call_requires(*cancel, ()),
    ensures
        r ==> views(final(values)@) == views(old(values)@) + binding_values(
            *tree,
            *facts,
            facts.bindings@,
        ),
        !r ==> call_ensures(*cancel, (), true),
        r && facts.bindings@.len() > 0 ==> call_ensures(*cancel, (), false),
{
    let bindings = facts.bindings.as_slice();
    let ghost start = views(values@);
    let mut i: usize = 0;
    assert(views(values@) =~= start + binding_values(*tree, *facts, bindings@.take(0)));
    while i < bindings.len()
        invariant
            i <= bindings@.len(),
            bindings@ == facts.bindings@,
            call_requires(*cancel, ()),
            i > 0 ==> call_ensures(*cancel, (), false),
            views(values@) == start + binding_values(*tree, *facts, bindings@.take(i as int)),
        decreases bindings@.len() - i,
    {
        assert(bindings@.take(i + 1).drop_last() =~= bindings@.take(i as int));
        if cancel() {
            return false;
        }
        if let Some(value) = read_binding(tree, facts, &bindings[i]) {
            let ghost before = values@;
            values.push(value);
            proof {
                lemma_push_view(before, value);
                assert(views(values@) =~= start + binding_values(
                    *tree,
                    *facts,
                    bindings@.take(i as int),
                ).push(value@));
            }
        }
        i += 1;
    }
    assert(bindings@.take(i as int) =~= bindings@);
    true
}

fn add_alias(tree: &SyntaxTree, symbol: &SymbolDef, aliases: &mut Vec<CppTypeAlias>)
    ensures
        views(final(aliases)@) == views(old(aliases)@) + alias_rows(*tree, *symbol),
{
    let ghost before = aliases@;
    if symbol.kind == SymbolKind::TypeAlias {
        let kinds = [Kind::AliasDeclaration, Kind::TypeDefinition];
        assert(kinds@ =~= seq![Kind::AliasDeclaration, Kind::TypeDefinition]);
        let declaration = match at(tree, symbol.name_range) {
            None => None,
            Some(n) => ancestor(tree, n, &kinds),
        };
        let meaning = match declaration {
            None => None,
            Some(declaration) => alias_target(tree, declaration),
        };
        let item = match meaning {
            None => CppTypeAlias {
                symbol_id: symbol.id,
                target_range: symbol.name_range,
                target: None,
            },
            Some((ty, range)) => CppTypeAlias {
                symbol_id: symbol.id,
                target_range: range,
                target: Some(ty),
            },
        };
        aliases.push(item);
        proof {
            lemma_push_view(before, item);
        }
    }
    assert(views(aliases@) =~= views(before) + alias_rows(*tree, *symbol));
}

fn symbol_supported(tree: &SyntaxTree, symbol: &SymbolDef, symbols: &[SymbolDef]) -> (r: bool)
    ensures
        r == is_symbol_supported(*tree, *symbol, symbols@),
{
    if node(tree, symbol).is_some() {
        lambda_scope_supported(tree, symbol, symbols)
    } else {
        scope_supported(tree, symbol)
    }
}

fn find_record_node(tree: &SyntaxTree, symbol: &SymbolDef) -> (r: Option<usize>)
    ensures
        r == record_node(*tree, *symbol),
{
    if !matches!(symbol.kind, SymbolKind::Class | SymbolKind::Struct) {
        return None;
    }
    let kinds = [Kind::ClassSpecifier, Kind::StructSpecifier];
    assert(kinds@ =~= seq![Kind::ClassSpecifier, Kind::StructSpecifier]);
    match at(tree, symbol.name_range) {
        None => None,
        Some(n) => ancestor(tree, n, &kinds),
    }
}

fn in_anonymous(tree: &SyntaxTree, n: usize) -> (r: bool)
    ensures
        r == is_in_anonymous(*tree, n),
{
    let around = tree.ancestors(n);
    let mut i: usize = 0;
    while i < around.len()
        invariant
            i <= around@.len(),
            around@ == tree.ancestors_of(n),
            forall|k: int|
                0 <= k < i ==> !crate::cpp_callables::is_anonymous_namespace(
                    *tree,
                    #[trigger] tree.ancestors_of(n)[k],
                ),
        decreases around@.len() - i,
    {
        if tree.kind(around[i]) == Kind::NamespaceDefinition && tree.child_by_field(
            around[i],
            Field::Name,
        ).is_none() {
            assert(crate::cpp_callables::is_anonymous_namespace(
                *tree,
                tree.ancestors_of(n)[i as int],
            ));
            return true;
        }
        i += 1;
    }
    false
}

fn identity_supported(tree: &SyntaxTree, n: usize) -> (r: bool)
    ensures
        r == is_identity_supported(*tree, n),
{
    let functions = [Kind::FunctionDefinition];
    let templates = [Kind::TemplateDeclaration];
    assert(functions@ =~= seq![Kind::FunctionDefinition]);
    assert(templates@ =~= seq![Kind::TemplateDeclaration]);
    (record_scope_supported(tree, n) || forward_declaration(tree, n)) && !has_ancestor(
        tree,
        n,
        &functions,
    ) && (!has_ancestor(tree, n, &templates) || template_parameters(tree, n).is_some())
        && !in_anonymous(tree, n)
}

fn add_record(tree: &SyntaxTree, symbol: &SymbolDef, records: &mut Vec<CppRecordType>)
    ensures
        views(final(records)@) == views(old(records)@) + record_rows(*tree, *symbol),
{
    let ghost before = records@;
    if let Some(n) = find_record_node(tree, symbol) {
        let clauses = [Kind::BaseClassClause];
        let never: [Kind; 0] = [];
        assert(clauses@ =~= seq![Kind::BaseClassClause]);
        assert(never@ =~= Seq::empty());
        let children = tree.named_children(n);
        let bases = match tree.find_first(children.as_slice(), &clauses, &never) {
            None => {
                let none: Vec<crate::cpp_facts::CppBaseClass> = Vec::new();
                assert(views(none@) =~= Seq::<crate::cpp_facts::BaseClassView>::empty());
                Some(none)
            },
            Some(clause) => base_classes(tree, clause),
        };
        let is_definition = tree.child_by_field(n, Field::Body).is_some();
        let identity = identity_supported(tree, n);
        let item = CppRecordType {
            symbol_id: symbol.id,
            is_definition,
            bases,
            identity_supported: identity,
            lookup_supported: identity && is_definition && !unmodeled_record_error(tree, n),
            template_parameters: template_parameters(tree, n),
        };
        records.push(item);
        proof {
            lemma_push_view(before, item);
        }
    }
    assert(views(records@) =~= views(before) + record_rows(*tree, *symbol));
}

fn bit_field(tree: &SyntaxTree, range: TextRange) -> (r: bool)
    ensures
        r == is_bit_field(*tree, range),
{
    match at(tree, range) {
        None => false,
        Some(name) => {
            let behind = tree.later_siblings(name);
            match tree.find_named(behind.as_slice()) {
                None => false,
                Some(next) => tree.kind(next) == Kind::BitfieldClause,
            }
        },
    }
}

fn add_field(tree: &SyntaxTree, symbol: &SymbolDef, values: &mut Vec<CppValueType>)
    ensures
        views(final(values)@) == views(old(values)@) + field_rows(*tree, *symbol),
{
    let ghost before = values@;
    if symbol.kind == SymbolKind::Field {
        if let Some((declaration, declared_type)) = value_type(tree, symbol.name_range) {
            let item = CppValueType {
                binding_id: None,
                symbol_id: Some(symbol.id),
                mutable_: find_word(tree, tree.children(declaration), "mutable".as_bytes()),
                bit_field: bit_field(tree, symbol.name_range),
                capture_required: false,
                declared_type,
                initializer_call: None,
                lookup_scope: Text::from_bytes(owner(symbol.qualified_name.as_bytes())),
                declaration_range: tree.range(declaration),
            };
            values.push(item);
            proof {
                lemma_push_view(before, item);
            }
        }
    }
    assert(views(values@) =~= views(before) + field_rows(*tree, *symbol));
}

fn add_callable(
    tree: &SyntaxTree,
    symbol: &SymbolDef,
    symbols: &[SymbolDef],
    callables: &mut Vec<CppCallableDeclaration>,
)
    ensures
        views(final(callables)@) == views(old(callables)@) + callable_rows(
            *tree,
            *symbol,
            symbols@,
        ),
{
    let ghost before = callables@;
    if matches!(symbol.kind, SymbolKind::Function | SymbolKind::Method) && node(
        tree,
        symbol,
    ).is_none() && symbol_supported(tree, symbol, symbols) {
        if let Some(callable) = extract_callable(tree, symbol) {
            callables.push(callable);
            proof {
                lemma_push_view(before, callable);
            }
        }
    }
    assert(views(callables@) =~= views(before) + callable_rows(*tree, *symbol, symbols@));
}

fn add_unverified(
    tree: &SyntaxTree,
    symbol: &SymbolDef,
    symbols: &[SymbolDef],
    scopes: &mut Vec<SymbolId>,
)
    ensures
        final(scopes)@ == old(scopes)@ + unverified_rows(*tree, *symbol, symbols@),
{
    if matches!(symbol.kind, SymbolKind::Function | SymbolKind::Method) {
        if !symbol_supported(tree, symbol, symbols) {
            scopes.push(symbol.id);
        }
    } else if let Some(n) = find_record_node(tree, symbol) {
        if tree.child_by_field(n, Field::Body).is_some() && !record_scope_supported(tree, n) {
            scopes.push(symbol.id);
        }
    }
    assert(scopes@ =~= old(scopes)@ + unverified_rows(*tree, *symbol, symbols@));
}

fn add_symbols<F: Fn() -> bool>(
    tree: &SyntaxTree,
    symbols: &[SymbolDef],
    cancel: &F,
    result: &mut CppFileTypes,
) -> (r: bool)
    requires
        call_requires(*cancel, ()),
    ensures
        r ==> final(result)@ == with_symbols(*tree, symbols@, symbols@.len(), old(result)@),
        !r ==> call_ensures(*cancel, (), true),
        r && symbols@.len() > 0 ==> call_ensures(*cancel, (), false),
{
    let ghost start = result@;
    let mut i: usize = 0;
    while i < symbols.len()
        invariant
            i <= symbols@.len(),
            call_requires(*cancel, ()),
            i > 0 ==> call_ensures(*cancel, (), false),
            result@ == with_symbols(*tree, symbols@, i as nat, start),
        decreases symbols@.len() - i,
    {
        if cancel() {
            return false;
        }
        let symbol = &symbols[i];
        let ghost before = result@;
        add_alias(tree, symbol, &mut result.aliases);
        add_unverified(tree, symbol, symbols, &mut result.unverified_callable_scopes);
        add_callable(tree, symbol, symbols, &mut result.callables);
        add_record(tree, symbol, &mut result.records);
        add_field(tree, symbol, &mut result.values);
        assert(result@ =~= with_symbol(*tree, symbols@, *symbol, before));
        i += 1;
    }
    true
}

fn find_loses_this(tree: &SyntaxTree, from: usize) -> (r: bool)
    ensures
        r == loses_this(*tree, from),
{
    let mut n: usize = from;
    loop
        invariant
            loses_this(*tree, from) == loses_this(*tree, n),
        decreases n,
    {
        match tree.kind(n) {
            Kind::FunctionDefinition | Kind::ClassSpecifier | Kind::StructSpecifier => {
                return false;
            },
            Kind::LambdaExpression => {
                if !captures_this(tree, n) {
                    return true;
                }
            },
            _ => {},
        }
        match tree.parent(n) {
            None => {
                return false;
            },
            Some(above) => {
                n = above;
            },
        }
    }
}

fn add_cut_off<F: Fn() -> bool>(
    tree: &SyntaxTree,
    references: &[ReferenceUse],
    cancel: &F,
    found: &mut Vec<ReferenceId>,
) -> (r: bool)
    requires
        call_requires(*cancel, ()),
    ensures
        r ==> final(found)@ == old(found)@ + cut_off(*tree, references@),
        !r ==> call_ensures(*cancel, (), true),
        r && references@.len() > 0 ==> call_ensures(*cancel, (), false),
{
    let ghost start = found@;
    let mut i: usize = 0;
    assert(found@ =~= start + cut_off(*tree, references@.take(0)));
    while i < references.len()
        invariant
            i <= references@.len(),
            call_requires(*cancel, ()),
            i > 0 ==> call_ensures(*cancel, (), false),
            found@ == start + cut_off(*tree, references@.take(i as int)),
        decreases references@.len() - i,
    {
        assert(references@.take(i + 1).drop_last() =~= references@.take(i as int));
        if cancel() {
            return false;
        }
        let reference = &references[i];
        let cut = reference.kind == ReferenceKind::Call && match at(tree, reference.range) {
            None => false,
            Some(n) => find_loses_this(tree, n),
        };
        if cut {
            found.push(reference.id);
            assert(found@ =~= start + cut_off(*tree, references@.take(i as int)).push(
                reference.id,
            ));
        }
        i += 1;
    }
    assert(references@.take(i as int) =~= references@);
    true
}

fn find_recorded(
    range: TextRange,
    callables: &[CppCallableDeclaration],
    symbols: &[SymbolDef],
) -> (r: bool)
    ensures
        r == exists|i: int, j: int|
            0 <= i < callables@.len() && 0 <= j < symbols@.len() && #[trigger] is_recorded_in(
                range,
                views(callables@)[i],
                symbols@[j],
            ),
{
    let ghost all = views(callables@);
    let mut i: usize = 0;
    while i < callables.len()
        invariant
            i <= callables@.len(),
            all == views(callables@),
            forall|k: int, j: int|
                0 <= k < i && 0 <= j < symbols@.len() ==> !#[trigger] is_recorded_in(
                    range,
                    all[k],
                    symbols@[j],
                ),
        decreases callables@.len() - i,
    {
        let mut j: usize = 0;
        while j < symbols.len()
            invariant
                i < callables@.len(),
                j <= symbols@.len(),
                all == views(callables@),
                forall|m: int|
                    0 <= m < j ==> !#[trigger] is_recorded_in(range, all[i as int], symbols@[m]),
            decreases symbols@.len() - j,
        {
            assert(all[i as int] == callables@[i as int]@);
            if callables[i].template_parameters.is_some() && symbols[j].id.same(
                &callables[i].symbol_id,
            ) && range.contains_range(&symbols[j].name_range) {
                assert(is_recorded_in(range, all[i as int], symbols@[j as int]));
                return true;
            }
            j += 1;
        }
        i += 1;
    }
    false
}

fn keep_open_limits(
    tree: &SyntaxTree,
    symbols: &[SymbolDef],
    callables: &[CppCallableDeclaration],
    limits: &[CppLookupLimit],
) -> (r: Vec<CppLookupLimit>)
    ensures
        views(r@) == open_limits(*tree, symbols@, views(callables@), views(limits@)),
{
    let ghost all = views(limits@);
    let ghost recorded = views(callables@);
    let ghost keep = |l: LookupLimitView| !is_discharged(*tree, symbols@, recorded, l);
    let mut kept: Vec<CppLookupLimit> = Vec::new();
    let mut i: usize = 0;
    assert(views(kept@) =~= all.take(0).filter(keep)) by {
        reveal(Seq::filter);
    }
    while i < limits.len()
        invariant
            i <= limits@.len(),
            all == views(limits@),
            recorded == views(callables@),
            keep == (|l: LookupLimitView| !is_discharged(*tree, symbols@, recorded, l)),
            views(kept@) == all.take(i as int).filter(keep),
        decreases limits@.len() - i,
    {
        proof {
            crate::collections::lemma_filter_step(all, keep, i as int);
        }
        assert(all[i as int] == limits@[i as int]@);
        let range = limits[i].declaration_range;
        let discharged = match at(tree, range) {
            None => false,
            Some(n) => tree.kind(n) == Kind::TemplateDeclaration && find_recorded(
                range,
                callables,
                symbols,
            ),
        };
        assert(discharged == is_discharged(*tree, symbols@, recorded, all[i as int]));
        if !discharged {
            let item = copy_limit(&limits[i]);
            let ghost before = kept@;
            kept.push(item);
            proof {
                lemma_push_view(before, item);
            }
        }
        i += 1;
    }
    assert(all.take(i as int) =~= all);
    kept
}

/// Add what the symbols, bindings and references of a file say; says whether it was not
/// canceled.
fn collect<F: Fn() -> bool>(
    tree: &SyntaxTree,
    facts: &FileFacts,
    cancel: &F,
    result: &mut CppFileTypes,
) -> (r: bool)
    requires
        call_requires(*cancel, ()),
    ensures
        r ==> final(result)@ == collected(*tree, *facts, old(result)@),
        !r ==> call_ensures(*cancel, (), true),
        r && facts.is_listed() ==> call_ensures(*cancel, (), false),
{
    let ghost seen = result@;
    if !add_template_calls(tree, facts.references.as_slice(), cancel, &mut result.template_calls) {
        return false;
    }
    if !add_arguments(tree, facts.calls.as_slice(), cancel, &mut result.arguments) {
        return false;
    }
    let limits = order_limits(result.lookup_limits.as_slice());
    result.lookup_limits = limits;
    let names = order_names(result.specialized_templates.as_slice());
    result.specialized_templates = names;
    if !add_bindings(tree, facts, cancel, &mut result.values) {
        return false;
    }
    if !add_symbols(tree, facts.symbols.as_slice(), cancel, result) {
        return false;
    }
    if !add_cut_off(
        tree,
        facts.references.as_slice(),
        cancel,
        &mut result.this_capture_unavailable,
    ) {
        return false;
    }
    let limits = keep_open_limits(
        tree,
        facts.symbols.as_slice(),
        result.callables.as_slice(),
        result.lookup_limits.as_slice(),
    );
    result.lookup_limits = limits;
    true
}

/// Record everything of the declarations of a file. Nothing comes back where the tree
/// does not lie in its text, or where it was canceled: that is asked at every node, and
/// at every reference, call, binding and symbol.
pub fn extract<F: Fn() -> bool>(tree: &SyntaxTree, facts: &FileFacts, cancel: &F) -> (r: Option<
    CppFileTypes,
>)
    requires
        call_requires(*cancel, ()),
    ensures
        match r {
            None => types_of(*tree, *facts) is None || call_ensures(*cancel, (), true),
            Some(types) => types_of(*tree, *facts) == Some(types@) && call_ensures(
                *cancel,
                (),
                false,
            ),
        },
{
    let registry = SymbolRegistry::new(
        facts.symbols.as_slice(),
        facts.scopes.as_slice(),
        caller_initializers(tree, facts.symbols.as_slice()),
    );
    let mut result = CppFileTypes::default();
    let count: usize = tree.len();
    let mut n: usize = 0;
    while n < count
        invariant
            n <= count == tree.count(),
            call_requires(*cancel, ()),
            n > 0 ==> call_ensures(*cancel, (), false),
            registry@ == registry_of(*tree, *facts),
            result@ == walked(*tree, *facts, registry@, n as nat),
            forall|k: usize| k < n ==> !#[trigger] is_broken(*tree, k),
        decreases count - n,
    {
        if cancel() {
            return None;
        }
        if !add_node(tree, facts, &registry, n, &mut result) {
            assert(is_broken(*tree, n));
            return None;
        }
        n += 1;
    }
    if collect(tree, facts, cancel, &mut result) {
        Some(result)
    } else {
        None
    }
}

/// Whether limits stand in the order in which they start.
pub open spec fn starts_ascend(limits: Seq<LookupLimitView>) -> bool {
    forall|i: int, j: int|
        0 <= i <= j < limits.len() ==> (#[trigger] limits[i]).declaration_range.start_byte <= (
        #[trigger] limits[j]).declaration_range.start_byte
}

proof fn lemma_in_order_ascends(limits: Seq<LookupLimitView>)
    ensures
        starts_ascend(in_order(limits, start_keys(limits))),
{
    let keys = start_keys(limits);
    let rows = ordered_rows(keys, limits.len());
    crate::collections::ordered_rows_is_sorted(keys, limits.len());
    crate::collections::ordered_rows_is_a_permutation(keys, limits.len());
    let sorted = in_order(limits, keys);
    assert forall|i: int, j: int| 0 <= i <= j < sorted.len() implies (
    #[trigger] sorted[i]).declaration_range.start_byte <= (
    #[trigger] sorted[j]).declaration_range.start_byte by {
        let a = limits[rows[i]].declaration_range.start_byte as u128;
        let b = limits[rows[j]].declaration_range.start_byte as u128;
        assert(keys[rows[i]] == seq![a]);
        assert(keys[rows[j]] == seq![b]);
        assert(crate::collections::key_at_most(seq![a], seq![b]));
        assert(seq![a][0] == a && seq![b][0] == b);
    }
}

proof fn lemma_repeats_ascend(limits: Seq<LookupLimitView>)
    requires
        starts_ascend(limits),
    ensures
        starts_ascend(without_repeats(limits)),
        limits.len() > 0 ==> without_repeats(limits).len() > 0 && without_repeats(limits).last()
            == limits.last(),
    decreases limits.len(),
{
    if limits.len() > 0 {
        let shorter = limits.drop_last();
        assert(starts_ascend(shorter));
        lemma_repeats_ascend(shorter);
        if limits.len() >= 2 {
            let before = without_repeats(shorter);
            assert(before.last() == limits[limits.len() - 2]);
            assert(limits[limits.len() - 2].declaration_range.start_byte
                <= limits[limits.len() - 1].declaration_range.start_byte);
        }
    }
}

proof fn lemma_filter_ascends(
    limits: Seq<LookupLimitView>,
    keep: spec_fn(LookupLimitView) -> bool,
    bound: u32,
)
    requires
        starts_ascend(limits),
        forall|i: int|
            0 <= i < limits.len() ==> (#[trigger] limits[i]).declaration_range.start_byte <= bound,
    ensures
        starts_ascend(limits.filter(keep)),
        forall|i: int|
            0 <= i < limits.filter(keep).len() ==> (#[trigger] limits.filter(
                keep,
            )[i]).declaration_range.start_byte <= bound,
    decreases limits.len(),
{
    reveal(Seq::filter);
    if limits.len() > 0 {
        let shorter = limits.drop_last();
        let last = limits.last().declaration_range.start_byte;
        assert(last == limits[limits.len() - 1].declaration_range.start_byte);
        assert(starts_ascend(shorter));
        assert forall|i: int| 0 <= i < shorter.len() implies (
        #[trigger] shorter[i]).declaration_range.start_byte <= last by {
            assert(shorter[i] == limits[i]);
        }
        lemma_filter_ascends(shorter, keep, last);
    }
}

/// The limits of a file stand in the order in which they start.
pub proof fn limits_stand_in_order(tree: SyntaxTree, facts: FileFacts, seen: FileTypesView)
    ensures
        starts_ascend(collected(tree, facts, seen).lookup_limits),
{
    let symbols = facts.symbols@;
    let first = FileTypesView {
        template_calls: seen.template_calls + template_calls_in(tree, facts.references@),
        arguments: seen.arguments + arguments_in(tree, facts.calls@),
        lookup_limits: ordered_limits(seen.lookup_limits),
        specialized_templates: sorted_names(seen.specialized_templates),
        values: seen.values + binding_values(tree, facts, facts.bindings@),
        ..seen
    };
    let all = with_symbols(tree, symbols, symbols.len(), first);
    lemma_symbols_keep_limits(tree, symbols, symbols.len(), first);
    lemma_in_order_ascends(seen.lookup_limits);
    lemma_repeats_ascend(in_order(seen.lookup_limits, start_keys(seen.lookup_limits)));
    lemma_filter_ascends(
        all.lookup_limits,
        |l: LookupLimitView| !is_discharged(tree, symbols, all.callables, l),
        u32::MAX,
    );
}

/// Whether no two neighbors are equal.
pub open spec fn neighbors_differ<T>(items: Seq<T>) -> bool {
    forall|i: int| 0 < i < items.len() ==> items[i - 1] != #[trigger] items[i]
}

proof fn lemma_repeats_differ<T>(items: Seq<T>)
    ensures
        neighbors_differ(without_repeats(items)),
        items.len() > 0 ==> without_repeats(items).len() > 0 && without_repeats(items).last()
            == items.last(),
    decreases items.len(),
{
    if items.len() > 0 {
        lemma_repeats_differ(items.drop_last());
    }
}

proof fn lemma_all_kept<T>(items: Seq<T>, keep: spec_fn(T) -> bool)
    requires
        forall|i: int| 0 <= i < items.len() ==> keep(#[trigger] items[i]),
    ensures
        items.filter(keep) == items,
    decreases items.len(),
{
    reveal(Seq::filter);
    if items.len() > 0 {
        assert(keep(items[items.len() - 1]));
        assert forall|i: int| 0 <= i < items.drop_last().len() implies keep(
            #[trigger] items.drop_last()[i],
        ) by {
            assert(keep(items[i]));
        }
        lemma_all_kept(items.drop_last(), keep);
        assert(items.drop_last().push(items.last()) =~= items);
    } else {
        assert(items.filter(keep) =~= items);
    }
}

/// Of equal limits that stand next to each other only one is listed. Two equal ones can
/// come to stand next to each other only where a limit was left out that the callables of
/// the file discharge.
pub proof fn equal_limits_do_not_stand_together(
    tree: SyntaxTree,
    facts: FileFacts,
    seen: FileTypesView,
)
    ensures
        neighbors_differ(ordered_limits(seen.lookup_limits)),
        neighbors_differ(collected(tree, facts, seen).lookup_limits) || exists|i: int|
            0 <= i < ordered_limits(seen.lookup_limits).len() && is_discharged(
                tree,
                facts.symbols@,
                collected(tree, facts, seen).callables,
                #[trigger] ordered_limits(seen.lookup_limits)[i],
            ),
{
    let symbols = facts.symbols@;
    let first = FileTypesView {
        template_calls: seen.template_calls + template_calls_in(tree, facts.references@),
        arguments: seen.arguments + arguments_in(tree, facts.calls@),
        lookup_limits: ordered_limits(seen.lookup_limits),
        specialized_templates: sorted_names(seen.specialized_templates),
        values: seen.values + binding_values(tree, facts, facts.bindings@),
        ..seen
    };
    let all = with_symbols(tree, symbols, symbols.len(), first);
    lemma_symbols_keep_limits(tree, symbols, symbols.len(), first);
    lemma_repeats_differ(in_order(seen.lookup_limits, start_keys(seen.lookup_limits)));
    let keep = |l: LookupLimitView| !is_discharged(tree, symbols, all.callables, l);
    if forall|i: int| 0 <= i < all.lookup_limits.len() ==> keep(#[trigger] all.lookup_limits[i]) {
        lemma_all_kept(all.lookup_limits, keep);
    }
}

proof fn lemma_symbols_keep_limits(
    tree: SyntaxTree,
    symbols: Seq<SymbolDef>,
    count: nat,
    before: FileTypesView,
)
    ensures
        with_symbols(tree, symbols, count, before).lookup_limits == before.lookup_limits,
        with_symbols(tree, symbols, count, before).specialized_templates
            == before.specialized_templates,
    decreases count,
{
    if count > 0 && count <= symbols.len() {
        lemma_symbols_keep_limits(tree, symbols, (count - 1) as nat, before);
    }
}

/// The specialized templates of a file stand in order, each once, and none is lost.
pub proof fn specialized_templates_stand_in_order(
    tree: SyntaxTree,
    facts: FileFacts,
    seen: FileTypesView,
)
    ensures
        crate::cpp_member_macros::is_sorted(collected(tree, facts, seen).specialized_templates),
        forall|name: Seq<u8>| #[trigger]
            collected(tree, facts, seen).specialized_templates.contains(name)
                <==> seen.specialized_templates.contains(name),
{
    let symbols = facts.symbols@;
    let first = FileTypesView {
        template_calls: seen.template_calls + template_calls_in(tree, facts.references@),
        arguments: seen.arguments + arguments_in(tree, facts.calls@),
        lookup_limits: ordered_limits(seen.lookup_limits),
        specialized_templates: sorted_names(seen.specialized_templates),
        values: seen.values + binding_values(tree, facts, facts.bindings@),
        ..seen
    };
    lemma_symbols_keep_limits(tree, symbols, symbols.len(), first);
    crate::cpp_member_macros::sorting_keeps_names(seen.specialized_templates);
}

/// A symbol whose callable is recorded is not among the scopes that cannot be trusted.
pub proof fn a_recorded_callable_is_verified(
    tree: SyntaxTree,
    symbol: SymbolDef,
    symbols: Seq<SymbolDef>,
)
    requires
        callable_rows(tree, symbol, symbols).len() > 0,
    ensures
        unverified_rows(tree, symbol, symbols).len() == 0,
{
}

} // verus!
