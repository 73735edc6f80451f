//! What is recorded of C++ declarations beside the symbols.

use crate::facts::TextRange;
use crate::ids::{BindingId, ReferenceId, SymbolId};
use crate::text::{optional_bytes, same_bytes, Text};
use vstd::prelude::*;

verus! {

/// The views of values.
pub open spec fn views<T: View>(items: Seq<T>) -> Seq<T::V> {
    items.map_values(|item: T| item@)
}

/// The view of a value that may be absent.
pub open spec fn optional_view<T: View>(item: Option<T>) -> Option<T::V> {
    match item {
        None => None,
        Some(value) => Some(value@),
    }
}

/// The views of values that may be absent.
pub open spec fn optional_views<T: View>(items: Seq<Option<T>>) -> Seq<Option<T::V>> {
    items.map_values(|item: Option<T>| optional_view(item))
}

/// The views of the values of a list that may be absent.
pub open spec fn optional_list<T: View>(items: Option<Vec<T>>) -> Option<Seq<T::V>> {
    match items {
        None => None,
        Some(list) => Some(views(list@)),
    }
}

/// The bytes of texts that may be absent.
pub open spec fn optional_texts(items: Option<Vec<Text>>) -> Option<Seq<Seq<u8>>> {
    match items {
        None => None,
        Some(list) => Some(text_views(list@)),
    }
}

/// The views with one more value.
pub proof fn lemma_push_view<T: View>(items: Seq<T>, item: T)
    ensures
        views(items.push(item)) == views(items).push(item@),
{
    assert(views(items.push(item)) =~= views(items).push(item@));
}

/// The bytes with one more text.
pub proof fn lemma_push_text(items: Seq<Text>, item: Text)
    ensures
        text_views(items.push(item)) == text_views(items).push(item@),
{
    assert(text_views(items.push(item)) =~= text_views(items).push(item@));
}

/// A type as it is written: a name with template arguments, and whether it is a
/// pointer, a reference, constant or volatile.
#[derive(Debug)]
pub struct CppDeclaredType {
    pub name: Text,
    pub template_arguments: Vec<CppDeclaredType>,
    pub pointer: bool,
    pub reference: bool,
    pub const_: bool,
    pub volatile: bool,
}

/// What a declared type says, by value.
#[verifier::ext_equal]
pub struct DeclaredTypeView {
    pub name: Seq<u8>,
    pub template_arguments: Seq<DeclaredTypeView>,
    pub pointer: bool,
    pub reference: bool,
    pub const_: bool,
    pub volatile: bool,
}

/// What a declared type says.
pub open spec fn declared_view(ty: CppDeclaredType) -> DeclaredTypeView
    decreases ty,
{
    DeclaredTypeView {
        name: ty.name@,
        template_arguments: Seq::new(
            ty.template_arguments@.len(),
            |i: int|
                if 0 <= i < ty.template_arguments@.len() {
                    declared_view(ty.template_arguments@[i])
                } else {
                    arbitrary()
                },
        ),
        pointer: ty.pointer,
        reference: ty.reference,
        const_: ty.const_,
        volatile: ty.volatile,
    }
}

impl View for CppDeclaredType {
    type V = DeclaredTypeView;

    open spec fn view(&self) -> DeclaredTypeView {
        declared_view(*self)
    }
}

/// How a closure captures.
#[derive(Clone, Copy, PartialEq, Eq, Structural, Debug, Hash)]
pub enum CppCaptureKind {
    Copy,
    Reference,
    Unknown,
}

/// A written argument.
#[derive(Debug)]
pub enum CppArgumentExpression {
    Unknown,
    Name { name: Text },
    Literal { text: Text },
    Field { object: Box<CppArgumentExpression>, name: Text, arrow: bool },
    Binary { operator: Text, left: Box<CppArgumentExpression>, right: Box<CppArgumentExpression> },
}

/// What a written argument says, by value.
pub enum ArgumentExpressionView {
    Unknown,
    Name { name: Seq<u8> },
    Literal { text: Seq<u8> },
    Field { object: Box<ArgumentExpressionView>, name: Seq<u8>, arrow: bool },
    Binary {
        operator: Seq<u8>,
        left: Box<ArgumentExpressionView>,
        right: Box<ArgumentExpressionView>,
    },
}

/// What a written argument says.
pub open spec fn argument_view(argument: CppArgumentExpression) -> ArgumentExpressionView
    decreases argument,
{
    match argument {
        CppArgumentExpression::Unknown => ArgumentExpressionView::Unknown,
        CppArgumentExpression::Name { name } => ArgumentExpressionView::Name { name: name@ },
        CppArgumentExpression::Literal { text } => ArgumentExpressionView::Literal { text: text@ },
        CppArgumentExpression::Field { object, name, arrow } => ArgumentExpressionView::Field {
            object: Box::new(argument_view(*object)),
            name: name@,
            arrow,
        },
        CppArgumentExpression::Binary { operator, left, right } => ArgumentExpressionView::Binary {
            operator: operator@,
            left: Box::new(argument_view(*left)),
            right: Box::new(argument_view(*right)),
        },
    }
}

impl View for CppArgumentExpression {
    type V = ArgumentExpressionView;

    open spec fn view(&self) -> ArgumentExpressionView {
        argument_view(*self)
    }
}

/// Where in a declaration an annotation stands.
#[derive(Clone, Copy, PartialEq, Eq, Structural, Debug, Hash)]
pub enum CppAnnotationPosition {
    ClassPrefix,
    DeclarationPrefix,
    CallableSuffix,
    LambdaSuffix,
    DataSuffix,
}

/// An expression that allocates.
#[derive(Clone, Copy, PartialEq, Eq, Structural, Debug, Hash)]
pub struct CppAllocationSite {
    pub range: TextRange,
    pub source_symbol: Option<SymbolId>,
}

/// The definitions of a macro that are visible at a use.
#[derive(Debug)]
pub struct CppMacroAlternatives {
    pub name: Text,
    pub alternatives: Vec<CppMacroDefinition>,
}

/// A macro definition, or an `#undef`, which has no replacement. A definition whose
/// replacement is not known has none either.
#[derive(Debug)]
pub struct CppMacroDefinition {
    pub name: Text,
    pub parameters: Option<Vec<Text>>,
    pub variadic: bool,
    pub replacement: Option<Text>,
    pub range: TextRange,
}

/// What a `CppMacroDefinition` says, by value.
#[verifier::ext_equal]
pub struct MacroDefinitionView {
    pub name: Seq<u8>,
    pub parameters: Option<Seq<Seq<u8>>>,
    pub variadic: bool,
    pub replacement: Option<Seq<u8>>,
    pub range: TextRange,
}

impl View for CppMacroDefinition {
    type V = MacroDefinitionView;

    open spec fn view(&self) -> MacroDefinitionView {
        MacroDefinitionView {
            name: self.name@,
            parameters: optional_texts(self.parameters),
            variadic: self.variadic,
            replacement: optional_bytes(self.replacement),
            range: self.range,
        }
    }
}

/// A macro invocation among the members of a class.
#[derive(Debug)]
pub struct CppMemberMacro {
    pub scope: Text,
    pub name: Text,
    pub text: Text,
    pub range: TextRange,
}

/// What a `CppMemberMacro` says, by value.
#[verifier::ext_equal]
pub struct MemberMacroView {
    pub scope: Seq<u8>,
    pub name: Seq<u8>,
    pub text: Seq<u8>,
    pub range: TextRange,
}

impl View for CppMemberMacro {
    type V = MemberMacroView;

    open spec fn view(&self) -> MemberMacroView {
        MemberMacroView {
            scope: self.scope@,
            name: self.name@,
            text: self.text@,
            range: self.range,
        }
    }
}

/// A token, or an invocation, that may be an annotation.
#[derive(Debug)]
pub struct CppAnnotationToken {
    pub name: Text,
    pub text: Text,
    pub range: TextRange,
    pub position: CppAnnotationPosition,
}

/// What a `CppAnnotationToken` says, by value.
#[verifier::ext_equal]
pub struct AnnotationTokenView {
    pub name: Seq<u8>,
    pub text: Seq<u8>,
    pub range: TextRange,
    pub position: CppAnnotationPosition,
}

impl View for CppAnnotationToken {
    type V = AnnotationTokenView;

    open spec fn view(&self) -> AnnotationTokenView {
        AnnotationTokenView {
            name: self.name@,
            text: self.text@,
            range: self.range,
            position: self.position,
        }
    }
}

/// A base class as it is written.
#[derive(Debug)]
pub struct CppBaseClass {
    pub declared_type: CppDeclaredType,
    pub virtual_: bool,
    pub range: TextRange,
}

/// What a `CppBaseClass` says, by value.
#[verifier::ext_equal]
pub struct BaseClassView {
    pub declared_type: DeclaredTypeView,
    pub virtual_: bool,
    pub range: TextRange,
}

impl View for CppBaseClass {
    type V = BaseClassView;

    open spec fn view(&self) -> BaseClassView {
        BaseClassView {
            declared_type: self.declared_type@,
            virtual_: self.virtual_,
            range: self.range,
        }
    }
}

/// A class.
#[derive(Debug)]
pub struct CppRecordType {
    pub symbol_id: SymbolId,
    pub is_definition: bool,
    pub bases: Option<Vec<CppBaseClass>>,
    pub identity_supported: bool,
    pub lookup_supported: bool,
    pub template_parameters: Option<Vec<Text>>,
}

/// What a `CppRecordType` says, by value.
#[verifier::ext_equal]
pub struct RecordTypeView {
    pub symbol_id: SymbolId,
    pub is_definition: bool,
    pub bases: Option<Seq<BaseClassView>>,
    pub identity_supported: bool,
    pub lookup_supported: bool,
    pub template_parameters: Option<Seq<Seq<u8>>>,
}

impl View for CppRecordType {
    type V = RecordTypeView;

    open spec fn view(&self) -> RecordTypeView {
        RecordTypeView {
            symbol_id: self.symbol_id,
            is_definition: self.is_definition,
            bases: optional_list(self.bases),
            identity_supported: self.identity_supported,
            lookup_supported: self.lookup_supported,
            template_parameters: optional_texts(self.template_parameters),
        }
    }
}

/// A variable, parameter or field.
#[derive(Debug)]
pub struct CppValueType {
    pub binding_id: Option<BindingId>,
    pub symbol_id: Option<SymbolId>,
    pub mutable_: bool,
    pub bit_field: bool,
    pub capture_required: bool,
    pub declared_type: Option<CppDeclaredType>,
    pub initializer_call: Option<ReferenceId>,
    pub lookup_scope: Text,
    pub declaration_range: TextRange,
}

/// What a `CppValueType` says, by value.
#[verifier::ext_equal]
pub struct ValueTypeView {
    pub binding_id: Option<BindingId>,
    pub symbol_id: Option<SymbolId>,
    pub mutable_: bool,
    pub bit_field: bool,
    pub capture_required: bool,
    pub declared_type: Option<DeclaredTypeView>,
    pub initializer_call: Option<ReferenceId>,
    pub lookup_scope: Seq<u8>,
    pub declaration_range: TextRange,
}

impl View for CppValueType {
    type V = ValueTypeView;

    open spec fn view(&self) -> ValueTypeView {
        ValueTypeView {
            binding_id: self.binding_id,
            symbol_id: self.symbol_id,
            mutable_: self.mutable_,
            bit_field: self.bit_field,
            capture_required: self.capture_required,
            declared_type: optional_view(self.declared_type),
            initializer_call: self.initializer_call,
            lookup_scope: self.lookup_scope@,
            declaration_range: self.declaration_range,
        }
    }
}

/// A type alias.
#[derive(Debug)]
pub struct CppTypeAlias {
    pub symbol_id: SymbolId,
    pub target_range: TextRange,
    pub target: Option<CppDeclaredType>,
}

/// What a `CppTypeAlias` says, by value.
#[verifier::ext_equal]
pub struct TypeAliasView {
    pub symbol_id: SymbolId,
    pub target_range: TextRange,
    pub target: Option<DeclaredTypeView>,
}

impl View for CppTypeAlias {
    type V = TypeAliasView;

    open spec fn view(&self) -> TypeAliasView {
        TypeAliasView {
            symbol_id: self.symbol_id,
            target_range: self.target_range,
            target: optional_view(self.target),
        }
    }
}

/// A callable with its written parameters.
#[derive(Debug)]
pub struct CppCallableDeclaration {
    pub symbol_id: SymbolId,
    pub template_parameters: Option<Vec<Text>>,
    pub parameter_types: Vec<Text>,
    pub parameter_declared_types: Vec<Option<CppDeclaredType>>,
    pub minimum_arity: usize,
    pub qualifiers: Text,
    pub is_virtual: bool,
    pub internal_linkage: bool,
    pub return_type: Option<CppDeclaredType>,
}

/// What a `CppCallableDeclaration` says, by value.
#[verifier::ext_equal]
pub struct CallableDeclarationView {
    pub symbol_id: SymbolId,
    pub template_parameters: Option<Seq<Seq<u8>>>,
    pub parameter_types: Seq<Seq<u8>>,
    pub parameter_declared_types: Seq<Option<DeclaredTypeView>>,
    pub minimum_arity: usize,
    pub qualifiers: Seq<u8>,
    pub is_virtual: bool,
    pub internal_linkage: bool,
    pub return_type: Option<DeclaredTypeView>,
}

impl View for CppCallableDeclaration {
    type V = CallableDeclarationView;

    open spec fn view(&self) -> CallableDeclarationView {
        CallableDeclarationView {
            symbol_id: self.symbol_id,
            template_parameters: optional_texts(self.template_parameters),
            parameter_types: text_views(self.parameter_types@),
            parameter_declared_types: optional_views(self.parameter_declared_types@),
            minimum_arity: self.minimum_arity,
            qualifiers: self.qualifiers@,
            is_virtual: self.is_virtual,
            internal_linkage: self.internal_linkage,
            return_type: optional_view(self.return_type),
        }
    }
}

/// A scope in which names may be introduced that are not recorded: one name, or any.
#[derive(Debug)]
pub struct CppLookupLimit {
    pub scope: Text,
    pub name: Option<Text>,
    pub declaration_range: TextRange,
    pub block_range: Option<TextRange>,
}

/// What a `CppLookupLimit` says, by value.
#[verifier::ext_equal]
pub struct LookupLimitView {
    pub scope: Seq<u8>,
    pub name: Option<Seq<u8>>,
    pub declaration_range: TextRange,
    pub block_range: Option<TextRange>,
}

impl View for CppLookupLimit {
    type V = LookupLimitView;

    open spec fn view(&self) -> LookupLimitView {
        LookupLimitView {
            scope: self.scope@,
            name: optional_bytes(self.name),
            declaration_range: self.declaration_range,
            block_range: self.block_range,
        }
    }
}

/// A closure with its written captures.
#[derive(Debug)]
pub struct CppLambdaCapture {
    pub symbol_id: Option<SymbolId>,
    pub enclosing_symbol: Option<SymbolId>,
    pub binding_id: Option<BindingId>,
    pub binding_const: bool,
    pub parameter_count: Option<u32>,
    pub range: TextRange,
    pub body_range: TextRange,
    pub default: Option<CppCaptureKind>,
    pub captures: Option<Vec<CppCapture>>,
    pub mutable_: bool,
}

/// What a `CppLambdaCapture` says, by value.
#[verifier::ext_equal]
pub struct LambdaCaptureView {
    pub symbol_id: Option<SymbolId>,
    pub enclosing_symbol: Option<SymbolId>,
    pub binding_id: Option<BindingId>,
    pub binding_const: bool,
    pub parameter_count: Option<u32>,
    pub range: TextRange,
    pub body_range: TextRange,
    pub default: Option<CppCaptureKind>,
    pub captures: Option<Seq<CaptureView>>,
    pub mutable_: bool,
}

impl View for CppLambdaCapture {
    type V = LambdaCaptureView;

    open spec fn view(&self) -> LambdaCaptureView {
        LambdaCaptureView {
            symbol_id: self.symbol_id,
            enclosing_symbol: self.enclosing_symbol,
            binding_id: self.binding_id,
            binding_const: self.binding_const,
            parameter_count: self.parameter_count,
            range: self.range,
            body_range: self.body_range,
            default: self.default,
            captures: optional_list(self.captures),
            mutable_: self.mutable_,
        }
    }
}

/// A written capture.
#[derive(Debug)]
pub struct CppCapture {
    pub name: Text,
    pub kind: CppCaptureKind,
}

/// What a `CppCapture` says, by value.
#[verifier::ext_equal]
pub struct CaptureView {
    pub name: Seq<u8>,
    pub kind: CppCaptureKind,
}

impl View for CppCapture {
    type V = CaptureView;

    open spec fn view(&self) -> CaptureView {
        CaptureView {
            name: self.name@,
            kind: self.kind,
        }
    }
}

/// A call with written template arguments.
#[derive(Debug)]
pub struct CppTemplateCall {
    pub reference_id: ReferenceId,
    pub name: Text,
    pub text: Text,
    pub receiver: Option<Text>,
    pub name_range: TextRange,
    pub arguments_range: TextRange,
    /// The types that it names; none where one is not a type.
    pub arguments: Option<Vec<CppDeclaredType>>,
}

/// What a `CppTemplateCall` says, by value.
#[verifier::ext_equal]
pub struct TemplateCallView {
    pub reference_id: ReferenceId,
    pub name: Seq<u8>,
    pub text: Seq<u8>,
    pub receiver: Option<Seq<u8>>,
    pub name_range: TextRange,
    pub arguments_range: TextRange,
    pub arguments: Option<Seq<DeclaredTypeView>>,
}

impl View for CppTemplateCall {
    type V = TemplateCallView;

    open spec fn view(&self) -> TemplateCallView {
        TemplateCallView {
            reference_id: self.reference_id,
            name: self.name@,
            text: self.text@,
            receiver: optional_bytes(self.receiver),
            name_range: self.name_range,
            arguments_range: self.arguments_range,
            arguments: optional_list(self.arguments),
        }
    }
}

/// The written arguments of a call.
#[derive(Debug)]
pub struct CppCallArguments {
    pub reference_id: ReferenceId,
    pub arguments: Vec<CppArgumentExpression>,
}

/// What a `CppCallArguments` says, by value.
#[verifier::ext_equal]
pub struct CallArgumentsView {
    pub reference_id: ReferenceId,
    pub arguments: Seq<ArgumentExpressionView>,
}

impl View for CppCallArguments {
    type V = CallArgumentsView;

    open spec fn view(&self) -> CallArgumentsView {
        CallArgumentsView {
            reference_id: self.reference_id,
            arguments: views(self.arguments@),
        }
    }
}

/// Everything that is recorded of the C++ declarations of a file.
#[derive(Debug)]
pub struct CppFileTypes {
    pub allocation_sites: Vec<CppAllocationSite>,
    pub lambda_captures: Vec<CppLambdaCapture>,
    pub macros: Vec<CppMacroDefinition>,
    pub annotation_candidates: Vec<CppAnnotationToken>,
    pub member_macros: Vec<CppMemberMacro>,
    pub adl_limits: Vec<CppLookupLimit>,
    pub lookup_limits: Vec<CppLookupLimit>,
    pub specialized_templates: Vec<Text>,
    pub template_calls: Vec<CppTemplateCall>,
    pub arguments: Vec<CppCallArguments>,
    pub values: Vec<CppValueType>,
    pub aliases: Vec<CppTypeAlias>,
    pub unverified_callable_scopes: Vec<SymbolId>,
    pub callables: Vec<CppCallableDeclaration>,
    pub records: Vec<CppRecordType>,
    pub this_capture_unavailable: Vec<ReferenceId>,
}

/// The bytes of texts.
pub open spec fn text_views(items: Seq<Text>) -> Seq<Seq<u8>> {
    items.map_values(|item: Text| item@)
}

/// The definitions of a macro, where there is an entry for it.
pub open spec fn alternatives_of(
    definitions: Seq<CppMacroAlternatives>,
    name: Seq<u8>,
) -> Option<Seq<CppMacroDefinition>>
    decreases definitions.len(),
{
    if definitions.len() == 0 {
        None
    } else if definitions[0].name@ == name {
        Some(definitions[0].alternatives@)
    } else {
        alternatives_of(definitions.drop_first(), name)
    }
}

/// The definitions of a macro, where there is an entry for it.
pub fn find_alternatives<'a>(definitions: &'a [CppMacroAlternatives], name: &[u8]) -> (r: Option<
    &'a [CppMacroDefinition],
>)
    ensures
        match r {
            None => alternatives_of(definitions@, name@) is None,
            Some(list) => alternatives_of(definitions@, name@) == Some(list@),
        },
{
    let mut i: usize = 0;
    assert(definitions@.skip(0) =~= definitions@);
    while i < definitions.len()
        invariant
            i <= definitions@.len(),
            alternatives_of(definitions@, name@) == alternatives_of(
                definitions@.skip(i as int),
                name@,
            ),
        decreases definitions@.len() - i,
    {
        assert(definitions@.skip(i as int).drop_first() =~= definitions@.skip(i + 1));
        if same_bytes(definitions[i].name.as_bytes(), name) {
            return Some(definitions[i].alternatives.as_slice());
        }
        i += 1;
    }
    None
}

/// Whether a macro has an entry.
pub open spec fn is_defined(definitions: Seq<CppMacroAlternatives>, name: Seq<u8>) -> bool {
    alternatives_of(definitions, name) is Some
}

} // verus!
