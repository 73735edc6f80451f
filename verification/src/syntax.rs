//! Concrete syntax of C++ source, as plain rows.
//!
//! A tree lists its nodes in preorder, so a node comes before everything inside it.
//! Nodes are named by their row; rows that are not there have no parent, no
//! children and no text.

use crate::collections::lemma_filter_step;
use crate::facts::TextRange;
use crate::text::{copy_bytes, same_bytes};
use tree_sitter::{InputEdit, Parser, Point, Tree};
use tree_sitter_cpp::LANGUAGE;
use vstd::prelude::*;
use vstd::string::StringSliceAdditionalSpecFns;

verus! {

/// What a node is. Nodes that no rule speaks of are `Other`.
#[derive(Clone, Copy, PartialEq, Eq, Structural, Debug, Hash)]
pub enum Kind {
    AbstractFunctionDeclarator,
    AbstractPointerDeclarator,
    AbstractReferenceDeclarator,
    AccessSpecifier,
    AliasDeclaration,
    ArgumentList,
    ArrayDeclarator,
    Assignment,
    AssignmentExpression,
    Attribute,
    AttributeDeclaration,
    AttributeSpecifier,
    AugmentedAssignment,
    Auto,
    BaseClassClause,
    BinaryExpression,
    BitfieldClause,
    CallExpression,
    CatchClause,
    CharLiteral,
    ClassSpecifier,
    CommaExpression,
    Comment,
    CompoundLiteralExpression,
    CompoundStatement,
    Declaration,
    DeclarationList,
    Decltype,
    DependentName,
    DestructorName,
    EnumSpecifier,
    ExpressionStatement,
    False,
    FieldDeclaration,
    FieldDeclarationList,
    FieldExpression,
    FieldIdentifier,
    ForRangeLoop,
    ForStatement,
    FriendDeclaration,
    FunctionDeclarator,
    FunctionDefinition,
    Identifier,
    IfStatement,
    InitDeclarator,
    LambdaCaptureInitializer,
    LambdaCaptureSpecifier,
    LambdaDefaultCapture,
    LambdaExpression,
    LexicalDeclaration,
    NamespaceAliasDefinition,
    NamespaceDefinition,
    NamespaceIdentifier,
    NewExpression,
    Noexcept,
    NumberLiteral,
    OperatorName,
    OptionalParameterDeclaration,
    ParameterDeclaration,
    ParameterList,
    ParameterPackExpansion,
    ParenthesizedDeclarator,
    ParenthesizedExpression,
    PlaceholderTypeSpecifier,
    PointerDeclarator,
    PointerExpression,
    PreprocArg,
    PreprocCall,
    PreprocDef,
    PreprocElif,
    PreprocFunctionDef,
    PreprocIf,
    PrimitiveType,
    QualifiedIdentifier,
    RefQualifier,
    ReferenceDeclarator,
    RequiresClause,
    RequiresExpression,
    SizedTypeSpecifier,
    SizeofExpression,
    StorageClassSpecifier,
    StructSpecifier,
    StructuredBindingDeclarator,
    SwitchStatement,
    TemplateDeclaration,
    TemplateFunction,
    TemplateMethod,
    TemplateParameterList,
    TemplateType,
    This,
    ThrowSpecifier,
    TrailingReturnType,
    TranslationUnit,
    True,
    TypeDefinition,
    TypeDescriptor,
    TypeIdentifier,
    TypeParameterDeclaration,
    TypeQualifier,
    UpdateExpression,
    UsingDeclaration,
    VariableDeclaration,
    VariableDeclarator,
    VirtualSpecifier,
    Ampersand,
    DoubleAmpersand,
    OpenParen,
    CloseParen,
    Star,
    Comma,
    Ellipsis,
    Colon,
    ColonColon,
    Semicolon,
    Equals,
    OpenBracket,
    CloseBracket,
    OpenBrace,
    CloseBrace,
    Tilde,
    ClassKeyword,
    StructKeyword,
    EnumKeyword,
    NamespaceKeyword,
    InlineKeyword,
    VirtualKeyword,
    Error,
    Other,
}

/// The role of a node in its parent.
#[derive(Clone, Copy, PartialEq, Eq, Structural, Debug, Hash)]
pub enum Field {
    Alternative,
    Argument,
    Arguments,
    Body,
    Captures,
    Condition,
    Declarator,
    DefaultValue,
    Directive,
    Field,
    Function,
    Left,
    Name,
    Operator,
    Parameters,
    Right,
    Scope,
    Type,
    Value,
    Other,
}

/// The kind with a name in the grammar.
#[verifier::opaque]
pub open spec fn kind_named(name: Seq<u8>) -> Kind {
    if name == "abstract_function_declarator".spec_bytes() {
        Kind::AbstractFunctionDeclarator
    } else if name == "abstract_pointer_declarator".spec_bytes() {
        Kind::AbstractPointerDeclarator
    } else if name == "abstract_reference_declarator".spec_bytes() {
        Kind::AbstractReferenceDeclarator
    } else if name == "access_specifier".spec_bytes() {
        Kind::AccessSpecifier
    } else if name == "alias_declaration".spec_bytes() {
        Kind::AliasDeclaration
    } else if name == "argument_list".spec_bytes() {
        Kind::ArgumentList
    } else if name == "array_declarator".spec_bytes() {
        Kind::ArrayDeclarator
    } else if name == "assignment".spec_bytes() {
        Kind::Assignment
    } else if name == "assignment_expression".spec_bytes() {
        Kind::AssignmentExpression
    } else if name == "attribute".spec_bytes() {
        Kind::Attribute
    } else if name == "attribute_declaration".spec_bytes() {
        Kind::AttributeDeclaration
    } else if name == "attribute_specifier".spec_bytes() {
        Kind::AttributeSpecifier
    } else if name == "augmented_assignment".spec_bytes() {
        Kind::AugmentedAssignment
    } else if name == "auto".spec_bytes() {
        Kind::Auto
    } else if name == "base_class_clause".spec_bytes() {
        Kind::BaseClassClause
    } else if name == "binary_expression".spec_bytes() {
        Kind::BinaryExpression
    } else if name == "bitfield_clause".spec_bytes() {
        Kind::BitfieldClause
    } else if name == "call_expression".spec_bytes() {
        Kind::CallExpression
    } else if name == "catch_clause".spec_bytes() {
        Kind::CatchClause
    } else if name == "char_literal".spec_bytes() {
        Kind::CharLiteral
    } else if name == "class_specifier".spec_bytes() {
        Kind::ClassSpecifier
    } else if name == "comma_expression".spec_bytes() {
        Kind::CommaExpression
    } else if name == "comment".spec_bytes() {
        Kind::Comment
    } else if name == "compound_literal_expression".spec_bytes() {
        Kind::CompoundLiteralExpression
    } else if name == "compound_statement".spec_bytes() {
        Kind::CompoundStatement
    } else if name == "declaration".spec_bytes() {
        Kind::Declaration
    } else if name == "declaration_list".spec_bytes() {
        Kind::DeclarationList
    } else if name == "decltype".spec_bytes() {
        Kind::Decltype
    } else if name == "dependent_name".spec_bytes() {
        Kind::DependentName
    } else if name == "destructor_name".spec_bytes() {
        Kind::DestructorName
    } else if name == "enum_specifier".spec_bytes() {
        Kind::EnumSpecifier
    } else if name == "expression_statement".spec_bytes() {
        Kind::ExpressionStatement
    } else if name == "false".spec_bytes() {
        Kind::False
    } else if name == "field_declaration".spec_bytes() {
        Kind::FieldDeclaration
    } else if name == "field_declaration_list".spec_bytes() {
        Kind::FieldDeclarationList
    } else if name == "field_expression".spec_bytes() {
        Kind::FieldExpression
    } else if name == "field_identifier".spec_bytes() {
        Kind::FieldIdentifier
    } else if name == "for_range_loop".spec_bytes() {
        Kind::ForRangeLoop
    } else if name == "for_statement".spec_bytes() {
        Kind::ForStatement
    } else if name == "friend_declaration".spec_bytes() {
        Kind::FriendDeclaration
    } else if name == "function_declarator".spec_bytes() {
        Kind::FunctionDeclarator
    } else if name == "function_definition".spec_bytes() {
        Kind::FunctionDefinition
    } else if name == "identifier".spec_bytes() {
        Kind::Identifier
    } else if name == "if_statement".spec_bytes() {
        Kind::IfStatement
    } else if name == "init_declarator".spec_bytes() {
        Kind::InitDeclarator
    } else if name == "lambda_capture_initializer".spec_bytes() {
        Kind::LambdaCaptureInitializer
    } else if name == "lambda_capture_specifier".spec_bytes() {
        Kind::LambdaCaptureSpecifier
    } else if name == "lambda_default_capture".spec_bytes() {
        Kind::LambdaDefaultCapture
    } else if name == "lambda_expression".spec_bytes() {
        Kind::LambdaExpression
    } else if name == "lexical_declaration".spec_bytes() {
        Kind::LexicalDeclaration
    } else if name == "namespace_alias_definition".spec_bytes() {
        Kind::NamespaceAliasDefinition
    } else if name == "namespace_definition".spec_bytes() {
        Kind::NamespaceDefinition
    } else if name == "namespace_identifier".spec_bytes() {
        Kind::NamespaceIdentifier
    } else if name == "new_expression".spec_bytes() {
        Kind::NewExpression
    } else if name == "noexcept".spec_bytes() {
        Kind::Noexcept
    } else if name == "number_literal".spec_bytes() {
        Kind::NumberLiteral
    } else if name == "operator_name".spec_bytes() {
        Kind::OperatorName
    } else if name == "optional_parameter_declaration".spec_bytes() {
        Kind::OptionalParameterDeclaration
    } else if name == "parameter_declaration".spec_bytes() {
        Kind::ParameterDeclaration
    } else if name == "parameter_list".spec_bytes() {
        Kind::ParameterList
    } else if name == "parameter_pack_expansion".spec_bytes() {
        Kind::ParameterPackExpansion
    } else if name == "parenthesized_declarator".spec_bytes() {
        Kind::ParenthesizedDeclarator
    } else if name == "parenthesized_expression".spec_bytes() {
        Kind::ParenthesizedExpression
    } else if name == "placeholder_type_specifier".spec_bytes() {
        Kind::PlaceholderTypeSpecifier
    } else if name == "pointer_declarator".spec_bytes() {
        Kind::PointerDeclarator
    } else if name == "pointer_expression".spec_bytes() {
        Kind::PointerExpression
    } else if name == "preproc_arg".spec_bytes() {
        Kind::PreprocArg
    } else if name == "preproc_call".spec_bytes() {
        Kind::PreprocCall
    } else if name == "preproc_def".spec_bytes() {
        Kind::PreprocDef
    } else if name == "preproc_elif".spec_bytes() {
        Kind::PreprocElif
    } else if name == "preproc_function_def".spec_bytes() {
        Kind::PreprocFunctionDef
    } else if name == "preproc_if".spec_bytes() {
        Kind::PreprocIf
    } else if name == "primitive_type".spec_bytes() {
        Kind::PrimitiveType
    } else if name == "qualified_identifier".spec_bytes() {
        Kind::QualifiedIdentifier
    } else if name == "ref_qualifier".spec_bytes() {
        Kind::RefQualifier
    } else if name == "reference_declarator".spec_bytes() {
        Kind::ReferenceDeclarator
    } else if name == "requires_clause".spec_bytes() {
        Kind::RequiresClause
    } else if name == "requires_expression".spec_bytes() {
        Kind::RequiresExpression
    } else if name == "sized_type_specifier".spec_bytes() {
        Kind::SizedTypeSpecifier
    } else if name == "sizeof_expression".spec_bytes() {
        Kind::SizeofExpression
    } else if name == "storage_class_specifier".spec_bytes() {
        Kind::StorageClassSpecifier
    } else if name == "struct_specifier".spec_bytes() {
        Kind::StructSpecifier
    } else if name == "structured_binding_declarator".spec_bytes() {
        Kind::StructuredBindingDeclarator
    } else if name == "switch_statement".spec_bytes() {
        Kind::SwitchStatement
    } else if name == "template_declaration".spec_bytes() {
        Kind::TemplateDeclaration
    } else if name == "template_function".spec_bytes() {
        Kind::TemplateFunction
    } else if name == "template_method".spec_bytes() {
        Kind::TemplateMethod
    } else if name == "template_parameter_list".spec_bytes() {
        Kind::TemplateParameterList
    } else if name == "template_type".spec_bytes() {
        Kind::TemplateType
    } else if name == "this".spec_bytes() {
        Kind::This
    } else if name == "throw_specifier".spec_bytes() {
        Kind::ThrowSpecifier
    } else if name == "trailing_return_type".spec_bytes() {
        Kind::TrailingReturnType
    } else if name == "translation_unit".spec_bytes() {
        Kind::TranslationUnit
    } else if name == "true".spec_bytes() {
        Kind::True
    } else if name == "type_definition".spec_bytes() {
        Kind::TypeDefinition
    } else if name == "type_descriptor".spec_bytes() {
        Kind::TypeDescriptor
    } else if name == "type_identifier".spec_bytes() {
        Kind::TypeIdentifier
    } else if name == "type_parameter_declaration".spec_bytes() {
        Kind::TypeParameterDeclaration
    } else if name == "type_qualifier".spec_bytes() {
        Kind::TypeQualifier
    } else if name == "update_expression".spec_bytes() {
        Kind::UpdateExpression
    } else if name == "using_declaration".spec_bytes() {
        Kind::UsingDeclaration
    } else if name == "variable_declaration".spec_bytes() {
        Kind::VariableDeclaration
    } else if name == "variable_declarator".spec_bytes() {
        Kind::VariableDeclarator
    } else if name == "virtual_specifier".spec_bytes() {
        Kind::VirtualSpecifier
    } else if name == "&".spec_bytes() {
        Kind::Ampersand
    } else if name == "&&".spec_bytes() {
        Kind::DoubleAmpersand
    } else if name == "(".spec_bytes() {
        Kind::OpenParen
    } else if name == ")".spec_bytes() {
        Kind::CloseParen
    } else if name == "*".spec_bytes() {
        Kind::Star
    } else if name == ",".spec_bytes() {
        Kind::Comma
    } else if name == "...".spec_bytes() {
        Kind::Ellipsis
    } else if name == ":".spec_bytes() {
        Kind::Colon
    } else if name == "::".spec_bytes() {
        Kind::ColonColon
    } else if name == ";".spec_bytes() {
        Kind::Semicolon
    } else if name == "=".spec_bytes() {
        Kind::Equals
    } else if name == "[".spec_bytes() {
        Kind::OpenBracket
    } else if name == "]".spec_bytes() {
        Kind::CloseBracket
    } else if name == "{".spec_bytes() {
        Kind::OpenBrace
    } else if name == "}".spec_bytes() {
        Kind::CloseBrace
    } else if name == "~".spec_bytes() {
        Kind::Tilde
    } else if name == "class".spec_bytes() {
        Kind::ClassKeyword
    } else if name == "struct".spec_bytes() {
        Kind::StructKeyword
    } else if name == "enum".spec_bytes() {
        Kind::EnumKeyword
    } else if name == "namespace".spec_bytes() {
        Kind::NamespaceKeyword
    } else if name == "inline".spec_bytes() {
        Kind::InlineKeyword
    } else if name == "virtual".spec_bytes() {
        Kind::VirtualKeyword
    } else if name == "ERROR".spec_bytes() {
        Kind::Error
    } else {
        Kind::Other
    }
}

/// The kind with a name in the grammar.
pub fn kind_from_name(name: &str) -> (r: Kind)
    ensures
        r == kind_named(name.spec_bytes()),
{
    proof {
        reveal(kind_named);
    }
    let bytes = name.as_bytes();
    if same_bytes(bytes, "abstract_function_declarator".as_bytes()) {
        Kind::AbstractFunctionDeclarator
    } else if same_bytes(bytes, "abstract_pointer_declarator".as_bytes()) {
        Kind::AbstractPointerDeclarator
    } else if same_bytes(bytes, "abstract_reference_declarator".as_bytes()) {
        Kind::AbstractReferenceDeclarator
    } else if same_bytes(bytes, "access_specifier".as_bytes()) {
        Kind::AccessSpecifier
    } else if same_bytes(bytes, "alias_declaration".as_bytes()) {
        Kind::AliasDeclaration
    } else if same_bytes(bytes, "argument_list".as_bytes()) {
        Kind::ArgumentList
    } else if same_bytes(bytes, "array_declarator".as_bytes()) {
        Kind::ArrayDeclarator
    } else if same_bytes(bytes, "assignment".as_bytes()) {
        Kind::Assignment
    } else if same_bytes(bytes, "assignment_expression".as_bytes()) {
        Kind::AssignmentExpression
    } else if same_bytes(bytes, "attribute".as_bytes()) {
        Kind::Attribute
    } else if same_bytes(bytes, "attribute_declaration".as_bytes()) {
        Kind::AttributeDeclaration
    } else if same_bytes(bytes, "attribute_specifier".as_bytes()) {
        Kind::AttributeSpecifier
    } else if same_bytes(bytes, "augmented_assignment".as_bytes()) {
        Kind::AugmentedAssignment
    } else if same_bytes(bytes, "auto".as_bytes()) {
        Kind::Auto
    } else if same_bytes(bytes, "base_class_clause".as_bytes()) {
        Kind::BaseClassClause
    } else if same_bytes(bytes, "binary_expression".as_bytes()) {
        Kind::BinaryExpression
    } else if same_bytes(bytes, "bitfield_clause".as_bytes()) {
        Kind::BitfieldClause
    } else if same_bytes(bytes, "call_expression".as_bytes()) {
        Kind::CallExpression
    } else if same_bytes(bytes, "catch_clause".as_bytes()) {
        Kind::CatchClause
    } else if same_bytes(bytes, "char_literal".as_bytes()) {
        Kind::CharLiteral
    } else if same_bytes(bytes, "class_specifier".as_bytes()) {
        Kind::ClassSpecifier
    } else if same_bytes(bytes, "comma_expression".as_bytes()) {
        Kind::CommaExpression
    } else if same_bytes(bytes, "comment".as_bytes()) {
        Kind::Comment
    } else if same_bytes(bytes, "compound_literal_expression".as_bytes()) {
        Kind::CompoundLiteralExpression
    } else if same_bytes(bytes, "compound_statement".as_bytes()) {
        Kind::CompoundStatement
    } else if same_bytes(bytes, "declaration".as_bytes()) {
        Kind::Declaration
    } else if same_bytes(bytes, "declaration_list".as_bytes()) {
        Kind::DeclarationList
    } else if same_bytes(bytes, "decltype".as_bytes()) {
        Kind::Decltype
    } else if same_bytes(bytes, "dependent_name".as_bytes()) {
        Kind::DependentName
    } else if same_bytes(bytes, "destructor_name".as_bytes()) {
        Kind::DestructorName
    } else if same_bytes(bytes, "enum_specifier".as_bytes()) {
        Kind::EnumSpecifier
    } else if same_bytes(bytes, "expression_statement".as_bytes()) {
        Kind::ExpressionStatement
    } else if same_bytes(bytes, "false".as_bytes()) {
        Kind::False
    } else if same_bytes(bytes, "field_declaration".as_bytes()) {
        Kind::FieldDeclaration
    } else if same_bytes(bytes, "field_declaration_list".as_bytes()) {
        Kind::FieldDeclarationList
    } else if same_bytes(bytes, "field_expression".as_bytes()) {
        Kind::FieldExpression
    } else if same_bytes(bytes, "field_identifier".as_bytes()) {
        Kind::FieldIdentifier
    } else if same_bytes(bytes, "for_range_loop".as_bytes()) {
        Kind::ForRangeLoop
    } else if same_bytes(bytes, "for_statement".as_bytes()) {
        Kind::ForStatement
    } else if same_bytes(bytes, "friend_declaration".as_bytes()) {
        Kind::FriendDeclaration
    } else if same_bytes(bytes, "function_declarator".as_bytes()) {
        Kind::FunctionDeclarator
    } else if same_bytes(bytes, "function_definition".as_bytes()) {
        Kind::FunctionDefinition
    } else if same_bytes(bytes, "identifier".as_bytes()) {
        Kind::Identifier
    } else if same_bytes(bytes, "if_statement".as_bytes()) {
        Kind::IfStatement
    } else if same_bytes(bytes, "init_declarator".as_bytes()) {
        Kind::InitDeclarator
    } else if same_bytes(bytes, "lambda_capture_initializer".as_bytes()) {
        Kind::LambdaCaptureInitializer
    } else if same_bytes(bytes, "lambda_capture_specifier".as_bytes()) {
        Kind::LambdaCaptureSpecifier
    } else if same_bytes(bytes, "lambda_default_capture".as_bytes()) {
        Kind::LambdaDefaultCapture
    } else if same_bytes(bytes, "lambda_expression".as_bytes()) {
        Kind::LambdaExpression
    } else if same_bytes(bytes, "lexical_declaration".as_bytes()) {
        Kind::LexicalDeclaration
    } else if same_bytes(bytes, "namespace_alias_definition".as_bytes()) {
        Kind::NamespaceAliasDefinition
    } else if same_bytes(bytes, "namespace_definition".as_bytes()) {
        Kind::NamespaceDefinition
    } else if same_bytes(bytes, "namespace_identifier".as_bytes()) {
        Kind::NamespaceIdentifier
    } else if same_bytes(bytes, "new_expression".as_bytes()) {
        Kind::NewExpression
    } else if same_bytes(bytes, "noexcept".as_bytes()) {
        Kind::Noexcept
    } else if same_bytes(bytes, "number_literal".as_bytes()) {
        Kind::NumberLiteral
    } else if same_bytes(bytes, "operator_name".as_bytes()) {
        Kind::OperatorName
    } else if same_bytes(bytes, "optional_parameter_declaration".as_bytes()) {
        Kind::OptionalParameterDeclaration
    } else if same_bytes(bytes, "parameter_declaration".as_bytes()) {
        Kind::ParameterDeclaration
    } else if same_bytes(bytes, "parameter_list".as_bytes()) {
        Kind::ParameterList
    } else if same_bytes(bytes, "parameter_pack_expansion".as_bytes()) {
        Kind::ParameterPackExpansion
    } else if same_bytes(bytes, "parenthesized_declarator".as_bytes()) {
        Kind::ParenthesizedDeclarator
    } else if same_bytes(bytes, "parenthesized_expression".as_bytes()) {
        Kind::ParenthesizedExpression
    } else if same_bytes(bytes, "placeholder_type_specifier".as_bytes()) {
        Kind::PlaceholderTypeSpecifier
    } else if same_bytes(bytes, "pointer_declarator".as_bytes()) {
        Kind::PointerDeclarator
    } else if same_bytes(bytes, "pointer_expression".as_bytes()) {
        Kind::PointerExpression
    } else if same_bytes(bytes, "preproc_arg".as_bytes()) {
        Kind::PreprocArg
    } else if same_bytes(bytes, "preproc_call".as_bytes()) {
        Kind::PreprocCall
    } else if same_bytes(bytes, "preproc_def".as_bytes()) {
        Kind::PreprocDef
    } else if same_bytes(bytes, "preproc_elif".as_bytes()) {
        Kind::PreprocElif
    } else if same_bytes(bytes, "preproc_function_def".as_bytes()) {
        Kind::PreprocFunctionDef
    } else if same_bytes(bytes, "preproc_if".as_bytes()) {
        Kind::PreprocIf
    } else if same_bytes(bytes, "primitive_type".as_bytes()) {
        Kind::PrimitiveType
    } else if same_bytes(bytes, "qualified_identifier".as_bytes()) {
        Kind::QualifiedIdentifier
    } else if same_bytes(bytes, "ref_qualifier".as_bytes()) {
        Kind::RefQualifier
    } else if same_bytes(bytes, "reference_declarator".as_bytes()) {
        Kind::ReferenceDeclarator
    } else if same_bytes(bytes, "requires_clause".as_bytes()) {
        Kind::RequiresClause
    } else if same_bytes(bytes, "requires_expression".as_bytes()) {
        Kind::RequiresExpression
    } else if same_bytes(bytes, "sized_type_specifier".as_bytes()) {
        Kind::SizedTypeSpecifier
    } else if same_bytes(bytes, "sizeof_expression".as_bytes()) {
        Kind::SizeofExpression
    } else if same_bytes(bytes, "storage_class_specifier".as_bytes()) {
        Kind::StorageClassSpecifier
    } else if same_bytes(bytes, "struct_specifier".as_bytes()) {
        Kind::StructSpecifier
    } else if same_bytes(bytes, "structured_binding_declarator".as_bytes()) {
        Kind::StructuredBindingDeclarator
    } else if same_bytes(bytes, "switch_statement".as_bytes()) {
        Kind::SwitchStatement
    } else if same_bytes(bytes, "template_declaration".as_bytes()) {
        Kind::TemplateDeclaration
    } else if same_bytes(bytes, "template_function".as_bytes()) {
        Kind::TemplateFunction
    } else if same_bytes(bytes, "template_method".as_bytes()) {
        Kind::TemplateMethod
    } else if same_bytes(bytes, "template_parameter_list".as_bytes()) {
        Kind::TemplateParameterList
    } else if same_bytes(bytes, "template_type".as_bytes()) {
        Kind::TemplateType
    } else if same_bytes(bytes, "this".as_bytes()) {
        Kind::This
    } else if same_bytes(bytes, "throw_specifier".as_bytes()) {
        Kind::ThrowSpecifier
    } else if same_bytes(bytes, "trailing_return_type".as_bytes()) {
        Kind::TrailingReturnType
    } else if same_bytes(bytes, "translation_unit".as_bytes()) {
        Kind::TranslationUnit
    } else if same_bytes(bytes, "true".as_bytes()) {
        Kind::True
    } else if same_bytes(bytes, "type_definition".as_bytes()) {
        Kind::TypeDefinition
    } else if same_bytes(bytes, "type_descriptor".as_bytes()) {
        Kind::TypeDescriptor
    } else if same_bytes(bytes, "type_identifier".as_bytes()) {
        Kind::TypeIdentifier
    } else if same_bytes(bytes, "type_parameter_declaration".as_bytes()) {
        Kind::TypeParameterDeclaration
    } else if same_bytes(bytes, "type_qualifier".as_bytes()) {
        Kind::TypeQualifier
    } else if same_bytes(bytes, "update_expression".as_bytes()) {
        Kind::UpdateExpression
    } else if same_bytes(bytes, "using_declaration".as_bytes()) {
        Kind::UsingDeclaration
    } else if same_bytes(bytes, "variable_declaration".as_bytes()) {
        Kind::VariableDeclaration
    } else if same_bytes(bytes, "variable_declarator".as_bytes()) {
        Kind::VariableDeclarator
    } else if same_bytes(bytes, "virtual_specifier".as_bytes()) {
        Kind::VirtualSpecifier
    } else if same_bytes(bytes, "&".as_bytes()) {
        Kind::Ampersand
    } else if same_bytes(bytes, "&&".as_bytes()) {
        Kind::DoubleAmpersand
    } else if same_bytes(bytes, "(".as_bytes()) {
        Kind::OpenParen
    } else if same_bytes(bytes, ")".as_bytes()) {
        Kind::CloseParen
    } else if same_bytes(bytes, "*".as_bytes()) {
        Kind::Star
    } else if same_bytes(bytes, ",".as_bytes()) {
        Kind::Comma
    } else if same_bytes(bytes, "...".as_bytes()) {
        Kind::Ellipsis
    } else if same_bytes(bytes, ":".as_bytes()) {
        Kind::Colon
    } else if same_bytes(bytes, "::".as_bytes()) {
        Kind::ColonColon
    } else if same_bytes(bytes, ";".as_bytes()) {
        Kind::Semicolon
    } else if same_bytes(bytes, "=".as_bytes()) {
        Kind::Equals
    } else if same_bytes(bytes, "[".as_bytes()) {
        Kind::OpenBracket
    } else if same_bytes(bytes, "]".as_bytes()) {
        Kind::CloseBracket
    } else if same_bytes(bytes, "{".as_bytes()) {
        Kind::OpenBrace
    } else if same_bytes(bytes, "}".as_bytes()) {
        Kind::CloseBrace
    } else if same_bytes(bytes, "~".as_bytes()) {
        Kind::Tilde
    } else if same_bytes(bytes, "class".as_bytes()) {
        Kind::ClassKeyword
    } else if same_bytes(bytes, "struct".as_bytes()) {
        Kind::StructKeyword
    } else if same_bytes(bytes, "enum".as_bytes()) {
        Kind::EnumKeyword
    } else if same_bytes(bytes, "namespace".as_bytes()) {
        Kind::NamespaceKeyword
    } else if same_bytes(bytes, "inline".as_bytes()) {
        Kind::InlineKeyword
    } else if same_bytes(bytes, "virtual".as_bytes()) {
        Kind::VirtualKeyword
    } else if same_bytes(bytes, "ERROR".as_bytes()) {
        Kind::Error
    } else {
        Kind::Other
    }
}

/// The role with a name in the grammar.
#[verifier::opaque]
pub open spec fn field_named(name: Seq<u8>) -> Field {
    if name == "alternative".spec_bytes() {
        Field::Alternative
    } else if name == "argument".spec_bytes() {
        Field::Argument
    } else if name == "arguments".spec_bytes() {
        Field::Arguments
    } else if name == "body".spec_bytes() {
        Field::Body
    } else if name == "captures".spec_bytes() {
        Field::Captures
    } else if name == "condition".spec_bytes() {
        Field::Condition
    } else if name == "declarator".spec_bytes() {
        Field::Declarator
    } else if name == "default_value".spec_bytes() {
        Field::DefaultValue
    } else if name == "directive".spec_bytes() {
        Field::Directive
    } else if name == "field".spec_bytes() {
        Field::Field
    } else if name == "function".spec_bytes() {
        Field::Function
    } else if name == "left".spec_bytes() {
        Field::Left
    } else if name == "name".spec_bytes() {
        Field::Name
    } else if name == "operator".spec_bytes() {
        Field::Operator
    } else if name == "parameters".spec_bytes() {
        Field::Parameters
    } else if name == "right".spec_bytes() {
        Field::Right
    } else if name == "scope".spec_bytes() {
        Field::Scope
    } else if name == "type".spec_bytes() {
        Field::Type
    } else if name == "value".spec_bytes() {
        Field::Value
    } else {
        Field::Other
    }
}

/// The role with a name in the grammar.
pub fn field_from_name(name: &str) -> (r: Field)
    ensures
        r == field_named(name.spec_bytes()),
{
    proof {
        reveal(field_named);
    }
    let bytes = name.as_bytes();
    if same_bytes(bytes, "alternative".as_bytes()) {
        Field::Alternative
    } else if same_bytes(bytes, "argument".as_bytes()) {
        Field::Argument
    } else if same_bytes(bytes, "arguments".as_bytes()) {
        Field::Arguments
    } else if same_bytes(bytes, "body".as_bytes()) {
        Field::Body
    } else if same_bytes(bytes, "captures".as_bytes()) {
        Field::Captures
    } else if same_bytes(bytes, "condition".as_bytes()) {
        Field::Condition
    } else if same_bytes(bytes, "declarator".as_bytes()) {
        Field::Declarator
    } else if same_bytes(bytes, "default_value".as_bytes()) {
        Field::DefaultValue
    } else if same_bytes(bytes, "directive".as_bytes()) {
        Field::Directive
    } else if same_bytes(bytes, "field".as_bytes()) {
        Field::Field
    } else if same_bytes(bytes, "function".as_bytes()) {
        Field::Function
    } else if same_bytes(bytes, "left".as_bytes()) {
        Field::Left
    } else if same_bytes(bytes, "name".as_bytes()) {
        Field::Name
    } else if same_bytes(bytes, "operator".as_bytes()) {
        Field::Operator
    } else if same_bytes(bytes, "parameters".as_bytes()) {
        Field::Parameters
    } else if same_bytes(bytes, "right".as_bytes()) {
        Field::Right
    } else if same_bytes(bytes, "scope".as_bytes()) {
        Field::Scope
    } else if same_bytes(bytes, "type".as_bytes()) {
        Field::Type
    } else if same_bytes(bytes, "value".as_bytes()) {
        Field::Value
    } else {
        Field::Other
    }
}

/// What the parser reports of a node besides its position. The depth of the root is
/// zero.
#[derive(Clone, Copy, Debug)]
pub struct NodeShape {
    pub name: &'static str,
    pub field: Option<&'static str>,
    pub depth: u32,
    pub named: bool,
    pub missing: bool,
    pub has_error: bool,
}

/// A tree of the parser crate.
#[verifier::external_type_specification]
#[verifier::external_body]
pub struct ExTree(tree_sitter::Tree);

/// The text that a tree was parsed from.
pub uninterp spec fn tree_text(tree: Tree) -> Seq<u8>;

/// The edits that were applied to a tree, one after the other. An edit takes text away:
/// start byte, end byte, row, column, column of the end.
pub uninterp spec fn tree_edits(tree: Tree) -> Seq<(usize, usize, usize, usize, usize)>;

/// The nodes that the C++ grammar gives for a text, in preorder.
pub uninterp spec fn cpp_shapes(source: Seq<u8>) -> Option<Seq<NodeShape>>;

/// The positions of those nodes after edits have been applied to the tree: start byte,
/// end byte, start row and column, end row and column.
pub uninterp spec fn cpp_positions(
    source: Seq<u8>,
    edits: Seq<(usize, usize, usize, usize, usize)>,
) -> Seq<(usize, usize, usize, usize, usize, usize)>;

/// `Parser::parse` with `tree_sitter_cpp::LANGUAGE`. Whether there is a tree depends on
/// the text alone. The parser counts bytes in 32 bits: it does not come to the end of a
/// longer text.
#[verifier::external_body]
fn parse_text(source: &[u8]) -> (r: Option<Tree>)
    requires
        source@.len() <= u32::MAX,
    ensures
        match r {
            None => cpp_shapes(source@) is None,
            Some(tree) => cpp_shapes(source@) is Some && tree_text(tree) == source@
                && tree_edits(tree).len() == 0,
        },
{
    let mut parser = Parser::new();
    parser.set_language(&LANGUAGE.into()).ok()?;
    parser.parse(source, None)
}

/// `Tree::edit` with an edit that takes text away. The tree keeps its nodes; they move.
#[verifier::external_body]
fn edit_tree(tree: &mut Tree, edit: &(usize, usize, usize, usize, usize))
    ensures
        tree_text(*final(tree)) == tree_text(*old(tree)),
        tree_edits(*final(tree)) == tree_edits(*old(tree)).push(*edit),
{
    let &(start_byte, old_end_byte, row, column, past) = edit;
    let start_position = Point::new(row, column);
    let old_end_position = Point::new(row, past);
    tree.edit(&InputEdit { start_byte, old_end_byte, new_end_byte: start_byte, start_position, old_end_position, new_end_position: start_position });
}

/// What `TreeCursor` reports of each node that `goto_descendant` visits in a tree that
/// was not edited. The nodes depend on the text alone; what they are is not said.
#[verifier::external_body]
fn report_shapes(tree: &Tree) -> (r: Vec<NodeShape>)
    requires
        tree_edits(*tree).len() == 0,
    ensures
        cpp_shapes(tree_text(*tree)) == Some(r@),
{
    let mut cursor = tree.walk();
    (0..tree.root_node().descendant_count()).map(|i| {
        cursor.goto_descendant(i);
        let n = cursor.node();
        let (named, missing, has_error) = (n.is_named(), n.is_missing(), n.has_error());
        let (name, field, depth) = (n.kind(), cursor.field_name(), cursor.depth());
        NodeShape { name, field, depth, named, missing, has_error }
    }).collect()
}

/// `Node::range` of each node that `goto_descendant` visits. The positions depend on
/// the text and the edits alone; what they are is not said.
#[verifier::external_body]
fn report_positions(tree: &Tree) -> (r: Vec<(usize, usize, usize, usize, usize, usize)>)
    ensures
        cpp_positions(tree_text(*tree), tree_edits(*tree)) == r@,
{
    let mut cursor = tree.walk();
    (0..tree.root_node().descendant_count()).map(|i| {
        cursor.goto_descendant(i);
        let r = cursor.node().range();
        (r.start_byte, r.end_byte, r.start_point.row, r.start_point.column, r.end_point.row, r.end_point.column)
    }).collect()
}

/// A node without its place in the tree.
#[derive(Clone, Copy, PartialEq, Eq, Structural, Debug)]
pub struct NodeData {
    pub kind: Kind,
    pub field: Option<Field>,
    /// The grammar calls it a preprocessing node.
    pub preprocessor: bool,
    /// The grammar calls it an expression.
    pub expression: bool,
    pub named: bool,
    pub missing: bool,
    pub has_error: bool,
    pub range: TextRange,
}

/// Whether a byte string starts with another.
pub open spec fn starts_with(bytes: Seq<u8>, prefix: Seq<u8>) -> bool {
    prefix.len() <= bytes.len() && bytes.take(prefix.len() as int) == prefix
}

/// Whether a byte string ends with another.
pub open spec fn ends_with(bytes: Seq<u8>, suffix: Seq<u8>) -> bool {
    suffix.len() <= bytes.len() && bytes.skip(bytes.len() - suffix.len()) == suffix
}

/// Whether a byte string starts with another.
pub fn has_prefix(bytes: &[u8], prefix: &[u8]) -> (r: bool)
    ensures
        r == starts_with(bytes@, prefix@),
{
    if prefix.len() > bytes.len() {
        return false;
    }
    let r = same_bytes(&bytes[0..prefix.len()], prefix);
    assert(bytes@.subrange(0, prefix@.len() as int) =~= bytes@.take(prefix@.len() as int));
    r
}

/// Whether a byte string ends with another.
pub fn has_suffix(bytes: &[u8], suffix: &[u8]) -> (r: bool)
    ensures
        r == ends_with(bytes@, suffix@),
{
    if suffix.len() > bytes.len() {
        return false;
    }
    let at: usize = bytes.len() - suffix.len();
    let r = same_bytes(&bytes[at..bytes.len()], suffix);
    assert(bytes@.subrange(at as int, bytes@.len() as int) =~= bytes@.skip(at as int));
    r
}

/// The data of a node that the parser reports. Positions keep their low 32 bits.
pub open spec fn node_data(
    shape: NodeShape,
    position: (usize, usize, usize, usize, usize, usize),
) -> NodeData {
    let name = shape.name.spec_bytes();
    NodeData {
        kind: kind_named(name),
        field: match shape.field {
            None => None,
            Some(field) => Some(field_named(field.spec_bytes())),
        },
        preprocessor: starts_with(name, "preproc_".spec_bytes()),
        expression: ends_with(name, "_expression".spec_bytes()),
        named: shape.named,
        missing: shape.missing,
        has_error: shape.has_error,
        range: TextRange {
            start_byte: position.0 as u32,
            end_byte: position.1 as u32,
            start_line: position.2 as u32,
            start_column: position.3 as u32,
            end_line: position.4 as u32,
            end_column: position.5 as u32,
        },
    }
}

fn make_data(
    shape: &NodeShape,
    position: &(usize, usize, usize, usize, usize, usize),
) -> (r: NodeData)
    ensures
        r == node_data(*shape, *position),
{
    let name = shape.name.as_bytes();
    NodeData {
        kind: kind_from_name(shape.name),
        field: match shape.field {
            None => None,
            Some(field) => Some(field_from_name(field)),
        },
        preprocessor: has_prefix(name, "preproc_".as_bytes()),
        expression: has_suffix(name, "_expression".as_bytes()),
        named: shape.named,
        missing: shape.missing,
        has_error: shape.has_error,
        range: TextRange {
            start_byte: position.0 as u32,
            end_byte: position.1 as u32,
            start_line: position.2 as u32,
            start_column: position.3 as u32,
            end_line: position.4 as u32,
            end_column: position.5 as u32,
        },
    }
}

/// Whether depths describe one tree in preorder: one root, and no node more than one
/// below the node before it.
pub open spec fn is_preorder(depths: Seq<u32>) -> bool {
    &&& depths.len() > 0
    &&& depths[0] == 0
    &&& forall|i: int| 0 < i < depths.len() ==> #[trigger] follows(depths, i)
}

/// Whether a node below the root is at most one level below the node before it.
pub open spec fn follows(depths: Seq<u32>, i: int) -> bool {
    0 < depths[i] && depths[i] <= depths[i - 1] + 1
}

/// The last row before `before` that has a depth.
pub open spec fn last_at_depth(depths: Seq<u32>, before: int, depth: int) -> Option<usize>
    decreases before,
{
    if before <= 0 {
        None
    } else if depths[before - 1] == depth {
        Some((before - 1) as usize)
    } else {
        last_at_depth(depths, before - 1, depth)
    }
}

/// The row of the parent: the last row before this one that is one level up.
pub open spec fn enclosing(depths: Seq<u32>, row: int) -> Option<usize> {
    last_at_depth(depths, row, depths[row] - 1)
}

/// The rows below `before` whose parent is a row, in order.
pub open spec fn rows_inside(depths: Seq<u32>, row: usize, before: int) -> Seq<usize>
    decreases before,
{
    if before <= 0 {
        Seq::empty()
    } else {
        let earlier = rows_inside(depths, row, before - 1);
        if enclosing(depths, before - 1) == Some(row) {
            earlier.push((before - 1) as usize)
        } else {
            earlier
        }
    }
}

/// A tree of nodes in preorder with the text that they were read from.
#[derive(Debug)]
pub struct SyntaxTree {
    data: Vec<NodeData>,
    parents: Vec<Option<usize>>,
    children: Vec<Vec<usize>>,
    source: Vec<u8>,
    tree: Tree,
}

impl SyntaxTree {
    #[verifier::type_invariant]
    spec fn is_tree(&self) -> bool {
        &&& self.data@.len() > 0
        &&& cpp_shapes(tree_text(self.tree)) is Some
        &&& cpp_shapes(tree_text(self.tree))->0.len() == self.data@.len()
        &&& self.parents@.len() == self.data@.len()
        &&& self.children@.len() == self.data@.len()
        &&& forall|i: int|
            0 <= i < self.parents@.len() ==> match #[trigger] self.parents@[i] {
                None => true,
                Some(p) => p < i,
            }
        &&& forall|i: int, k: int|
            0 <= i < self.children@.len() && 0 <= k < self.children@[i]@.len() ==> i < (
            #[trigger] self.children@[i]@[k]) < self.data@.len() && self.parents@[self.children@[i]@[k] as int]
                == Some(i as usize)
    }

    /// The number of nodes.
    pub closed spec fn count(&self) -> nat {
        self.data@.len()
    }

    /// The text of the tree.
    pub closed spec fn text(&self) -> Seq<u8> {
        self.source@
    }

    /// The text that the parser read.
    pub closed spec fn parser_text(&self) -> Seq<u8> {
        tree_text(self.tree)
    }

    /// The edits that lead from the text that the parser read to the text of the tree.
    pub closed spec fn parser_edits(&self) -> Seq<(usize, usize, usize, usize, usize)> {
        tree_edits(self.tree)
    }

    /// The data of a node; a row that is not there is an unnamed, empty `Other`.
    pub closed spec fn node(&self, n: usize) -> NodeData {
        if n < self.data@.len() {
            self.data@[n as int]
        } else {
            absent_node()
        }
    }

    /// The parent of a node.
    pub closed spec fn parent_of(&self, n: usize) -> Option<usize> {
        if n < self.parents@.len() {
            match self.parents@[n as int] {
                Some(p) => if p < n {
                    Some(p)
                } else {
                    None
                },
                None => None,
            }
        } else {
            None
        }
    }

    /// The children of a node, in order.
    pub closed spec fn children_of(&self, n: usize) -> Seq<usize> {
        if n < self.children@.len() && forall|k: int|
            0 <= k < self.children@[n as int]@.len() ==> n < (
            #[trigger] self.children@[n as int]@[k]) < self.data@.len() && self.parents@[self.children@[n as int]@[k] as int]
                == Some(n) && self.parents@.len() == self.data@.len() {
            self.children@[n as int]@
        } else {
            Seq::empty()
        }
    }

    /// A parent comes before its children.
    pub broadcast proof fn parent_comes_first(self, n: usize)
        ensures
            #[trigger] self.parent_of(n) is Some ==> self.parent_of(n)->0 < n,
    {
    }

    /// Children come after their parent and know it.
    pub broadcast proof fn children_come_later(self, n: usize, k: int)
        requires
            0 <= k < self.children_of(n).len(),
        ensures
            n < #[trigger] self.children_of(n)[k] < self.count(),
            self.parent_of(self.children_of(n)[k]) == Some(n),
    {
    }

    /// The kind of a node.
    pub open spec fn kind_of(&self, n: usize) -> Kind {
        self.node(n).kind
    }

    /// The range of a node.
    pub open spec fn range_of(&self, n: usize) -> TextRange {
        self.node(n).range
    }

    /// The text of a node, where its range lies in the text of the tree.
    pub open spec fn text_of(&self, n: usize) -> Option<Seq<u8>> {
        slice_of(self.text(), self.range_of(n).start_byte as int, self.range_of(n).end_byte as int)
    }

    /// The first child of a node that has a role.
    pub open spec fn child_in_role(&self, n: usize, field: Field) -> Option<usize> {
        self.first_in_role(self.children_of(n), field)
    }

    /// The first of some nodes that has a role.
    pub open spec fn first_in_role(&self, nodes: Seq<usize>, field: Field) -> Option<usize>
        decreases nodes.len(),
    {
        if nodes.len() == 0 {
            None
        } else if self.node(nodes[0]).field == Some(field) {
            Some(nodes[0])
        } else {
            self.first_in_role(nodes.drop_first(), field)
        }
    }

    /// The named children of a node, in order.
    pub open spec fn named_children_of(&self, n: usize) -> Seq<usize> {
        self.children_of(n).filter(|c: usize| self.node(c).named)
    }

    /// Combine what the parser reports. Nothing where the reports do not describe
    /// one tree.
    fn from_reports(
        tree: Tree,
        source: &[u8],
        shapes: &[NodeShape],
        positions: &[(usize, usize, usize, usize, usize, usize)],
    ) -> (r: Option<Self>)
        requires
            cpp_shapes(tree_text(tree)) == Some(shapes@),
        ensures
            match r {
                None => !(is_preorder(shapes@.map_values(|s: NodeShape| s.depth))
                    && shapes@.len() == positions@.len()),
                Some(_) => {
                    &&& is_preorder(shapes@.map_values(|s: NodeShape| s.depth))
                    &&& shapes@.len() == positions@.len()
                    &&& r->0.describes(source@, shapes@, positions@)
                    &&& r->0.parser_text() == tree_text(tree)
                    &&& r->0.parser_edits() == tree_edits(tree)
                },
            },
    {
        let ghost depths = shapes@.map_values(|s: NodeShape| s.depth);
        if shapes.len() != positions.len() || shapes.len() == 0 {
            return None;
        }
        if shapes[0].depth != 0 {
            assert(depths[0] != 0);
            return None;
        }
        let mut data: Vec<NodeData> = Vec::new();
        let mut parents: Vec<Option<usize>> = Vec::new();
        let mut children: Vec<Vec<usize>> = Vec::new();
        let mut path: Vec<usize> = Vec::new();
        let mut i: usize = 0;
        while i < shapes.len()
            invariant
                i <= shapes@.len(),
                shapes@.len() == positions@.len(),
                depths == shapes@.map_values(|s: NodeShape| s.depth),
                depths[0] == 0,
                data@.len() == i,
                parents@.len() == i,
                children@.len() == i,
                forall|k: int|
                    0 <= k < i ==> data@[k] == node_data(#[trigger] shapes@[k], positions@[k]),
                forall|k: int| 0 <= k < i ==> #[trigger] parents@[k] == enclosing(depths, k),
                forall|k: int|
                    0 <= k < i ==> match #[trigger] parents@[k] {
                        None => true,
                        Some(p) => p < k,
                    },
                forall|k: int|
                    0 <= k < i ==> (#[trigger] children@[k])@ == rows_inside(
                        depths,
                        k as usize,
                        i as int,
                    ),
                i > 0 ==> path@.len() == depths[i - 1] + 1,
                i == 0 ==> path@.len() == 0,
                forall|d: int|
                    0 <= d < path@.len() ==> last_at_depth(depths, i as int, d) == Some(
                        #[trigger] path@[d],
                    ) && path@[d] < i,
                forall|k: int| 0 < k < i ==> #[trigger] follows(depths, k),
            decreases shapes@.len() - i,
        {
            let depth = shapes[i].depth as usize;
            assert(depths[i as int] == depth);
            if i > 0 && (depth == 0 || depth > path.len()) {
                assert(!follows(depths, i as int));
                return None;
            }
            let ghost before = children@;
            let parent = if depth == 0 {
                None
            } else {
                Some(path[depth - 1])
            };
            proof {
                assert(parent == enclosing(depths, i as int)) by {
                    if depth == 0 {
                        assert(i == 0);
                    }
                }
            }
            if let Some(p) = parent {
                let mut list: Vec<usize> = Vec::new();
                std::mem::swap(&mut list, &mut children[p]);
                list.push(i);
                children[p] = list;
            }
            children.push(Vec::new());
            proof {
                lemma_no_rows_inside(depths, i, i as int + 1);
                assert forall|k: int| 0 <= k < i + 1 implies (#[trigger] children@[k])@
                    == rows_inside(depths, k as usize, i + 1) by {
                    if k < i {
                        assert(before[k]@ == rows_inside(depths, k as usize, i as int));
                        if parent == Some(k as usize) {
                            assert(children@[k]@ == before[k]@.push(i));
                        } else {
                            assert(children@[k] == before[k]);
                        }
                    }
                }
            }
            data.push(make_data(&shapes[i], &positions[i]));
            parents.push(parent);
            let ghost old_path = path@;
            path.truncate(depth);
            path.push(i);
            proof {
                assert forall|d: int| 0 <= d < path@.len() implies last_at_depth(
                    depths,
                    i + 1,
                    d,
                ) == Some(#[trigger] path@[d]) && path@[d] < i + 1 by {
                    if d < depth {
                        assert(path@[d] == old_path[d]);
                    }
                }
            }
            assert(i > 0 ==> follows(depths, i as int));
            i += 1;
        }
        assert(is_preorder(depths));
        proof {
            assert forall|k: int, m: int|
                0 <= k < children@.len() && 0 <= m < children@[k]@.len() implies k < (
            #[trigger] children@[k]@[m]) < data@.len() && parents@[children@[k]@[m] as int] == Some(
                k as usize,
            ) by {
                lemma_rows_inside(depths, k as usize, i as int, m);
                let c = children@[k]@[m];
                assert(parents@[c as int] == enclosing(depths, c as int));
            }
        }
        let ghost data_seen = data@;
        let tree = SyntaxTree { data, parents, children, source: copy_bytes(source), tree };
        proof {
            assert forall|n: usize| #![trigger tree.children_of(n)]
                n < shapes@.len() implies tree.children_of(n) == rows_inside(
                depths,
                n,
                shapes@.len() as int,
            ) by {
                assert(tree.children@[n as int]@ == rows_inside(depths, n, i as int));
            }
            assert forall|n: usize| #![trigger tree.parent_of(n)]
                n < shapes@.len() implies tree.parent_of(n) == enclosing(depths, n as int) by {
                assert(tree.parents@[n as int] == enclosing(depths, n as int));
            }
            assert forall|n: usize| #![trigger tree.node(n)]
                n < shapes@.len() implies tree.node(n) == node_data(
                shapes@[n as int],
                positions@[n as int],
            ) by {
                assert(data_seen[n as int] == node_data(shapes@[n as int], positions@[n as int]));
            }
        }
        Some(tree)
    }
}

proof fn lemma_no_rows_inside(depths: Seq<u32>, row: usize, before: int)
    requires
        before <= row + 1,
        row < depths.len(),
    ensures
        rows_inside(depths, row, before).len() == 0,
    decreases before,
{
    if before > 0 {
        lemma_no_rows_inside(depths, row, before - 1);
        lemma_last_at_depth(depths, before - 1, depths[before - 1] - 1);
    }
}

proof fn lemma_last_at_depth(depths: Seq<u32>, before: int, depth: int)
    requires
        before <= usize::MAX,
    ensures
        match last_at_depth(depths, before, depth) {
            None => true,
            Some(row) => row < before && depths[row as int] == depth,
        },
    decreases before,
{
    if before > 0 && depths[before - 1] != depth {
        lemma_last_at_depth(depths, before - 1, depth);
    }
}

proof fn lemma_rows_inside(depths: Seq<u32>, row: usize, before: int, k: int)
    requires
        before <= depths.len() <= usize::MAX,
        0 <= k < rows_inside(depths, row, before).len(),
    ensures
        row < rows_inside(depths, row, before)[k] < before,
        enclosing(depths, rows_inside(depths, row, before)[k] as int) == Some(row),
    decreases before,
{
    if before > 0 {
        let earlier = rows_inside(depths, row, before - 1);
        if k < earlier.len() {
            lemma_rows_inside(depths, row, before - 1, k);
        } else {
            lemma_last_at_depth(depths, before - 1, depths[before - 1] - 1);
        }
    }
}

/// What a row that is not there holds.
pub open spec fn absent_node() -> NodeData {
    NodeData {
        kind: Kind::Other,
        field: None,
        preprocessor: false,
        expression: false,
        named: false,
        missing: false,
        has_error: false,
        range: crate::facts::empty_range(),
    }
}

/// The bytes between two positions, where there are such.
pub open spec fn bytes_between(bytes: Seq<u8>, start: int, end: int) -> Option<Seq<u8>> {
    if 0 <= start <= end <= bytes.len() {
        Some(bytes.subrange(start, end))
    } else {
        None
    }
}

/// The bytes between two positions, where there are such.
pub fn get_bytes(bytes: &[u8], start: usize, end: usize) -> (r: Option<&[u8]>)
    ensures
        match r {
            None => bytes_between(bytes@, start as int, end as int) is None,
            Some(part) => bytes_between(bytes@, start as int, end as int) == Some(part@),
        },
{
    if start <= end && end <= bytes.len() {
        Some(&bytes[start..end])
    } else {
        None
    }
}

/// Whether a position stands between two characters of a text, or at one of its ends.
pub open spec fn is_boundary(bytes: Seq<u8>, at: int) -> bool {
    at == 0 || at == bytes.len() || (0 < at < bytes.len() && !(0x80 <= bytes[at] < 0xC0))
}

/// Whether a position stands between two characters of a text, or at one of its ends.
pub fn at_boundary(bytes: &[u8], at: usize) -> (r: bool)
    ensures
        r == is_boundary(bytes@, at as int),
{
    at == 0 || at == bytes.len() || (at < bytes.len() && !(0x80 <= bytes[at] && bytes[at] < 0xC0))
}

/// In well-formed UTF-8 these are the positions between its characters.
pub proof fn boundaries_are_between_characters(bytes: Seq<u8>, at: int)
    requires
        vstd::utf8::valid_utf8(bytes),
    ensures
        is_boundary(bytes, at) == vstd::utf8::is_char_boundary(bytes, at),
{
    vstd::utf8::is_char_boundary_start_end_of_seq(bytes);
    if 0 <= at < bytes.len() {
        vstd::utf8::is_char_boundary_iff_not_is_continuation_byte(bytes, at);
    }
}

/// The text between two positions, where there is such: both stand between characters.
pub open spec fn slice_of(bytes: Seq<u8>, start: int, end: int) -> Option<Seq<u8>> {
    if is_boundary(bytes, start) && is_boundary(bytes, end) {
        bytes_between(bytes, start, end)
    } else {
        None
    }
}

/// The text between two positions, where there is such: both stand between characters.
pub fn get_slice(bytes: &[u8], start: usize, end: usize) -> (r: Option<&[u8]>)
    ensures
        match r {
            None => slice_of(bytes@, start as int, end as int) is None,
            Some(part) => slice_of(bytes@, start as int, end as int) == Some(part@),
        },
{
    if at_boundary(bytes, start) && at_boundary(bytes, end) {
        get_bytes(bytes, start, end)
    } else {
        None
    }
}

/// Whether a kind is one of some kinds.
pub fn is_any(kinds: &[Kind], kind: Kind) -> (r: bool)
    ensures
        r == kinds@.contains(kind),
{
    let mut i: usize = 0;
    while i < kinds.len()
        invariant
            i <= kinds@.len(),
            forall|k: int| 0 <= k < i ==> kinds@[k] != kind,
        decreases kinds@.len() - i,
    {
        if kinds[i] == kind {
            assert(kinds@[i as int] == kind);
            return true;
        }
        i += 1;
    }
    false
}

impl SyntaxTree {
    /// The tree of a C++ text after edits of its positions; nothing where the parser
    /// gives none, or where the text is longer than it can count.
    pub open spec fn parsed(
        parsed_text: Seq<u8>,
        source: Seq<u8>,
        edits: Seq<(usize, usize, usize, usize, usize)>,
        tree: Option<SyntaxTree>,
    ) -> bool {
        match cpp_shapes(parsed_text) {
            Some(shapes) if parsed_text.len() <= u32::MAX => {
                let positions = cpp_positions(parsed_text, edits);
                let depths = shapes.map_values(|s: NodeShape| s.depth);
                if is_preorder(depths) && shapes.len() == positions.len() {
                    tree is Some && tree->0.describes(source, shapes, positions)
                        && tree->0.parser_text() == parsed_text && tree->0.parser_edits() == edits
                } else {
                    tree is None
                }
            },
            _ => tree is None,
        }
    }

    /// Whether the tree is the one that the parser's reports describe.
    pub open spec fn describes(
        &self,
        source: Seq<u8>,
        shapes: Seq<NodeShape>,
        positions: Seq<(usize, usize, usize, usize, usize, usize)>,
    ) -> bool {
        let depths = shapes.map_values(|s: NodeShape| s.depth);
        &&& self.text() == source
        &&& self.count() == shapes.len()
        &&& forall|n: usize| #![trigger self.node(n)]
            self.node(n) == if n < shapes.len() {
                node_data(shapes[n as int], positions[n as int])
            } else {
                absent_node()
            }
        &&& forall|n: usize| #![trigger self.parent_of(n)]
            self.parent_of(n) == if n < shapes.len() {
                enclosing(depths, n as int)
            } else {
                None
            }
        &&& forall|n: usize| #![trigger self.children_of(n)]
            self.children_of(n) == if n < shapes.len() {
                rows_inside(depths, n, shapes.len() as int)
            } else {
                Seq::empty()
            }
    }

    /// Whether two trees cannot be told apart.
    pub open spec fn agrees(self, other: SyntaxTree) -> bool {
        &&& self.text() == other.text()
        &&& self.parser_text() == other.parser_text()
        &&& self.parser_edits() == other.parser_edits()
        &&& forall|n: usize| #![trigger self.node(n)] #![trigger other.node(n)]
            self.node(n) == other.node(n)
        &&& forall|n: usize| #![trigger self.parent_of(n)] #![trigger other.parent_of(n)]
            self.parent_of(n) == other.parent_of(n)
        &&& forall|n: usize| #![trigger self.children_of(n)] #![trigger other.children_of(n)]
            self.children_of(n) == other.children_of(n)
    }

    /// The tree of a C++ text; nothing where the parser gives none.
    pub open spec fn tree_of(source: Seq<u8>) -> Option<SyntaxTree> {
        choose|tree: Option<SyntaxTree>| SyntaxTree::parsed(source, source, Seq::empty(), tree)
    }

    /// Parsing a text twice gives trees that cannot be told apart.
    pub proof fn parsing_is_repeatable(source: Seq<u8>, tree: Option<SyntaxTree>)
        requires
            SyntaxTree::parsed(source, source, Seq::empty(), tree),
        ensures
            tree is Some == SyntaxTree::tree_of(source) is Some,
            tree is Some ==> tree->0.agrees(SyntaxTree::tree_of(source)->0),
    {
        let other = SyntaxTree::tree_of(source);
        assert(SyntaxTree::parsed(source, source, Seq::empty(), other));
        if tree is Some {
            let a = tree->0;
            let b = other->0;
            assert forall|n: usize| #![trigger a.node(n)] #![trigger b.node(n)] a.node(n) == b.node(
                n,
            ) by {}
            assert forall|n: usize| #![trigger a.parent_of(n)] #![trigger b.parent_of(n)]
                a.parent_of(n) == b.parent_of(n) by {}
            assert forall|n: usize| #![trigger a.children_of(n)] #![trigger b.children_of(n)]
                a.children_of(n) == b.children_of(n) by {}
        }
    }

    /// Trees that agree have the same named children.
    pub proof fn agree_on_named_children(self, other: SyntaxTree, n: usize)
        requires
            self.agrees(other),
        ensures
            self.named_children_of(n) == other.named_children_of(n),
    {
        let mine = |c: usize| self.node(c).named;
        let theirs = |c: usize| other.node(c).named;
        assert(mine =~= theirs);
    }

    /// Trees that agree have the same children in roles.
    pub proof fn agree_on_roles(self, other: SyntaxTree, n: usize, field: Field)
        requires
            self.agrees(other),
        ensures
            self.child_in_role(n, field) == other.child_in_role(n, field),
            self.children_in_role(n, field) == other.children_in_role(n, field),
    {
        self.agree_on_first(other, self.children_of(n), field);
        let mine = |c: usize| self.node(c).field == Some(field);
        let theirs = |c: usize| other.node(c).field == Some(field);
        assert(mine =~= theirs);
    }

    proof fn agree_on_first(self, other: SyntaxTree, nodes: Seq<usize>, field: Field)
        requires
            self.agrees(other),
        ensures
            self.first_in_role(nodes, field) == other.first_in_role(nodes, field),
        decreases nodes.len(),
    {
        if nodes.len() > 0 {
            self.agree_on_first(other, nodes.drop_first(), field);
        }
    }

    /// Parse a C++ text.
    pub fn parse(source: &[u8]) -> (r: Option<Self>)
        ensures
            SyntaxTree::parsed(source@, source@, Seq::empty(), r),
    {
        let edits: Vec<(usize, usize, usize, usize, usize)> = Vec::new();
        assert(edits@ =~= Seq::empty());
        SyntaxTree::parse_edited(source, source, edits.as_slice())
    }

    /// Parse a text and give the nodes the positions that they have in another text,
    /// which the edits lead to.
    pub fn parse_edited(
        parsed_text: &[u8],
        source: &[u8],
        edits: &[(usize, usize, usize, usize, usize)],
    ) -> (r: Option<Self>)
        ensures
            SyntaxTree::parsed(parsed_text@, source@, edits@, r),
    {
        if parsed_text.len() as u64 > u32::MAX as u64 {
            return None;
        }
        let mut tree = match parse_text(parsed_text) {
            None => {
                return None;
            },
            Some(tree) => tree,
        };
        let shapes = report_shapes(&tree);
        let mut i: usize = 0;
        assert(tree_edits(tree) =~= edits@.take(0));
        while i < edits.len()
            invariant
                i <= edits@.len(),
                tree_text(tree) == parsed_text@,
                tree_edits(tree) == edits@.take(i as int),
            decreases edits@.len() - i,
        {
            assert(edits@.take(i + 1) =~= edits@.take(i as int).push(edits@[i as int]));
            edit_tree(&mut tree, &edits[i]);
            i += 1;
        }
        assert(edits@.take(i as int) =~= edits@);
        let positions = report_positions(&tree);
        SyntaxTree::from_reports(tree, source, shapes.as_slice(), positions.as_slice())
    }

    /// The tree of the parser crate.
    pub(crate) fn parser_tree(&self) -> (r: &Tree)
        ensures
            tree_text(*r) == self.parser_text(),
            tree_edits(*r) == self.parser_edits(),
            cpp_shapes(tree_text(*r)) is Some,
            cpp_shapes(tree_text(*r))->0.len() == self.count(),
    {
        proof {
            use_type_invariant(self);
        }
        &self.tree
    }

    /// Whether this tree has the nodes of another over some text.
    pub open spec fn restates(self, other: SyntaxTree, source: Seq<u8>) -> bool {
        &&& self.text() == source
        &&& self.count() == other.count()
        &&& self.parser_text() == other.parser_text()
        &&& self.parser_edits() == other.parser_edits()
        &&& forall|n: usize| #![trigger self.node(n)] #![trigger other.node(n)]
            self.node(n) == other.node(n)
        &&& forall|n: usize| #![trigger self.parent_of(n)] #![trigger other.parent_of(n)]
            self.parent_of(n) == other.parent_of(n)
        &&& forall|n: usize| #![trigger self.children_of(n)] #![trigger other.children_of(n)]
            self.children_of(n) == other.children_of(n)
    }

    /// The tree over another text.
    pub fn with_source(self, source: &[u8]) -> (r: Self)
        ensures
            r.restates(self, source@),
    {
        proof {
            use_type_invariant(&self);
        }
        let ghost before = self;
        let SyntaxTree { data, parents, children, tree, .. } = self;
        let tree = SyntaxTree { data, parents, children, source: copy_bytes(source), tree };
        proof {
            assert forall|n: usize|
                #![trigger tree.children_of(n)]
                #![trigger before.children_of(n)]
                tree.children_of(n) == before.children_of(n) by {
                assert(tree.children@ == before.children@);
                assert(tree.data@ == before.data@);
                assert(tree.parents@ == before.parents@);
            }
        }
        tree
    }

    /// The number of nodes. There is always a root.
    pub fn len(&self) -> (r: usize)
        ensures
            r == self.count(),
            r > 0,
    {
        proof {
            use_type_invariant(self);
        }
        self.data.len()
    }

    /// The text of the tree.
    pub fn source(&self) -> (r: &[u8])
        ensures
            r@ == self.text(),
    {
        self.source.as_slice()
    }

    /// The data of a node.
    pub fn data(&self, n: usize) -> (r: NodeData)
        ensures
            r == self.node(n),
    {
        if n < self.data.len() {
            self.data[n]
        } else {
            NodeData {
                kind: Kind::Other,
                field: None,
                preprocessor: false,
                expression: false,
                named: false,
                missing: false,
                has_error: false,
                range: TextRange {
                    start_byte: 0,
                    end_byte: 0,
                    start_line: 0,
                    start_column: 0,
                    end_line: 0,
                    end_column: 0,
                },
            }
        }
    }

    /// The kind of a node.
    pub fn kind(&self, n: usize) -> (r: Kind)
        ensures
            r == self.kind_of(n),
    {
        self.data(n).kind
    }

    /// The range of a node.
    pub fn range(&self, n: usize) -> (r: TextRange)
        ensures
            r == self.range_of(n),
    {
        self.data(n).range
    }

    /// The text of a node.
    pub fn node_text(&self, n: usize) -> (r: Option<&[u8]>)
        ensures
            match r {
                None => self.text_of(n) is None,
                Some(text) => self.text_of(n) == Some(text@),
            },
    {
        let range = self.range(n);
        get_slice(self.source.as_slice(), range.start_byte as usize, range.end_byte as usize)
    }

    /// Whether the text of a node is a word.
    pub fn text_is(&self, n: usize, word: &str) -> (r: bool)
        ensures
            r == (self.text_of(n) == Some(word.spec_bytes())),
    {
        match self.node_text(n) {
            None => false,
            Some(text) => same_bytes(text, word.as_bytes()),
        }
    }

    /// The parent of a node.
    pub fn parent(&self, n: usize) -> (r: Option<usize>)
        ensures
            r == self.parent_of(n),
    {
        proof {
            use_type_invariant(self);
        }
        if n < self.parents.len() {
            self.parents[n]
        } else {
            None
        }
    }

    /// The children of a node.
    pub fn children(&self, n: usize) -> (r: &[usize])
        ensures
            r@ == self.children_of(n),
    {
        proof {
            use_type_invariant(self);
        }
        if n < self.children.len() {
            self.children[n].as_slice()
        } else {
            let none: &[usize] = &[];
            assert(none@ =~= Seq::empty());
            none
        }
    }

    /// The first child of a node that has a role.
    pub fn child_by_field(&self, n: usize, field: Field) -> (r: Option<usize>)
        ensures
            r == self.child_in_role(n, field),
    {
        let children = self.children(n);
        let mut i: usize = 0;
        assert(children@.skip(0) =~= children@);
        while i < children.len()
            invariant
                i <= children@.len(),
                children@ == self.children_of(n),
                self.child_in_role(n, field) == self.first_in_role(
                    children@.skip(i as int),
                    field,
                ),
            decreases children@.len() - i,
        {
            assert(children@.skip(i as int).drop_first() =~= children@.skip(i + 1));
            if self.data(children[i]).field == Some(field) {
                return Some(children[i]);
            }
            i += 1;
        }
        None
    }

    /// The children of a node that have a role, in order.
    pub open spec fn children_in_role(&self, n: usize, field: Field) -> Seq<usize> {
        self.children_of(n).filter(|c: usize| self.node(c).field == Some(field))
    }

    /// The children of a node that have a role, in order.
    pub fn children_by_field(&self, n: usize, field: Field) -> (r: Vec<usize>)
        ensures
            r@ == self.children_in_role(n, field),
    {
        let children = self.children(n);
        let ghost keep = |c: usize| self.node(c).field == Some(field);
        let mut found: Vec<usize> = Vec::new();
        let mut i: usize = 0;
        assert(children@.take(0).filter(keep) =~= Seq::empty()) by {
            reveal(Seq::filter);
        }
        while i < children.len()
            invariant
                i <= children@.len(),
                keep == (|c: usize| self.node(c).field == Some(field)),
                found@ == children@.take(i as int).filter(keep),
            decreases children@.len() - i,
        {
            proof {
                lemma_filter_step(children@, keep, i as int);
            }
            if self.data(children[i]).field == Some(field) {
                found.push(children[i]);
            }
            i += 1;
        }
        assert(children@.take(i as int) =~= children@);
        found
    }

    /// The named children of a node.
    pub fn named_children(&self, n: usize) -> (r: Vec<usize>)
        ensures
            r@ == self.named_children_of(n),
    {
        let children = self.children(n);
        let ghost keep = |c: usize| self.node(c).named;
        let mut found: Vec<usize> = Vec::new();
        let mut i: usize = 0;
        assert(children@.take(0).filter(keep) =~= Seq::empty()) by {
            reveal(Seq::filter);
        }
        while i < children.len()
            invariant
                i <= children@.len(),
                keep == (|c: usize| self.node(c).named),
                found@ == children@.take(i as int).filter(keep),
            decreases children@.len() - i,
        {
            proof {
                lemma_filter_step(children@, keep, i as int);
            }
            if self.data(children[i]).named {
                found.push(children[i]);
            }
            i += 1;
        }
        assert(children@.take(i as int) =~= children@);
        found
    }

    /// Named children are children.
    pub proof fn named_children_are_children(self, n: usize, k: int)
        requires
            0 <= k < self.named_children_of(n).len(),
        ensures
            n < self.named_children_of(n)[k] < self.count(),
            self.children_of(n).contains(self.named_children_of(n)[k]),
            self.node(self.named_children_of(n)[k]).named,
            self.parent_of(self.named_children_of(n)[k]) == Some(n),
    {
        let keep = |c: usize| self.node(c).named;
        let c = self.named_children_of(n)[k];
        assert(self.named_children_of(n).contains(c));
        self.children_of(n).lemma_filter_contains_rev(keep, c);
        self.children_of(n).lemma_filter_pred(keep, k);
        let i = choose|i: int| 0 <= i < self.children_of(n).len() && self.children_of(n)[i] == c;
        self.children_come_later(n, i);
    }

    /// A child in a role is a child.
    pub proof fn child_in_role_is_child(self, n: usize, field: Field)
        ensures
            match self.child_in_role(n, field) {
                None => true,
                Some(c) => n < c < self.count() && self.children_of(n).contains(c)
                    && self.parent_of(c) == Some(n) && self.node(c).field == Some(field),
            },
    {
        self.lemma_first_in_role(self.children_of(n), field);
        match self.child_in_role(n, field) {
            None => {},
            Some(c) => {
                let i = choose|i: int|
                    0 <= i < self.children_of(n).len() && self.children_of(n)[i] == c;
                self.children_come_later(n, i);
            },
        }
    }

    proof fn lemma_first_in_role(self, nodes: Seq<usize>, field: Field)
        ensures
            match self.first_in_role(nodes, field) {
                None => true,
                Some(c) => nodes.contains(c) && self.node(c).field == Some(field),
            },
        decreases nodes.len(),
    {
        if nodes.len() > 0 {
            if self.node(nodes[0]).field == Some(field) {
                assert(nodes.contains(nodes[0]));
            } else {
                let rest = nodes.drop_first();
                self.lemma_first_in_role(rest, field);
                match self.first_in_role(rest, field) {
                    None => {},
                    Some(c) => {
                        let i = choose|i: int| 0 <= i < rest.len() && rest[i] == c;
                        assert(nodes[i + 1] == c);
                    },
                }
            }
        }
    }

    /// What encloses a node, from its parent to the root.
    pub open spec fn ancestors_of(&self, n: usize) -> Seq<usize>
        decreases n,
        via Self::ancestors_decreases
    {
        match self.parent_of(n) {
            None => Seq::empty(),
            Some(p) => seq![p] + self.ancestors_of(p),
        }
    }

    #[via_fn]
    proof fn ancestors_decreases(&self, n: usize) {
        self.parent_comes_first(n);
    }

    /// What encloses a node, from its parent to the root.
    pub fn ancestors(&self, n: usize) -> (r: Vec<usize>)
        ensures
            r@ == self.ancestors_of(n),
    {
        let mut found: Vec<usize> = Vec::new();
        let mut at: usize = n;
        let mut up = self.parent(n);
        assert(found@ + self.ancestors_of(n) =~= self.ancestors_of(n));
        while up.is_some()
            invariant
                up == self.parent_of(at),
                found@ + self.ancestors_of(at) == self.ancestors_of(n),
            decreases at,
        {
            let p = up.unwrap();
            proof {
                self.parent_comes_first(at);
            }
            let ghost before = found@;
            found.push(p);
            assert(before + (seq![p] + self.ancestors_of(p)) =~= before.push(p)
                + self.ancestors_of(p));
            at = p;
            up = self.parent(p);
        }
        assert(found@ + Seq::<usize>::empty() =~= found@);
        found
    }

    /// A node and what encloses it.
    pub open spec fn lineage_of(&self, n: usize) -> Seq<usize> {
        seq![n] + self.ancestors_of(n)
    }

    /// A node and what encloses it.
    pub fn lineage(&self, n: usize) -> (r: Vec<usize>)
        ensures
            r@ == self.lineage_of(n),
    {
        let above = self.ancestors(n);
        let mut found: Vec<usize> = Vec::new();
        found.push(n);
        let mut i: usize = 0;
        while i < above.len()
            invariant
                i <= above@.len(),
                found@ == seq![n] + above@.take(i as int),
            decreases above@.len() - i,
        {
            found.push(above[i]);
            assert(above@.take(i + 1) =~= above@.take(i as int).push(above@[i as int]));
            i += 1;
        }
        assert(above@.take(i as int) =~= above@);
        found
    }

    /// The first of some nodes that is of a wanted kind, before any that is of a kind
    /// to stop at.
    pub open spec fn first_of(
        &self,
        nodes: Seq<usize>,
        want: Seq<Kind>,
        stop: Seq<Kind>,
    ) -> Option<usize>
        decreases nodes.len(),
    {
        if nodes.len() == 0 || stop.contains(self.kind_of(nodes[0])) {
            None
        } else if want.contains(self.kind_of(nodes[0])) {
            Some(nodes[0])
        } else {
            self.first_of(nodes.drop_first(), want, stop)
        }
    }

    /// The first of some nodes that is of a wanted kind, before any that is of a kind
    /// to stop at.
    pub fn find_first(&self, nodes: &[usize], want: &[Kind], stop: &[Kind]) -> (r: Option<usize>)
        ensures
            r == self.first_of(nodes@, want@, stop@),
    {
        let mut i: usize = 0;
        assert(nodes@.skip(0) =~= nodes@);
        while i < nodes.len()
            invariant
                i <= nodes@.len(),
                self.first_of(nodes@, want@, stop@) == self.first_of(
                    nodes@.skip(i as int),
                    want@,
                    stop@,
                ),
            decreases nodes@.len() - i,
        {
            assert(nodes@.skip(i as int).drop_first() =~= nodes@.skip(i + 1));
            let kind = self.kind(nodes[i]);
            if is_any(stop, kind) {
                return None;
            }
            if is_any(want, kind) {
                return Some(nodes[i]);
            }
            i += 1;
        }
        None
    }

    /// Whether one of some nodes is of one of some kinds.
    pub open spec fn has_one_of(&self, nodes: Seq<usize>, kinds: Seq<Kind>) -> bool {
        exists|i: int| 0 <= i < nodes.len() && kinds.contains(self.kind_of(#[trigger] nodes[i]))
    }

    /// Whether one of some nodes is of one of some kinds.
    pub fn has_any(&self, nodes: &[usize], kinds: &[Kind]) -> (r: bool)
        ensures
            r == self.has_one_of(nodes@, kinds@),
    {
        let mut i: usize = 0;
        while i < nodes.len()
            invariant
                i <= nodes@.len(),
                forall|k: int|
                    0 <= k < i ==> !kinds@.contains(self.kind_of(#[trigger] nodes@[k])),
            decreases nodes@.len() - i,
        {
            if is_any(kinds, self.kind(nodes[i])) {
                return true;
            }
            i += 1;
        }
        false
    }

    /// Some nodes without those that are of one of some kinds.
    pub open spec fn without(&self, nodes: Seq<usize>, kinds: Seq<Kind>) -> Seq<usize> {
        nodes.filter(|n: usize| !kinds.contains(self.kind_of(n)))
    }

    /// Some nodes without those that are of one of some kinds.
    pub fn drop_kinds(&self, nodes: &[usize], kinds: &[Kind]) -> (r: Vec<usize>)
        ensures
            r@ == self.without(nodes@, kinds@),
    {
        let ghost keep = |n: usize| !kinds@.contains(self.kind_of(n));
        let mut found: Vec<usize> = Vec::new();
        let mut i: usize = 0;
        assert(nodes@.take(0).filter(keep) =~= Seq::empty()) by {
            reveal(Seq::filter);
        }
        while i < nodes.len()
            invariant
                i <= nodes@.len(),
                keep == (|n: usize| !kinds@.contains(self.kind_of(n))),
                found@ == nodes@.take(i as int).filter(keep),
            decreases nodes@.len() - i,
        {
            proof {
                lemma_filter_step(nodes@, keep, i as int);
            }
            if !is_any(kinds, self.kind(nodes[i])) {
                found.push(nodes[i]);
            }
            i += 1;
        }
        assert(nodes@.take(i as int) =~= nodes@);
        found
    }

    /// The named children of a node that are no comments.
    pub open spec fn parts_of(&self, n: usize) -> Seq<usize> {
        self.without(self.named_children_of(n), seq![Kind::Comment])
    }

    /// The named children of a node that are no comments.
    pub fn parts(&self, n: usize) -> (r: Vec<usize>)
        ensures
            r@ == self.parts_of(n),
    {
        let children = self.named_children(n);
        let comments = [Kind::Comment];
        assert(comments@ =~= seq![Kind::Comment]);
        self.drop_kinds(children.as_slice(), &comments)
    }

    /// Parts are children.
    pub proof fn parts_are_children(self, n: usize, k: int)
        requires
            0 <= k < self.parts_of(n).len(),
        ensures
            n < self.parts_of(n)[k] < self.count(),
            self.named_children_of(n).contains(self.parts_of(n)[k]),
            self.parent_of(self.parts_of(n)[k]) == Some(n),
    {
        let keep = |c: usize| !seq![Kind::Comment].contains(self.kind_of(c));
        let c = self.parts_of(n)[k];
        let named = self.named_children_of(n);
        assert(self.parts_of(n).contains(c));
        named.lemma_filter_contains_rev(keep, c);
        let i = choose|i: int| 0 <= i < named.len() && named[i] == c;
        self.named_children_are_children(n, i);
    }

    /// The only part of a node, where it has one and no more.
    pub open spec fn sole_part_of(&self, n: usize) -> Option<usize> {
        if self.parts_of(n).len() == 1 {
            Some(self.parts_of(n)[0])
        } else {
            None
        }
    }

    /// The only part of a node, where it has one and no more.
    pub fn sole_part(&self, n: usize) -> (r: Option<usize>)
        ensures
            r == self.sole_part_of(n),
            r is Some ==> n < r->0 < self.count(),
    {
        let parts = self.parts(n);
        if parts.len() == 1 {
            proof {
                self.parts_are_children(n, 0);
            }
            Some(parts[0])
        } else {
            None
        }
    }

    /// The place of a node among the children of its parent.
    pub open spec fn place_of(&self, n: usize) -> Option<int> {
        match self.parent_of(n) {
            None => None,
            Some(p) => if self.children_of(p).contains(n) {
                Some(self.children_of(p).index_of_first(n)->0)
            } else {
                None
            },
        }
    }

    /// The siblings behind a node, nearest first.
    pub open spec fn later_siblings_of(&self, n: usize) -> Seq<usize> {
        match (self.parent_of(n), self.place_of(n)) {
            (Some(p), Some(i)) => self.children_of(p).skip(i + 1),
            _ => Seq::empty(),
        }
    }

    /// The siblings before a node, nearest first.
    pub open spec fn earlier_siblings_of(&self, n: usize) -> Seq<usize> {
        match (self.parent_of(n), self.place_of(n)) {
            (Some(p), Some(i)) => self.children_of(p).take(i).reverse(),
            _ => Seq::empty(),
        }
    }

    fn place(&self, n: usize) -> (r: Option<usize>)
        ensures
            match r {
                None => self.place_of(n) is None,
                Some(i) => self.place_of(n) == Some(i as int) && self.parent_of(n) is Some && i
                    < self.children_of(self.parent_of(n)->0).len(),
            },
    {
        match self.parent(n) {
            None => None,
            Some(p) => {
                let children = self.children(p);
                let mut i: usize = 0;
                while i < children.len()
                    invariant
                        i <= children@.len(),
                        children@ == self.children_of(p),
                        self.parent_of(n) == Some(p),
                        forall|k: int| 0 <= k < i ==> children@[k] != n,
                    decreases children@.len() - i,
                {
                    if children[i] == n {
                        proof {
                            children@.index_of_first_ensures(n);
                            let first = children@.index_of_first(n)->0;
                            assert(children@.contains(n));
                        }
                        return Some(i);
                    }
                    i += 1;
                }
                None
            },
        }
    }

    /// The siblings behind a node, nearest first.
    pub fn later_siblings(&self, n: usize) -> (r: Vec<usize>)
        ensures
            r@ == self.later_siblings_of(n),
    {
        let mut found: Vec<usize> = Vec::new();
        match (self.parent(n), self.place(n)) {
            (Some(p), Some(place)) => {
                let children = self.children(p);
                let count: usize = children.len();
                let mut i: usize = place + 1;
                while i < count
                    invariant
                        place + 1 <= i <= count,
                        count == children@.len(),
                        found@ == children@.subrange(place + 1, i as int),
                    decreases children@.len() - i,
                {
                    found.push(children[i]);
                    assert(children@.subrange(place + 1, i + 1) =~= children@.subrange(
                        place + 1,
                        i as int,
                    ).push(children@[i as int]));
                    i += 1;
                }
                assert(children@.subrange(place + 1, i as int) =~= children@.skip(place + 1));
            },
            _ => {},
        }
        found
    }

    /// The siblings before a node, nearest first.
    pub fn earlier_siblings(&self, n: usize) -> (r: Vec<usize>)
        ensures
            r@ == self.earlier_siblings_of(n),
    {
        let mut found: Vec<usize> = Vec::new();
        match (self.parent(n), self.place(n)) {
            (Some(p), Some(place)) => {
                let children = self.children(p);
                let mut i: usize = place;
                while i > 0
                    invariant
                        i <= place < children@.len(),
                        found@ == children@.subrange(i as int, place as int).reverse(),
                    decreases i,
                {
                    i -= 1;
                    found.push(children[i]);
                    assert(children@.subrange(i as int, place as int).reverse()
                        =~= children@.subrange(i + 1, place as int).reverse().push(
                        children@[i as int],
                    ));
                }
                assert(children@.subrange(0, place as int) =~= children@.take(place as int));
            },
            _ => {},
        }
        found
    }

    /// The first of some nodes that is named.
    pub open spec fn first_named(&self, nodes: Seq<usize>) -> Option<usize>
        decreases nodes.len(),
    {
        if nodes.len() == 0 {
            None
        } else if self.node(nodes[0]).named {
            Some(nodes[0])
        } else {
            self.first_named(nodes.drop_first())
        }
    }

    /// The first of some nodes that is named.
    pub fn find_named(&self, nodes: &[usize]) -> (r: Option<usize>)
        ensures
            r == self.first_named(nodes@),
    {
        let mut i: usize = 0;
        assert(nodes@.skip(0) =~= nodes@);
        while i < nodes.len()
            invariant
                i <= nodes@.len(),
                self.first_named(nodes@) == self.first_named(nodes@.skip(i as int)),
            decreases nodes@.len() - i,
        {
            assert(nodes@.skip(i as int).drop_first() =~= nodes@.skip(i + 1));
            if self.data(nodes[i]).named {
                return Some(nodes[i]);
            }
            i += 1;
        }
        None
    }

    /// The named nodes inside the first named children of a node, in preorder.
    pub open spec fn named_inside(&self, n: usize, count: nat) -> Seq<usize>
        decreases self.count() - n, count,
        via Self::named_inside_decreases
    {
        if count == 0 || count > self.named_children_of(n).len() {
            Seq::empty()
        } else {
            let c = self.named_children_of(n)[count - 1];
            self.named_inside(n, (count - 1) as nat) + (seq![c] + self.named_inside(
                c,
                self.named_children_of(c).len(),
            ))
        }
    }

    #[via_fn]
    proof fn named_inside_decreases(&self, n: usize, count: nat) {
        if count > 0 && count <= self.named_children_of(n).len() {
            self.named_children_are_children(n, count - 1);
        }
    }

    /// A node and the named nodes inside it, in preorder.
    pub open spec fn named_preorder(&self, n: usize) -> Seq<usize> {
        seq![n] + self.named_inside(n, self.named_children_of(n).len())
    }

    fn push_named_inside(&self, n: usize, found: &mut Vec<usize>)
        ensures
            final(found)@ == old(found)@ + self.named_inside(n, self.named_children_of(n).len()),
        decreases self.count() - n,
    {
        let children = self.named_children(n);
        let ghost before = found@;
        let mut i: usize = 0;
        assert(before + self.named_inside(n, 0) =~= before);
        while i < children.len()
            invariant
                i <= children@.len(),
                children@ == self.named_children_of(n),
                found@ == before + self.named_inside(n, i as nat),
            decreases children@.len() - i,
        {
            let c = children[i];
            proof {
                self.named_children_are_children(n, i as int);
            }
            found.push(c);
            self.push_named_inside(c, found);
            proof {
                let inner = self.named_inside(c, self.named_children_of(c).len());
                assert((before + self.named_inside(n, i as nat)).push(c) + inner =~= before + (
                self.named_inside(n, i as nat) + (seq![c] + inner)));
            }
            i += 1;
        }
    }

    /// A node and the named nodes inside it, in preorder.
    pub fn named_descendants(&self, n: usize) -> (r: Vec<usize>)
        ensures
            r@ == self.named_preorder(n),
    {
        let mut found: Vec<usize> = Vec::new();
        found.push(n);
        self.push_named_inside(n, &mut found);
        found
    }

    /// The first of some nodes that reaches over a range of bytes. An empty node has
    /// to reach the start, another one past it.
    pub open spec fn first_over(&self, nodes: Seq<usize>, start: int, end: int) -> Option<usize>
        decreases nodes.len(),
    {
        if nodes.len() == 0 {
            None
        } else {
            let range = self.range_of(nodes[0]);
            let empty = range.start_byte == range.end_byte;
            if range.end_byte < end || (if empty {
                range.end_byte < start
            } else {
                range.end_byte <= start
            }) {
                self.first_over(nodes.drop_first(), start, end)
            } else if start < range.start_byte {
                None
            } else {
                Some(nodes[0])
            }
        }
    }

    /// The innermost node that reaches over a range of bytes, searched from a node.
    pub open spec fn innermost_over(&self, n: usize, start: int, end: int) -> usize
        decreases self.count() - n,
        via Self::innermost_over_decreases
    {
        match self.first_over(self.children_of(n), start, end) {
            None => n,
            Some(c) => self.innermost_over(c, start, end),
        }
    }

    #[via_fn]
    proof fn innermost_over_decreases(&self, n: usize, start: int, end: int) {
        self.lemma_first_over(self.children_of(n), start, end);
        match self.first_over(self.children_of(n), start, end) {
            None => {},
            Some(c) => {
                let i = choose|i: int|
                    0 <= i < self.children_of(n).len() && self.children_of(n)[i] == c;
                self.children_come_later(n, i);
            },
        }
    }

    proof fn lemma_first_over(&self, nodes: Seq<usize>, start: int, end: int)
        ensures
            match self.first_over(nodes, start, end) {
                None => true,
                Some(c) => nodes.contains(c),
            },
        decreases nodes.len(),
    {
        if nodes.len() > 0 {
            let rest = nodes.drop_first();
            self.lemma_first_over(rest, start, end);
            assert(nodes.contains(nodes[0]));
            match self.first_over(rest, start, end) {
                None => {},
                Some(c) => {
                    let i = choose|i: int| 0 <= i < rest.len() && rest[i] == c;
                    assert(nodes[i + 1] == c);
                },
            }
        }
    }

    /// The innermost node of the tree that reaches over a range.
    pub open spec fn node_at(&self, start: u32, end: u32) -> Option<usize> {
        if start > end {
            None
        } else {
            Some(self.innermost_over(0, start as int, end as int))
        }
    }

    fn over(&self, nodes: &[usize], start: u32, end: u32) -> (r: Option<usize>)
        ensures
            r == self.first_over(nodes@, start as int, end as int),
    {
        let mut i: usize = 0;
        assert(nodes@.skip(0) =~= nodes@);
        while i < nodes.len()
            invariant
                i <= nodes@.len(),
                self.first_over(nodes@, start as int, end as int) == self.first_over(
                    nodes@.skip(i as int),
                    start as int,
                    end as int,
                ),
            decreases nodes@.len() - i,
        {
            assert(nodes@.skip(i as int).drop_first() =~= nodes@.skip(i + 1));
            let range = self.range(nodes[i]);
            let short = range.end_byte < end || (if range.start_byte == range.end_byte {
                range.end_byte < start
            } else {
                range.end_byte <= start
            });
            if !short {
                if start < range.start_byte {
                    return None;
                }
                return Some(nodes[i]);
            }
            i += 1;
        }
        None
    }

    /// The innermost node of the tree that reaches over a range.
    pub fn descendant_for_byte_range(&self, start: u32, end: u32) -> (r: Option<usize>)
        ensures
            r == self.node_at(start, end),
    {
        if start > end {
            return None;
        }
        let mut at: usize = 0;
        let mut next = self.over(self.children(0), start, end);
        while next.is_some()
            invariant
                next == self.first_over(self.children_of(at), start as int, end as int),
                self.innermost_over(0, start as int, end as int) == self.innermost_over(
                    at,
                    start as int,
                    end as int,
                ),
            decreases self.count() - at,
        {
            let c = next.unwrap();
            proof {
                self.lemma_first_over(self.children_of(at), start as int, end as int);
                let i = choose|i: int|
                    0 <= i < self.children_of(at).len() && self.children_of(at)[i] == c;
                self.children_come_later(at, i);
            }
            at = c;
            next = self.over(self.children(c), start, end);
        }
        Some(at)
    }
}

} // verus!
