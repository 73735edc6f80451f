//! The records that analysis reads and writes: source ranges, control-flow and
//! dataflow nodes, symbols, scopes, references and their diagnostics.

use crate::ids::{
    digest_field, identity_of, number_field, BindingId, CallsiteId, CfgEdgeId,
    CfgNodeId, DataFlowEdgeId, DataNodeId, EdgeId, Fields, FileId, ReferenceId, ScopeId, SymbolId,
};
use crate::text::Text;
use vstd::prelude::*;
use vstd::string::StringSliceAdditionalSpecFns;

verus! {

/// A region of source text. Bytes, lines and columns count from zero.
#[derive(Clone, Copy, PartialEq, Eq, Structural, Debug, Hash)]
pub struct TextRange {
    pub start_byte: u32,
    pub end_byte: u32,
    pub start_line: u32,
    pub start_column: u32,
    pub end_line: u32,
    pub end_column: u32,
}

impl Default for TextRange {
    fn default() -> (r: Self)
        ensures
            r == (TextRange {
                start_byte: 0,
                end_byte: 0,
                start_line: 0,
                start_column: 0,
                end_line: 0,
                end_column: 0,
            }),
    {
        TextRange {
            start_byte: 0,
            end_byte: 0,
            start_line: 0,
            start_column: 0,
            end_line: 0,
            end_column: 0,
        }
    }
}

impl TextRange {
    /// Whether the other range lies inside this one.
    pub open spec fn covers(self, inner: TextRange) -> bool {
        self.start_byte <= inner.start_byte && inner.end_byte <= self.end_byte
    }

    /// Whether both ranges hold the same bytes.
    pub open spec fn same_bytes(self, other: TextRange) -> bool {
        self.start_byte == other.start_byte && self.end_byte == other.end_byte
    }

    /// The number of bytes; a range that ends before it starts holds none.
    pub open spec fn byte_len_spec(self) -> u32 {
        if self.end_byte >= self.start_byte {
            (self.end_byte - self.start_byte) as u32
        } else {
            0
        }
    }

    /// The number of bytes; a range that ends before it starts holds none.
    pub fn byte_len(&self) -> (r: u32)
        ensures
            r == self.byte_len_spec(),
    {
        if self.end_byte >= self.start_byte {
            self.end_byte - self.start_byte
        } else {
            0
        }
    }

    /// Whether the other range lies inside this one.
    pub fn contains_range(&self, inner: &TextRange) -> (r: bool)
        ensures
            r == self.covers(*inner),
    {
        self.start_byte <= inner.start_byte && inner.end_byte <= self.end_byte
    }
}

/// A source language.
#[derive(Clone, Copy, PartialEq, Eq, Structural, Debug, Hash)]
pub enum Language {
    C,
    Cpp,
    TypeScript,
    Other,
}

impl Language {
    /// The stored name.
    pub open spec fn name(self) -> &'static str {
        match self {
            Language::C => "c",
            Language::Cpp => "cpp",
            Language::TypeScript => "type_script",
            Language::Other => "other",
        }
    }

    /// The stored name.
    pub fn as_str(&self) -> (r: &'static str)
        ensures
            r == self.name(),
    {
        match self {
            Language::C => "c",
            Language::Cpp => "cpp",
            Language::TypeScript => "type_script",
            Language::Other => "other",
        }
    }
}

/// What a control-flow node stands for.
#[derive(Clone, Copy, PartialEq, Eq, Structural, Debug, Hash)]
pub enum CfgNodeKind {
    Entry,
    Exit,
    Statement,
    Branch,
    Loop,
    Return,
    BlockExit,
    Other,
}

impl CfgNodeKind {
    /// The stored name.
    pub open spec fn name(self) -> &'static str {
        match self {
            CfgNodeKind::Entry => "entry",
            CfgNodeKind::Exit => "exit",
            CfgNodeKind::Statement => "statement",
            CfgNodeKind::Branch => "branch",
            CfgNodeKind::Loop => "loop",
            CfgNodeKind::Return => "return",
            CfgNodeKind::BlockExit => "block_exit",
            CfgNodeKind::Other => "other",
        }
    }

    /// The stored name.
    pub fn as_str(&self) -> (r: &'static str)
        ensures
            r == self.name(),
    {
        match self {
            CfgNodeKind::Entry => "entry",
            CfgNodeKind::Exit => "exit",
            CfgNodeKind::Statement => "statement",
            CfgNodeKind::Branch => "branch",
            CfgNodeKind::Loop => "loop",
            CfgNodeKind::Return => "return",
            CfgNodeKind::BlockExit => "block_exit",
            CfgNodeKind::Other => "other",
        }
    }
}

/// How control passes along an edge.
#[derive(Clone, Copy, PartialEq, Eq, Structural, Debug, Hash)]
pub enum CfgEdgeKind {
    Normal,
    TrueBranch,
    FalseBranch,
    Exception,
    Back,
}

impl CfgEdgeKind {
    /// The stored name.
    pub open spec fn name(self) -> &'static str {
        match self {
            CfgEdgeKind::Normal => "normal",
            CfgEdgeKind::TrueBranch => "true_branch",
            CfgEdgeKind::FalseBranch => "false_branch",
            CfgEdgeKind::Exception => "exception",
            CfgEdgeKind::Back => "back",
        }
    }

    /// The stored name.
    pub fn as_str(&self) -> (r: &'static str)
        ensures
            r == self.name(),
    {
        match self {
            CfgEdgeKind::Normal => "normal",
            CfgEdgeKind::TrueBranch => "true_branch",
            CfgEdgeKind::FalseBranch => "false_branch",
            CfgEdgeKind::Exception => "exception",
            CfgEdgeKind::Back => "back",
        }
    }
}

/// What a dataflow node stands for.
#[derive(Clone, Copy, PartialEq, Eq, Structural, Debug, Hash)]
pub enum DataNodeKind {
    Local,
    Parameter,
    Global,
    CallOutput,
    VariableUse,
    CallArg,
    Field,
    Receiver,
    Expr,
    Return,
    Literal,
    CallReturn,
    CallTarget,
    ParameterOutput,
}

impl DataNodeKind {
    /// The stored name.
    pub open spec fn name(self) -> &'static str {
        match self {
            DataNodeKind::Local => "local",
            DataNodeKind::Parameter => "parameter",
            DataNodeKind::Global => "global",
            DataNodeKind::CallOutput => "call_output",
            DataNodeKind::VariableUse => "variable_use",
            DataNodeKind::CallArg => "call_arg",
            DataNodeKind::Field => "field",
            DataNodeKind::Receiver => "receiver",
            DataNodeKind::Expr => "expr",
            DataNodeKind::Return => "return",
            DataNodeKind::Literal => "literal",
            DataNodeKind::CallReturn => "call_return",
            DataNodeKind::CallTarget => "call_target",
            DataNodeKind::ParameterOutput => "parameter_output",
        }
    }

    /// The stored name.
    pub fn as_str(&self) -> (r: &'static str)
        ensures
            r == self.name(),
    {
        match self {
            DataNodeKind::Local => "local",
            DataNodeKind::Parameter => "parameter",
            DataNodeKind::Global => "global",
            DataNodeKind::CallOutput => "call_output",
            DataNodeKind::VariableUse => "variable_use",
            DataNodeKind::CallArg => "call_arg",
            DataNodeKind::Field => "field",
            DataNodeKind::Receiver => "receiver",
            DataNodeKind::Expr => "expr",
            DataNodeKind::Return => "return",
            DataNodeKind::Literal => "literal",
            DataNodeKind::CallReturn => "call_return",
            DataNodeKind::CallTarget => "call_target",
            DataNodeKind::ParameterOutput => "parameter_output",
        }
    }
}

/// How a value passes along a dataflow edge.
#[derive(Clone, Copy, PartialEq, Eq, Structural, Debug, Hash)]
pub enum DataFlowKind {
    Assign,
    Read,
    Write,
    FieldLoad,
    FieldStore,
    ArgToCall,
    ArgToParam,
    ReturnValue,
    ReturnToCall,
    WritebackToCall,
    ReceiverToThis,
    StateFlow,
    Phi,
}

impl DataFlowKind {
    /// The stored name.
    pub open spec fn name(self) -> &'static str {
        match self {
            DataFlowKind::Assign => "assign",
            DataFlowKind::Read => "read",
            DataFlowKind::Write => "write",
            DataFlowKind::FieldLoad => "field_load",
            DataFlowKind::FieldStore => "field_store",
            DataFlowKind::ArgToCall => "arg_to_call",
            DataFlowKind::ArgToParam => "arg_to_param",
            DataFlowKind::ReturnValue => "return_value",
            DataFlowKind::ReturnToCall => "return_to_call",
            DataFlowKind::WritebackToCall => "writeback_to_call",
            DataFlowKind::ReceiverToThis => "receiver_to_this",
            DataFlowKind::StateFlow => "state_flow",
            DataFlowKind::Phi => "phi",
        }
    }

    /// The stored name.
    pub fn as_str(&self) -> (r: &'static str)
        ensures
            r == self.name(),
    {
        match self {
            DataFlowKind::Assign => "assign",
            DataFlowKind::Read => "read",
            DataFlowKind::Write => "write",
            DataFlowKind::FieldLoad => "field_load",
            DataFlowKind::FieldStore => "field_store",
            DataFlowKind::ArgToCall => "arg_to_call",
            DataFlowKind::ArgToParam => "arg_to_param",
            DataFlowKind::ReturnValue => "return_value",
            DataFlowKind::ReturnToCall => "return_to_call",
            DataFlowKind::WritebackToCall => "writeback_to_call",
            DataFlowKind::ReceiverToThis => "receiver_to_this",
            DataFlowKind::StateFlow => "state_flow",
            DataFlowKind::Phi => "phi",
        }
    }
}

/// How serious a diagnostic is.
#[derive(Clone, Copy, PartialEq, Eq, Structural, Debug, Hash)]
pub enum DiagnosticLevel {
    Info,
    Warning,
    Error,
}

impl DiagnosticLevel {
    /// The stored name.
    pub open spec fn name(self) -> &'static str {
        match self {
            DiagnosticLevel::Info => "info",
            DiagnosticLevel::Warning => "warning",
            DiagnosticLevel::Error => "error",
        }
    }

    /// The stored name.
    pub fn as_str(&self) -> (r: &'static str)
        ensures
            r == self.name(),
    {
        match self {
            DiagnosticLevel::Info => "info",
            DiagnosticLevel::Warning => "warning",
            DiagnosticLevel::Error => "error",
        }
    }
}

/// What a symbol defines.
#[derive(Clone, Copy, PartialEq, Eq, Structural, Debug, Hash)]
pub enum SymbolKind {
    Function,
    Method,
    Constructor,
    Class,
    Struct,
    Interface,
    Trait,
    Enum,
    Namespace,
    Module,
    Package,
    Field,
    Variable,
    TypeAlias,
    Macro,
    Other,
}

impl SymbolKind {
    /// The stored name.
    pub open spec fn name(self) -> &'static str {
        match self {
            SymbolKind::Function => "function",
            SymbolKind::Method => "method",
            SymbolKind::Constructor => "constructor",
            SymbolKind::Class => "class",
            SymbolKind::Struct => "struct",
            SymbolKind::Interface => "interface",
            SymbolKind::Trait => "trait",
            SymbolKind::Enum => "enum",
            SymbolKind::Namespace => "namespace",
            SymbolKind::Module => "module",
            SymbolKind::Package => "package",
            SymbolKind::Field => "field",
            SymbolKind::Variable => "variable",
            SymbolKind::TypeAlias => "type_alias",
            SymbolKind::Macro => "macro",
            SymbolKind::Other => "other",
        }
    }

    /// The stored name.
    pub fn as_str(&self) -> (r: &'static str)
        ensures
            r == self.name(),
    {
        match self {
            SymbolKind::Function => "function",
            SymbolKind::Method => "method",
            SymbolKind::Constructor => "constructor",
            SymbolKind::Class => "class",
            SymbolKind::Struct => "struct",
            SymbolKind::Interface => "interface",
            SymbolKind::Trait => "trait",
            SymbolKind::Enum => "enum",
            SymbolKind::Namespace => "namespace",
            SymbolKind::Module => "module",
            SymbolKind::Package => "package",
            SymbolKind::Field => "field",
            SymbolKind::Variable => "variable",
            SymbolKind::TypeAlias => "type_alias",
            SymbolKind::Macro => "macro",
            SymbolKind::Other => "other",
        }
    }
}

/// What a lexical scope belongs to.
#[derive(Clone, Copy, PartialEq, Eq, Structural, Debug, Hash)]
pub enum ScopeKind {
    File,
    Module,
    Namespace,
    Class,
    Struct,
    Interface,
    Trait,
    Enum,
    Function,
    Method,
    Block,
    Conditional,
    Loop,
    Other,
}

impl ScopeKind {
    /// The stored name.
    pub open spec fn name(self) -> &'static str {
        match self {
            ScopeKind::File => "file",
            ScopeKind::Module => "module",
            ScopeKind::Namespace => "namespace",
            ScopeKind::Class => "class",
            ScopeKind::Struct => "struct",
            ScopeKind::Interface => "interface",
            ScopeKind::Trait => "trait",
            ScopeKind::Enum => "enum",
            ScopeKind::Function => "function",
            ScopeKind::Method => "method",
            ScopeKind::Block => "block",
            ScopeKind::Conditional => "conditional",
            ScopeKind::Loop => "loop",
            ScopeKind::Other => "other",
        }
    }

    /// The stored name.
    pub fn as_str(&self) -> (r: &'static str)
        ensures
            r == self.name(),
    {
        match self {
            ScopeKind::File => "file",
            ScopeKind::Module => "module",
            ScopeKind::Namespace => "namespace",
            ScopeKind::Class => "class",
            ScopeKind::Struct => "struct",
            ScopeKind::Interface => "interface",
            ScopeKind::Trait => "trait",
            ScopeKind::Enum => "enum",
            ScopeKind::Function => "function",
            ScopeKind::Method => "method",
            ScopeKind::Block => "block",
            ScopeKind::Conditional => "conditional",
            ScopeKind::Loop => "loop",
            ScopeKind::Other => "other",
        }
    }
}

/// What a local binding is.
#[derive(Clone, Copy, PartialEq, Eq, Structural, Debug, Hash)]
pub enum BindingKind {
    Parameter,
    Local,
}

impl BindingKind {
    /// The stored name.
    pub open spec fn name(self) -> &'static str {
        match self {
            BindingKind::Parameter => "parameter",
            BindingKind::Local => "local",
        }
    }

    /// The stored name.
    pub fn as_str(&self) -> (r: &'static str)
        ensures
            r == self.name(),
    {
        match self {
            BindingKind::Parameter => "parameter",
            BindingKind::Local => "local",
        }
    }
}

/// What a reference does with the name.
#[derive(Clone, Copy, PartialEq, Eq, Structural, Debug, Hash)]
pub enum ReferenceKind {
    Call,
    TypeReference,
    FieldAccess,
    Other,
}

impl ReferenceKind {
    /// The stored name.
    pub open spec fn name(self) -> &'static str {
        match self {
            ReferenceKind::Call => "call",
            ReferenceKind::TypeReference => "type_reference",
            ReferenceKind::FieldAccess => "field_access",
            ReferenceKind::Other => "other",
        }
    }

    /// The stored name.
    pub fn as_str(&self) -> (r: &'static str)
        ensures
            r == self.name(),
    {
        match self {
            ReferenceKind::Call => "call",
            ReferenceKind::TypeReference => "type_reference",
            ReferenceKind::FieldAccess => "field_access",
            ReferenceKind::Other => "other",
        }
    }
}

/// How two symbols are related.
#[derive(Clone, Copy, PartialEq, Eq, Structural, Debug, Hash)]
pub enum EdgeKind {
    Calls,
    References,
    Contains,
    Inherits,
    Imports,
    Other,
}

impl EdgeKind {
    /// The stored name.
    pub open spec fn name(self) -> &'static str {
        match self {
            EdgeKind::Calls => "calls",
            EdgeKind::References => "references",
            EdgeKind::Contains => "contains",
            EdgeKind::Inherits => "inherits",
            EdgeKind::Imports => "imports",
            EdgeKind::Other => "other",
        }
    }

    /// The stored name.
    pub fn as_str(&self) -> (r: &'static str)
        ensures
            r == self.name(),
    {
        match self {
            EdgeKind::Calls => "calls",
            EdgeKind::References => "references",
            EdgeKind::Contains => "contains",
            EdgeKind::Inherits => "inherits",
            EdgeKind::Imports => "imports",
            EdgeKind::Other => "other",
        }
    }
}

/// Which pass recorded an edge.
#[derive(Clone, Copy, PartialEq, Eq, Structural, Debug, Hash)]
pub enum Provenance {
    Syntax,
    Dataflow,
    Resolution,
    Other,
}

impl Provenance {
    /// The stored name.
    pub open spec fn name(self) -> &'static str {
        match self {
            Provenance::Syntax => "syntax",
            Provenance::Dataflow => "dataflow",
            Provenance::Resolution => "resolution",
            Provenance::Other => "other",
        }
    }

    /// The stored name.
    pub fn as_str(&self) -> (r: &'static str)
        ensures
            r == self.name(),
    {
        match self {
            Provenance::Syntax => "syntax",
            Provenance::Dataflow => "dataflow",
            Provenance::Resolution => "resolution",
            Provenance::Other => "other",
        }
    }
}

/// A node of a function's control-flow graph.
#[derive(Clone, Copy, PartialEq, Eq, Structural, Debug, Hash)]
pub struct CfgNode {
    pub id: CfgNodeId,
    pub function_id: SymbolId,
    pub kind: CfgNodeKind,
    pub stmt_range: TextRange,
}

/// An edge of a function's control-flow graph.
#[derive(Clone, Copy, PartialEq, Eq, Structural, Debug, Hash)]
pub struct CfgEdge {
    pub id: CfgEdgeId,
    pub source: CfgNodeId,
    pub target: CfgNodeId,
    pub kind: CfgEdgeKind,
}

/// A value, storage or use site in the dataflow graph.
#[derive(PartialEq, Eq, Debug, Hash)]
pub struct DataNode {
    pub id: DataNodeId,
    pub file_id: FileId,
    pub function_id: Option<SymbolId>,
    pub kind: DataNodeKind,
    pub binding_id: Option<BindingId>,
    pub callsite_id: Option<CallsiteId>,
    pub name: Option<Text>,
    pub access_path: Option<Text>,
    pub arg_index: Option<u32>,
    pub range: TextRange,
}

impl Clone for DataNode {
    fn clone(&self) -> (r: Self)
        ensures
            r == *self,
    {
        DataNode {
            id: self.id,
            file_id: self.file_id,
            function_id: self.function_id,
            kind: self.kind,
            binding_id: self.binding_id,
            callsite_id: self.callsite_id,
            name: self.name.clone(),
            access_path: self.access_path.clone(),
            arg_index: self.arg_index,
            range: self.range,
        }
    }
}

/// What a dataflow node says, by value.
#[verifier::ext_equal]
pub struct DataNodeView {
    pub id: DataNodeId,
    pub file_id: FileId,
    pub function_id: Option<SymbolId>,
    pub kind: DataNodeKind,
    pub binding_id: Option<BindingId>,
    pub callsite_id: Option<CallsiteId>,
    pub name: Option<Seq<u8>>,
    pub access_path: Option<Seq<u8>>,
    pub arg_index: Option<u32>,
    pub range: TextRange,
}

impl View for DataNode {
    type V = DataNodeView;

    open spec fn view(&self) -> DataNodeView {
        DataNodeView {
            id: self.id,
            file_id: self.file_id,
            function_id: self.function_id,
            kind: self.kind,
            binding_id: self.binding_id,
            callsite_id: self.callsite_id,
            name: crate::text::optional_bytes(self.name),
            access_path: crate::text::optional_bytes(self.access_path),
            arg_index: self.arg_index,
            range: self.range,
        }
    }
}

/// A dataflow edge. The confidence is in hundredths.
#[derive(Clone, Copy, PartialEq, Eq, Structural, Debug, Hash)]
pub struct DataFlowEdge {
    pub id: DataFlowEdgeId,
    pub source: DataNodeId,
    pub target: DataNodeId,
    pub kind: DataFlowKind,
    pub location: TextRange,
    pub confidence: u8,
}

/// A recorded call.
#[derive(Clone, Copy, PartialEq, Eq, Structural, Debug, Hash)]
pub struct Callsite {
    pub id: CallsiteId,
    pub caller: SymbolId,
    pub range: TextRange,
}

/// A recorded call with one of its callees.
#[derive(Clone, Copy, PartialEq, Eq, Structural, Debug, Hash)]
pub struct ResolvedCallsite {
    pub callsite: Callsite,
    pub callee: SymbolId,
}

/// A limit or failure that extraction met.
#[derive(PartialEq, Eq, Debug, Hash)]
pub struct ExtractDiagnostic {
    pub level: DiagnosticLevel,
    pub message: Text,
    pub range: Option<TextRange>,
}

impl Clone for ExtractDiagnostic {
    fn clone(&self) -> (r: Self)
        ensures
            r == *self,
    {
        ExtractDiagnostic { level: self.level, message: self.message.clone(), range: self.range }
    }
}

/// What a diagnostic says, by value.
pub struct ExtractDiagnosticView {
    pub level: DiagnosticLevel,
    pub message: Seq<u8>,
    pub range: Option<TextRange>,
}

impl View for ExtractDiagnostic {
    type V = ExtractDiagnosticView;

    open spec fn view(&self) -> ExtractDiagnosticView {
        ExtractDiagnosticView { level: self.level, message: self.message@, range: self.range }
    }
}

/// A source file.
#[derive(PartialEq, Eq, Debug, Hash)]
pub struct FileInfo {
    pub file_id: FileId,
    pub path: Text,
    pub language: Language,
}

/// A definition.
#[derive(PartialEq, Eq, Debug, Hash)]
pub struct SymbolDef {
    pub id: SymbolId,
    pub file_id: FileId,
    pub language: Language,
    pub name: Text,
    pub qualified_name: Text,
    pub kind: SymbolKind,
    pub name_range: TextRange,
    pub range: TextRange,
    pub static_: bool,
    pub scope_id: Option<ScopeId>,
    pub signature: Option<Text>,
}

impl Clone for SymbolDef {
    fn clone(&self) -> (r: Self)
        ensures
            r == *self,
    {
        SymbolDef {
            id: self.id,
            file_id: self.file_id,
            language: self.language,
            name: self.name.clone(),
            qualified_name: self.qualified_name.clone(),
            kind: self.kind,
            name_range: self.name_range,
            range: self.range,
            static_: self.static_,
            scope_id: self.scope_id,
            signature: self.signature.clone(),
        }
    }
}

/// A local binding.
#[derive(PartialEq, Eq, Debug, Hash)]
pub struct BindingDef {
    pub id: BindingId,
    pub file_id: FileId,
    pub function_id: Option<SymbolId>,
    pub kind: BindingKind,
    pub name: Text,
    pub range: TextRange,
}

/// The control flow of the functions of one file.
#[derive(Debug)]
pub struct CfgResult {
    pub nodes: Vec<CfgNode>,
    pub edges: Vec<CfgEdge>,
    /// Regions of functions behind which control does not come back.
    pub terminated_tails: Vec<(SymbolId, TextRange)>,
    /// Nodes at which a function is left normally.
    pub normal_exit_sources: Vec<CfgNodeId>,
}

/// A lexical scope.
#[derive(Clone, Copy, PartialEq, Eq, Structural, Debug, Hash)]
pub struct ScopeDef {
    pub id: ScopeId,
    pub parent_id: Option<ScopeId>,
    pub kind: ScopeKind,
    pub range: TextRange,
}

/// An occurrence of a name.
#[derive(PartialEq, Eq, Debug, Hash)]
pub struct ReferenceUse {
    pub id: ReferenceId,
    pub file_id: FileId,
    pub source_symbol: Option<SymbolId>,
    pub scope_id: Option<ScopeId>,
    pub kind: ReferenceKind,
    pub text: Text,
    pub name: Text,
    pub receiver: Option<Text>,
    pub arity: Option<u32>,
    pub range: TextRange,
    pub binding_id: Option<BindingId>,
    pub resolved: Option<SymbolId>,
}

impl Clone for ReferenceUse {
    fn clone(&self) -> (r: Self)
        ensures
            r == *self,
    {
        ReferenceUse {
            id: self.id,
            file_id: self.file_id,
            source_symbol: self.source_symbol,
            scope_id: self.scope_id,
            kind: self.kind,
            text: self.text.clone(),
            name: self.name.clone(),
            receiver: self.receiver.clone(),
            arity: self.arity,
            range: self.range,
            binding_id: self.binding_id,
            resolved: self.resolved,
        }
    }
}

/// A relation between two symbols.
#[derive(Clone, Copy, PartialEq, Eq, Structural, Debug, Hash)]
pub struct RawEdge {
    pub id: EdgeId,
    pub source: SymbolId,
    pub target: SymbolId,
    pub kind: EdgeKind,
    pub ref_id: Option<ReferenceId>,
    pub provenance: Provenance,
    pub location: Option<TextRange>,
}

/// An identity as a field that may be absent.
pub open spec fn optional_symbol_field(id: Option<SymbolId>) -> Option<Seq<u8>> {
    match id {
        None => None,
        Some(symbol) => digest_field(symbol.0),
    }
}

fn optional_symbol(fields: Fields, id: Option<SymbolId>) -> (r: Fields)
    ensures
        r.list() == fields.list().push(optional_symbol_field(id)),
{
    match id {
        None => fields.absent(),
        Some(symbol) => fields.digest(symbol.0),
    }
}

/// A reference identity as a field that may be absent.
pub open spec fn optional_reference_field(id: Option<ReferenceId>) -> Option<Seq<u8>> {
    match id {
        None => None,
        Some(reference) => digest_field(reference.0),
    }
}

/// A byte string as a field that may be absent.
pub open spec fn optional_slice_field(bytes: Option<&[u8]>) -> Option<Seq<u8>> {
    match bytes {
        None => None,
        Some(value) => Some(value@),
    }
}

impl FileId {
    /// The identity of the file at a path.
    pub open spec fn generated(path: Seq<u8>) -> FileId {
        FileId(
            identity_of(
                seq![
                    Some("file".spec_bytes()),
                    Some(path),
                ],
            ),
        )
    }

    /// The identity of the file at a path.
    pub fn generate(path: &[u8]) -> (r: Self)
        ensures
            r == FileId::generated(path@),
    {
        let fields = Fields::new().bytes("file".as_bytes());
        let fields = fields.bytes(path);
        assert(fields.list() =~= seq![
            Some("file".spec_bytes()),
            Some(path@),
        ]);
        FileId(fields.finish())
    }
}

impl SymbolId {
    /// The identity of a symbol.
    pub open spec fn generated(file: FileId, language: Seq<u8>, name: Seq<u8>, kind: Seq<u8>, discriminator: Option<Seq<u8>>) -> SymbolId {
        SymbolId(
            identity_of(
                seq![
                    Some("symbol".spec_bytes()),
                    digest_field(file.0),
                    Some(language),
                    Some(name),
                    Some(kind),
                    discriminator,
                ],
            ),
        )
    }

    /// The identity of a symbol.
    pub fn generate(file: &FileId, language: &str, name: &[u8], kind: &str, discriminator: Option<&[u8]>) -> (r: Self)
        ensures
            r == SymbolId::generated(*file, language.spec_bytes(), name@, kind.spec_bytes(), optional_slice_field(discriminator)),
    {
        let fields = Fields::new().bytes("symbol".as_bytes());
        let fields = fields.digest(file.0);
        let fields = fields.bytes(language.as_bytes());
        let fields = fields.bytes(name);
        let fields = fields.bytes(kind.as_bytes());
        let fields = fields.optional(discriminator);
        assert(fields.list() =~= seq![
            Some("symbol".spec_bytes()),
            digest_field(file.0),
            Some(language.spec_bytes()),
            Some(name@),
            Some(kind.spec_bytes()),
            optional_slice_field(discriminator),
        ]);
        SymbolId(fields.finish())
    }
}

impl CfgNodeId {
    /// The identity of a control-flow node.
    pub open spec fn generated(function: SymbolId, kind: Seq<u8>, start_byte: u32) -> CfgNodeId {
        CfgNodeId(
            identity_of(
                seq![
                    Some("cfg_node".spec_bytes()),
                    digest_field(function.0),
                    Some(kind),
                    number_field(start_byte),
                ],
            ),
        )
    }

    /// The identity of a control-flow node.
    pub fn generate(function: &SymbolId, kind: &str, start_byte: u32) -> (r: Self)
        ensures
            r == CfgNodeId::generated(*function, kind.spec_bytes(), start_byte),
    {
        let fields = Fields::new().bytes("cfg_node".as_bytes());
        let fields = fields.digest(function.0);
        let fields = fields.bytes(kind.as_bytes());
        let fields = fields.number(start_byte);
        assert(fields.list() =~= seq![
            Some("cfg_node".spec_bytes()),
            digest_field(function.0),
            Some(kind.spec_bytes()),
            number_field(start_byte),
        ]);
        CfgNodeId(fields.finish())
    }
}

impl CfgEdgeId {
    /// The identity of a control-flow edge.
    pub open spec fn generated(source: CfgNodeId, target: CfgNodeId, kind: Seq<u8>) -> CfgEdgeId {
        CfgEdgeId(
            identity_of(
                seq![
                    Some("cfg_edge".spec_bytes()),
                    digest_field(source.0),
                    digest_field(target.0),
                    Some(kind),
                ],
            ),
        )
    }

    /// The identity of a control-flow edge.
    pub fn generate(source: &CfgNodeId, target: &CfgNodeId, kind: &str) -> (r: Self)
        ensures
            r == CfgEdgeId::generated(*source, *target, kind.spec_bytes()),
    {
        let fields = Fields::new().bytes("cfg_edge".as_bytes());
        let fields = fields.digest(source.0);
        let fields = fields.digest(target.0);
        let fields = fields.bytes(kind.as_bytes());
        assert(fields.list() =~= seq![
            Some("cfg_edge".spec_bytes()),
            digest_field(source.0),
            digest_field(target.0),
            Some(kind.spec_bytes()),
        ]);
        CfgEdgeId(fields.finish())
    }
}

impl CallsiteId {
    /// The identity of a call site: where in a file it stands.
    pub open spec fn generated(file: FileId, start_byte: u32, end_byte: u32) -> CallsiteId {
        CallsiteId(
            identity_of(
                seq![
                    Some("callsite".spec_bytes()),
                    digest_field(file.0),
                    number_field(start_byte),
                    number_field(end_byte),
                ],
            ),
        )
    }

    /// The identity of a call site.
    pub fn from_file_range(file: &FileId, start_byte: u32, end_byte: u32) -> (r: Self)
        ensures
            r == CallsiteId::generated(*file, start_byte, end_byte),
    {
        let fields = Fields::new().bytes("callsite".as_bytes());
        let fields = fields.digest(file.0);
        let fields = fields.number(start_byte);
        let fields = fields.number(end_byte);
        assert(fields.list() =~= seq![
            Some("callsite".spec_bytes()),
            digest_field(file.0),
            number_field(start_byte),
            number_field(end_byte),
        ]);
        CallsiteId(fields.finish())
    }
}

impl DataNodeId {
    /// The identity of a dataflow node.
    pub open spec fn generated(file: FileId, function: Option<SymbolId>, kind: Seq<u8>, name: Option<Seq<u8>>, access_path: Option<Seq<u8>>, start_byte: u32) -> DataNodeId {
        DataNodeId(
            identity_of(
                seq![
                    Some("data_node".spec_bytes()),
                    digest_field(file.0),
                    optional_symbol_field(function),
                    Some(kind),
                    name,
                    access_path,
                    number_field(start_byte),
                ],
            ),
        )
    }

    /// The identity of a dataflow node.
    pub fn generate(file: &FileId, function: Option<SymbolId>, kind: &str, name: Option<&[u8]>, access_path: Option<&[u8]>, start_byte: u32) -> (r: Self)
        ensures
            r == DataNodeId::generated(*file, function, kind.spec_bytes(), optional_slice_field(name), optional_slice_field(access_path), start_byte),
    {
        let fields = Fields::new().bytes("data_node".as_bytes());
        let fields = fields.digest(file.0);
        let fields = optional_symbol(fields, function);
        let fields = fields.bytes(kind.as_bytes());
        let fields = fields.optional(name);
        let fields = fields.optional(access_path);
        let fields = fields.number(start_byte);
        assert(fields.list() =~= seq![
            Some("data_node".spec_bytes()),
            digest_field(file.0),
            optional_symbol_field(function),
            Some(kind.spec_bytes()),
            optional_slice_field(name),
            optional_slice_field(access_path),
            number_field(start_byte),
        ]);
        DataNodeId(fields.finish())
    }
}

impl DataFlowEdgeId {
    /// The identity of a dataflow edge.
    pub open spec fn generated(source: DataNodeId, target: DataNodeId, kind: Seq<u8>) -> DataFlowEdgeId {
        DataFlowEdgeId(
            identity_of(
                seq![
                    Some("dataflow_edge".spec_bytes()),
                    digest_field(source.0),
                    digest_field(target.0),
                    Some(kind),
                ],
            ),
        )
    }

    /// The identity of a dataflow edge.
    pub fn generate(source: &DataNodeId, target: &DataNodeId, kind: &str) -> (r: Self)
        ensures
            r == DataFlowEdgeId::generated(*source, *target, kind.spec_bytes()),
    {
        let fields = Fields::new().bytes("dataflow_edge".as_bytes());
        let fields = fields.digest(source.0);
        let fields = fields.digest(target.0);
        let fields = fields.bytes(kind.as_bytes());
        assert(fields.list() =~= seq![
            Some("dataflow_edge".spec_bytes()),
            digest_field(source.0),
            digest_field(target.0),
            Some(kind.spec_bytes()),
        ]);
        DataFlowEdgeId(fields.finish())
    }
}

impl ReferenceId {
    /// The identity of a reference.
    pub open spec fn generated(file: FileId, source: Option<SymbolId>, start_byte: u32, end_byte: u32, text: Seq<u8>, kind: Seq<u8>) -> ReferenceId {
        ReferenceId(
            identity_of(
                seq![
                    Some("reference".spec_bytes()),
                    digest_field(file.0),
                    optional_symbol_field(source),
                    number_field(start_byte),
                    number_field(end_byte),
                    Some(text),
                    Some(kind),
                ],
            ),
        )
    }

    /// The identity of a reference.
    pub fn generate(file: &FileId, source: Option<SymbolId>, start_byte: u32, end_byte: u32, text: &[u8], kind: &str) -> (r: Self)
        ensures
            r == ReferenceId::generated(*file, source, start_byte, end_byte, text@, kind.spec_bytes()),
    {
        let fields = Fields::new().bytes("reference".as_bytes());
        let fields = fields.digest(file.0);
        let fields = optional_symbol(fields, source);
        let fields = fields.number(start_byte);
        let fields = fields.number(end_byte);
        let fields = fields.bytes(text);
        let fields = fields.bytes(kind.as_bytes());
        assert(fields.list() =~= seq![
            Some("reference".spec_bytes()),
            digest_field(file.0),
            optional_symbol_field(source),
            number_field(start_byte),
            number_field(end_byte),
            Some(text@),
            Some(kind.spec_bytes()),
        ]);
        ReferenceId(fields.finish())
    }
}

impl EdgeId {
    /// The identity of a symbol graph edge.
    pub open spec fn generated(source: SymbolId, target: SymbolId, kind: Seq<u8>, reference: Option<ReferenceId>, provenance: Seq<u8>) -> EdgeId {
        EdgeId(
            identity_of(
                seq![
                    Some("edge".spec_bytes()),
                    digest_field(source.0),
                    digest_field(target.0),
                    Some(kind),
                    optional_reference_field(reference),
                    Some(provenance),
                ],
            ),
        )
    }

    /// The identity of a symbol graph edge.
    pub fn generate(source: &SymbolId, target: &SymbolId, kind: &str, reference: Option<ReferenceId>, provenance: &str) -> (r: Self)
        ensures
            r == EdgeId::generated(*source, *target, kind.spec_bytes(), reference, provenance.spec_bytes()),
    {
        let fields = Fields::new().bytes("edge".as_bytes());
        let fields = fields.digest(source.0);
        let fields = fields.digest(target.0);
        let fields = fields.bytes(kind.as_bytes());
        let fields = optional_reference(fields, reference);
        let fields = fields.bytes(provenance.as_bytes());
        assert(fields.list() =~= seq![
            Some("edge".spec_bytes()),
            digest_field(source.0),
            digest_field(target.0),
            Some(kind.spec_bytes()),
            optional_reference_field(reference),
            Some(provenance.spec_bytes()),
        ]);
        EdgeId(fields.finish())
    }
}

fn optional_reference(fields: Fields, id: Option<ReferenceId>) -> (r: Fields)
    ensures
        r.list() == fields.list().push(optional_reference_field(id)),
{
    match id {
        None => fields.absent(),
        Some(reference) => fields.digest(reference.0),
    }
}

/// The range that holds nothing, at the start of a file.
pub open spec fn empty_range() -> TextRange {
    TextRange {
        start_byte: 0,
        end_byte: 0,
        start_line: 0,
        start_column: 0,
        end_line: 0,
        end_column: 0,
    }
}

impl CfgNode {
    /// A node of a function, named by its kind and where it starts.
    pub open spec fn made(function: SymbolId, kind: CfgNodeKind, range: TextRange) -> CfgNode {
        CfgNode {
            id: CfgNodeId::generated(function, kind.name().spec_bytes(), range.start_byte),
            function_id: function,
            kind,
            stmt_range: range,
        }
    }

    /// A node of a function, named by its kind and where it starts.
    pub fn new(function: &SymbolId, kind: CfgNodeKind, range: TextRange) -> (r: Self)
        ensures
            r == CfgNode::made(*function, kind, range),
    {
        CfgNode {
            id: CfgNodeId::generate(function, kind.as_str(), range.start_byte),
            function_id: *function,
            kind,
            stmt_range: range,
        }
    }

    /// The node at which a function is entered.
    pub fn entry(function: &SymbolId) -> (r: Self)
        ensures
            r == CfgNode::made(*function, CfgNodeKind::Entry, empty_range()),
    {
        CfgNode::new(function, CfgNodeKind::Entry, TextRange::default())
    }

    /// The node at which a function is left.
    pub fn exit(function: &SymbolId) -> (r: Self)
        ensures
            r == CfgNode::made(*function, CfgNodeKind::Exit, empty_range()),
    {
        CfgNode::new(function, CfgNodeKind::Exit, TextRange::default())
    }
}

impl CfgEdge {
    /// An edge, named by its ends and its kind.
    pub fn new(source: &CfgNodeId, target: &CfgNodeId, kind: CfgEdgeKind) -> (r: Self)
        ensures
            r == (CfgEdge {
                id: CfgEdgeId::generated(*source, *target, kind.name().spec_bytes()),
                source: *source,
                target: *target,
                kind,
            }),
    {
        CfgEdge {
            id: CfgEdgeId::generate(source, target, kind.as_str()),
            source: *source,
            target: *target,
            kind,
        }
    }
}

impl DataFlowEdge {
    /// An edge with the given parts.
    pub fn new(
        id: DataFlowEdgeId,
        source: DataNodeId,
        target: DataNodeId,
        kind: DataFlowKind,
        location: TextRange,
        confidence: u8,
    ) -> (r: Self)
        ensures
            r == (DataFlowEdge { id, source, target, kind, location, confidence }),
    {
        DataFlowEdge { id, source, target, kind, location, confidence }
    }

    /// The edge between two nodes, named by its ends and its kind.
    pub open spec fn made(
        source: DataNodeId,
        target: DataNodeId,
        kind: DataFlowKind,
        location: TextRange,
        confidence: u8,
    ) -> DataFlowEdge {
        DataFlowEdge {
            id: DataFlowEdgeId::generated(source, target, kind.name().spec_bytes()),
            source,
            target,
            kind,
            location,
            confidence,
        }
    }

    /// The edge between two nodes, named by its ends and its kind.
    pub fn between(
        source: DataNodeId,
        target: DataNodeId,
        kind: DataFlowKind,
        location: TextRange,
        confidence: u8,
    ) -> (r: Self)
        ensures
            r == DataFlowEdge::made(source, target, kind, location, confidence),
    {
        DataFlowEdge::new(
            DataFlowEdgeId::generate(&source, &target, kind.as_str()),
            source,
            target,
            kind,
            location,
            confidence,
        )
    }
}

} // verus!
