use atlas_engine::collections::{stable_order, IdMap};
use atlas_engine::cpp_annotation_sites::frontend;
use atlas_engine::cpp_annotations::is_annotation;
use atlas_engine::cpp_dataflow::{capture_initializer_owners, field_receivers, ReceiverPosition};
use atlas_engine::cpp_expressions::{may_be_evaluated, unexamined_invocation_region};
use atlas_engine::cpp_facts::{
    CppAnnotationPosition, CppAnnotationToken, CppMacroAlternatives, CppMacroDefinition,
    CppMemberMacro,
};
use atlas_engine::cpp_lambdas::{caller_initializers, name as closure_name};
use atlas_engine::cpp_member_macros::introduced_names;
use atlas_engine::cpp_references::discard_statement_crossing_calls;
use atlas_engine::cpp_symbols::distinguish_callable_occurrences;
use atlas_engine::cpp_tokens::tokens;
use atlas_engine::facts::{
    DataFlowEdge, DataFlowKind, DataNode, DataNodeKind, DiagnosticLevel, EdgeKind, Language,
    Provenance, RawEdge, ReferenceKind, ReferenceUse, ScopeDef, ScopeKind, SymbolDef, SymbolKind,
    TextRange,
};
use atlas_engine::ids::{
    digest, DataNodeId, Digest, EdgeId, FileId, ReferenceId, ScopeId, SymbolId,
};
use atlas_engine::symbol_registry::{
    all_edge_sources_known, all_reference_sources_known, SymbolRegistry,
};
use atlas_engine::syntax::{Kind, SyntaxTree};
use atlas_engine::text::Text;
use atlas_engine::trace::path::TraceDiagnostic;
use std::cell::Cell;

fn id(n: u128) -> Digest {
    Digest { hi: 0, lo: n }
}

fn range(start: u32, end: u32) -> TextRange {
    TextRange {
        start_byte: start,
        end_byte: end,
        start_line: 0,
        start_column: start,
        end_line: 0,
        end_column: end,
    }
}

fn symbol(n: u128, kind: SymbolKind, place: TextRange, scope: Option<u128>) -> SymbolDef {
    SymbolDef {
        id: SymbolId(id(n)),
        file_id: FileId(id(1)),
        language: Language::Cpp,
        name: Text::new("run"),
        qualified_name: Text::new("run"),
        kind,
        name_range: place,
        range: place,
        static_: false,
        scope_id: scope.map(|n| ScopeId(id(n))),
        signature: None,
    }
}

fn scope(n: u128, parent: Option<u128>, kind: ScopeKind, place: TextRange) -> ScopeDef {
    ScopeDef {
        id: ScopeId(id(n)),
        parent_id: parent.map(|n| ScopeId(id(n))),
        kind,
        range: place,
    }
}

fn reference(n: u128, place: TextRange) -> ReferenceUse {
    ReferenceUse {
        id: ReferenceId(id(n)),
        file_id: FileId(id(1)),
        source_symbol: None,
        scope_id: None,
        kind: ReferenceKind::Call,
        text: Text::new("use()"),
        name: Text::new("use"),
        receiver: None,
        arity: Some(0),
        range: place,
        binding_id: None,
        resolved: None,
    }
}

fn edge(n: u128, source: u128, location: Option<TextRange>) -> RawEdge {
    RawEdge {
        id: EdgeId(id(n)),
        source: SymbolId(id(source)),
        target: SymbolId(id(99)),
        kind: EdgeKind::Calls,
        ref_id: None,
        provenance: Provenance::Syntax,
        location,
    }
}

fn definition(name: &str, replacement: Option<&str>) -> CppMacroDefinition {
    CppMacroDefinition {
        name: Text::new(name),
        parameters: None,
        variadic: false,
        replacement: replacement.map(Text::new),
        range: range(0, 1),
    }
}

fn alternatives(name: &str, definitions: Vec<CppMacroDefinition>) -> CppMacroAlternatives {
    CppMacroAlternatives { name: Text::new(name), alternatives: definitions }
}

#[test]
fn a_registry_gives_sources_that_were_extracted_and_keeps_them() {
    let symbols = vec![
        symbol(10, SymbolKind::Class, range(0, 100), Some(2)),
        symbol(11, SymbolKind::Method, range(10, 50), Some(3)),
    ];
    let scopes = vec![
        scope(1, None, ScopeKind::File, range(0, 200)),
        scope(2, Some(1), ScopeKind::Class, range(0, 100)),
        scope(3, Some(2), ScopeKind::Method, range(10, 50)),
        scope(4, Some(1), ScopeKind::Function, range(120, 160)),
    ];
    let registry = SymbolRegistry::new(&symbols, &scopes, IdMap::new());
    assert!(registry.contains_symbol(&SymbolId(id(11))));
    assert!(!registry.contains_symbol(&SymbolId(id(12))));
    assert_eq!(registry.source_for_range(range(20, 25)), Some(SymbolId(id(11))));
    assert_eq!(registry.source_for_range(range(60, 65)), Some(SymbolId(id(10))));
    // No symbol stands for this function, and the file does not run its body.
    assert_eq!(registry.source_for_range(range(130, 135)), None);
    assert_eq!(registry.source_for_range(range(180, 185)), None);

    let mut references = vec![reference(20, range(20, 25)), reference(21, range(130, 135))];
    registry.resolve_reference_sources(FileId(id(1)), &mut references);
    assert_eq!(references[0].source_symbol, Some(SymbolId(id(11))));
    assert_ne!(references[0].id, ReferenceId(id(20)));
    assert_eq!(references[1].source_symbol, None);
    assert_eq!(references[1].id, ReferenceId(id(21)));
    assert!(all_reference_sources_known(&references, &symbols));
    let once = references.clone();
    registry.resolve_reference_sources(FileId(id(1)), &mut references);
    assert_eq!(references, once);

    let mut edges = vec![
        edge(30, 55, Some(range(20, 25))),
        edge(31, 10, None),
        edge(32, 56, Some(range(180, 185))),
    ];
    assert!(!all_edge_sources_known(&edges, &symbols));
    registry.resolve_edge_sources(&mut edges);
    assert_eq!(edges.len(), 2);
    assert_eq!(edges[0].source, SymbolId(id(11)));
    assert_ne!(edges[0].id, EdgeId(id(30)));
    assert_eq!(edges[1], edge(31, 10, None));
    assert!(all_edge_sources_known(&edges, &symbols));
    let once = edges.clone();
    registry.resolve_edge_sources(&mut edges);
    assert_eq!(edges, once);
}

#[test]
fn what_the_caller_evaluates_belongs_to_the_caller() {
    let symbols = vec![
        symbol(10, SymbolKind::Function, range(0, 100), Some(2)),
        symbol(11, SymbolKind::Function, range(20, 60), Some(3)),
    ];
    let scopes = vec![
        scope(2, None, ScopeKind::Function, range(0, 100)),
        scope(3, Some(2), ScopeKind::Function, range(20, 60)),
    ];
    let mut initializers = IdMap::new();
    initializers.insert(SymbolId(id(11)), range(20, 30));
    let registry = SymbolRegistry::new(&symbols, &scopes, initializers);
    assert_eq!(registry.source_for_range(range(22, 24)), Some(SymbolId(id(10))));
    assert_eq!(registry.source_for_range(range(40, 44)), Some(SymbolId(id(11))));
}

#[test]
fn occurrences_are_numbered_where_they_stand() {
    let mut symbols = vec![
        symbol(10, SymbolKind::Function, range(50, 60), None),
        symbol(10, SymbolKind::Function, range(0, 10), None),
        symbol(10, SymbolKind::Function, range(20, 30), None),
        symbol(10, SymbolKind::Class, range(30, 40), None),
        symbol(10, SymbolKind::Function, range(20, 30), None),
    ];
    distinguish_callable_occurrences(&mut symbols);
    assert_eq!(symbols[1].id, SymbolId(id(10)));
    assert_eq!(symbols[3].id, SymbolId(id(10)));
    assert_ne!(symbols[0].id, SymbolId(id(10)));
    assert_ne!(symbols[2].id, SymbolId(id(10)));
    assert_ne!(symbols[0].id, symbols[2].id);
    assert_eq!(symbols[2].id, symbols[4].id);
    let once = symbols.clone();
    distinguish_callable_occurrences(&mut symbols);
    assert_eq!(symbols, once);

    // The same callables further on have the same identities.
    let mut moved = vec![
        symbol(10, SymbolKind::Function, range(57, 67), None),
        symbol(10, SymbolKind::Function, range(7, 17), None),
        symbol(10, SymbolKind::Function, range(27, 37), None),
    ];
    distinguish_callable_occurrences(&mut moved);
    assert_eq!(moved[0].id, symbols[0].id);
    assert_eq!(moved[1].id, symbols[1].id);
    assert_eq!(moved[2].id, symbols[2].id);
}

#[test]
fn every_visible_definition_has_to_be_an_annotation() {
    let position = CppAnnotationPosition::ClassPrefix;
    let visible = "__attribute__((visibility(\"default\")))";
    assert!(is_annotation(visible, &[], &position));
    assert!(!is_annotation("EXPORT", &[], &position));
    let both = [alternatives(
        "EXPORT",
        vec![definition("EXPORT", Some(visible)), definition("EXPORT", Some(""))],
    )];
    assert!(is_annotation("EXPORT", &both, &position));
    let undefined = [alternatives(
        "EXPORT",
        vec![definition("EXPORT", Some(visible)), definition("EXPORT", None)],
    )];
    assert!(!is_annotation("EXPORT", &undefined, &position));
    let other = [alternatives(
        "EXPORT",
        vec![definition("EXPORT", Some(visible)), definition("EXPORT", Some("static int"))],
    )];
    assert!(!is_annotation("EXPORT", &other, &position));
    assert!(!is_annotation("EXPORT", &[alternatives("EXPORT", vec![])], &position));
    // A macro is not replaced within its own replacement.
    let itself = [alternatives("EXPORT", vec![definition("EXPORT", Some("EXPORT"))])];
    assert!(!is_annotation("EXPORT", &itself, &position));
}

#[test]
fn fewer_definitions_keep_an_annotation() {
    let position = CppAnnotationPosition::ClassPrefix;
    let visible = "__attribute__((visibility(\"default\")))";
    let choices = [Some(visible), Some(""), Some("ALIAS"), Some("ALIAS ALIAS")];
    let list = |kept: usize| {
        let chosen = choices.iter().enumerate().filter(|(n, _)| kept >> n & 1 == 1);
        chosen.map(|(_, text)| definition("EXPORT", *text)).collect()
    };
    for kept in 1..16 {
        for aliases in [vec![Some("")], vec![Some(visible)], vec![Some(""), Some(visible)]] {
            let alias = aliases.iter().map(|text| definition("ALIAS", *text)).collect();
            let definitions = [alternatives("EXPORT", list(kept)), alternatives("ALIAS", alias)];
            assert!(is_annotation("EXPORT EXPORT", &definitions, &position), "{kept}");
        }
    }
    // Without any definition it is none; an undefined macro never is.
    let none = [alternatives("EXPORT", vec![]), alternatives("ALIAS", vec![])];
    assert!(!is_annotation("EXPORT", &none, &position));
    let undefined = [alternatives(
        "EXPORT",
        vec![definition("EXPORT", Some("")), definition("EXPORT", None)],
    )];
    assert!(!is_annotation("EXPORT", &undefined, &position));
}

#[test]
fn spaced_tokens_are_read_again() {
    for source in [
        "a<::b::c>d",
        "x->*y ... ->z /* gap */ // line\n+=1.5e",
        "u8\"text with spaces\" L'c' u \"s\"",
        "\"a \\\" b\"",
        "#define##x",
        "",
        "  \n\t",
    ] {
        let list = tokens(source.as_bytes()).unwrap();
        assert!(list.iter().all(|token| !token.is_empty()), "{source}");
        let spaced = list.join(&b' ');
        assert_eq!(tokens(&spaced).unwrap(), list, "{source}");
    }
    assert_eq!(
        tokens(b"a+++b").unwrap(),
        [b"a".to_vec(), b"++".to_vec(), b"+".to_vec(), b"b".to_vec()]
    );
    // Only a backslash that is left before a line end is taken out again.
    let split = b"\"a\\\\\n\n\"";
    let list = tokens(split).unwrap();
    assert_eq!(list, [b"\"a\\\n\"".to_vec()]);
    assert_ne!(tokens(&list[0]).unwrap(), list);
}

#[test]
fn blank_annotations_keep_every_position() {
    let source = b"class API\nFoo { MEMBER(\nx) };";
    let annotation = |text: &str, place: TextRange| CppAnnotationToken {
        name: Text::new(text),
        text: Text::new(text),
        range: place,
        position: CppAnnotationPosition::ClassPrefix,
    };
    let parser = frontend(
        vec![annotation("API", range(6, 9)), annotation("OLD", range(10, 13))],
        vec![CppMemberMacro {
            scope: Text::new("Foo"),
            name: Text::new("MEMBER"),
            text: Text::new("MEMBER(\nx)"),
            range: range(16, 26),
        }],
    );
    let read = parser.parser_source(source);
    assert_eq!(read, b"class    \nFoo {        \n   };".to_vec());
    let beyond = frontend(vec![annotation("API", range(40, 43))], vec![]);
    assert_eq!(beyond.parser_source(source), source.to_vec());
}

#[test]
fn a_tree_that_is_read_again_keeps_its_annotations_blank() {
    let source = b"class API Foo { };\nint make();\nvoid f() { Foo value(make()); }\n";
    let api = CppAnnotationToken {
        name: Text::new("API"),
        text: Text::new("API"),
        range: range(6, 9),
        position: CppAnnotationPosition::ClassPrefix,
    };
    let tree = frontend(vec![api], vec![]).parse(source, &|| false).unwrap();
    let kinds: Vec<Kind> = (0..tree.len()).map(|n| tree.kind(n)).collect();
    assert_eq!(tree.source(), source);
    assert!(!tree.data(0).has_error);
    assert!(kinds.contains(&Kind::ClassSpecifier));
    assert!(kinds.contains(&Kind::InitDeclarator));
    assert!(kinds.contains(&Kind::CallExpression));
    assert!(frontend(vec![], vec![]).parse(source, &|| true).is_none());
}

#[test]
fn introduced_names_stand_in_order_and_once() {
    let site = CppMemberMacro {
        scope: Text::new("Foo"),
        name: Text::new("MEMBERS"),
        text: Text::new("MEMBERS(z)"),
        range: range(0, 10),
    };
    let mut members = definition("MEMBERS", Some("int n; void a(); int a(int);"));
    // A macro without parameters makes no members.
    let plain = [alternatives("MEMBERS", vec![definition("MEMBERS", Some("int z;"))])];
    assert_eq!(introduced_names(&site, &plain), None);
    members.parameters = Some(vec![Text::new("n")]);
    let mut others = definition("MEMBERS", Some("char b, n;"));
    others.parameters = Some(vec![Text::new("n")]);
    let mut unknown = definition("MEMBERS", None);
    unknown.parameters = Some(vec![Text::new("n")]);
    let mut made = [alternatives("MEMBERS", vec![members])];
    assert_eq!(introduced_names(&site, &made), Some(vec![b"a".to_vec(), b"z".to_vec()]));
    assert_eq!(introduced_names(&site, &[]), None);
    // Every definition adds its names, and one that is not known leaves all unknown.
    made[0].alternatives.push(others);
    let names = vec![b"a".to_vec(), b"b".to_vec(), b"z".to_vec()];
    assert_eq!(introduced_names(&site, &made), Some(names));
    made[0].alternatives.push(unknown);
    assert_eq!(introduced_names(&site, &made), None);
}

#[test]
fn what_members_may_take_is_shared_by_all_definitions() {
    let site = CppMemberMacro {
        scope: Text::new("Foo"),
        name: Text::new("MEMBERS"),
        text: Text::new("MEMBERS()"),
        range: range(0, 9),
    };
    let short = |name: &str| {
        let mut made = definition("MEMBERS", Some(&format!("int {name};")[..]));
        made.parameters = Some(vec![]);
        made
    };
    let names = |list: Vec<CppMacroDefinition>| {
        introduced_names(&site, &[alternatives("MEMBERS", list)])
    };
    assert_eq!(names(vec![short("a"), short("b")]), Some(vec![b"a".to_vec(), b"b".to_vec()]));
    let wide = |name: &str| {
        let mut made = definition(
            "MEMBERS",
            Some(&format!("int {name}{};", "x".repeat(40_000))[..]),
        );
        made.parameters = Some(vec![]);
        made
    };
    assert!(names(vec![wide("a")]).is_some());
    assert!(names(vec![wide("b"), short("c")]).is_some());
    assert_eq!(names(vec![wide("a"), wide("b")]), None);
}

#[test]
fn fields_take_their_values_from_written_receivers() {
    let source = "int f() { return a.b; }";
    let tree = SyntaxTree::parse(source.as_bytes()).unwrap();
    let node = |n: u128, kind: DataNodeKind, place: TextRange, name: &str| DataNode {
        id: DataNodeId(id(n)),
        file_id: FileId(id(1)),
        function_id: None,
        kind,
        binding_id: None,
        callsite_id: None,
        name: Some(Text::new(name)),
        access_path: None,
        arg_index: None,
        range: place,
    };
    let nodes = vec![
        node(1, DataNodeKind::Local, range(0, 1), "a"),
        node(2, DataNodeKind::Receiver, range(17, 18), "a"),
        node(3, DataNodeKind::Field, range(19, 20), "b"),
    ];
    let positions =
        [ReceiverPosition { start_byte: 17, end_byte: 18, id: DataNodeId(id(2)) }];
    let mut edges = vec![DataFlowEdge::between(
        DataNodeId(id(1)),
        DataNodeId(id(3)),
        DataFlowKind::FieldLoad,
        range(17, 20),
        100,
    )];
    field_receivers(&tree, &positions, &nodes, &mut edges);
    assert_eq!(edges.len(), 1);
    assert_eq!(edges[0].source, DataNodeId(id(2)));
    assert_eq!(edges[0].target, DataNodeId(id(3)));
    assert!(matches!(edges[0].kind, DataFlowKind::FieldLoad));
}

#[test]
fn an_order_holds_every_row_once_and_keeps_equal_rows() {
    let keys = vec![vec![2, 1], vec![1, 9], vec![2, 0], vec![1, 9]];
    assert_eq!(stable_order(&keys), vec![1, 3, 2, 0]);
    assert_eq!(stable_order(&[]), Vec::<usize>::new());
}

#[test]
fn digests_follow_their_formula() {
    let hi = 0x6c62272e07bb014262b821756295c58du128;
    let lo = 0x1b873593cc9e2d51a0761d6478bd642fu128;
    let prime = 0x0000000001000000000000000000013bu128;
    assert_eq!(digest(b""), Digest { hi, lo });
    assert_eq!(
        digest(b"a"),
        Digest { hi: (hi ^ 0x61).wrapping_mul(prime), lo: (lo ^ 0x61).wrapping_mul(prime) }
    );
    assert_ne!(digest(b"ab"), digest(b"ba"));
}

#[test]
fn diagnostics_have_a_code_and_a_message() {
    let carried = TraceDiagnostic::Carried {
        level: DiagnosticLevel::Info,
        code: None,
        message: Text::new("kept"),
        detail: None,
    };
    assert_eq!(carried.code(), None);
    assert_eq!(carried.message(), Text::new("kept"));
    let limit = TraceDiagnostic::ExtractionLimit {
        limit: Text::new("too large"),
        file_id: FileId(id(1)),
        location: None,
    };
    assert_eq!(limit.code(), Some(Text::new("trace_extraction_limit")));
    assert_eq!(limit.message(), Text::new("too large"));
    let output = TraceDiagnostic::CallOutputUnavailable {
        file_id: FileId(id(1)),
        argument: range(0, 1),
        call: None,
    };
    assert_eq!(output.code(), Some(Text::new("trace_call_output_unavailable")));
    assert!(output.message().as_bytes().starts_with(b"This binding was exposed as a call argument."));
}

#[test]
fn a_canceled_discard_leaves_what_it_was_not_asked_about() {
    let tree = SyntaxTree::parse(b"void f() { g(); }").unwrap();
    let before = vec![reference(1, range(11, 14)), reference(2, range(11, 14))];
    let mut references = before.clone();
    let mut diagnostics = Vec::new();
    let asked = Cell::new(0);
    let cancel = || {
        asked.set(asked.get() + 1);
        true
    };
    assert!(!discard_statement_crossing_calls(&tree, &mut references, &mut diagnostics, &cancel));
    assert_eq!(asked.get(), 2);
    assert_eq!(references, before);
    assert!(diagnostics.is_empty());
    assert!(discard_statement_crossing_calls(&tree, &mut vec![], &mut diagnostics, &cancel));
    assert!(discard_statement_crossing_calls(&tree, &mut references, &mut diagnostics, &|| false));
    assert_eq!(references, before);
}

#[test]
fn regions_that_are_not_analyzed_are_those_that_may_run() {
    let source = "void f() { x = a + b; use(sizeof(c + d)); for (auto v : list) { } }";
    let tree = SyntaxTree::parse(source.as_bytes()).unwrap();
    let text = |place: TextRange| {
        source[place.start_byte as usize..place.end_byte as usize].to_string()
    };
    let mut regions = Vec::new();
    let mut unevaluated = 0;
    for n in 0..tree.len() {
        if let Some(region) = unexamined_invocation_region(&tree, n) {
            assert!(may_be_evaluated(&tree, n));
            regions.push(text(region));
        }
        if !may_be_evaluated(&tree, n) {
            unevaluated += 1;
        }
    }
    assert_eq!(regions, vec!["x = a + b", "a + b", "for (auto v : list)"]);
    assert!(unevaluated > 0);
}

#[test]
fn what_a_closure_captures_is_evaluated_around_it() {
    let source = "void f() { auto g = [v = make()] { return v; }; }";
    let tree = SyntaxTree::parse(source.as_bytes()).unwrap();
    let lambda = (0..tree.len()).find(|n| tree.kind(*n) == Kind::LambdaExpression).unwrap();
    let body = range(0, source.len() as u32);
    let name = closure_name(&tree, lambda);
    let mut closure = symbol(11, SymbolKind::Function, tree.range(lambda), None);
    let captures =
        (0..tree.len()).find(|n| tree.kind(*n) == Kind::LambdaCaptureSpecifier).unwrap();
    closure.name_range = tree.range(captures);
    assert_eq!(name, b"<lambda@20>".to_vec());
    closure.name = Text::from_vec(name.clone());
    closure.qualified_name = Text::from_vec(name);
    let symbols = vec![symbol(10, SymbolKind::Function, body, None), closure];
    let initializers = caller_initializers(&tree, &symbols);
    assert_eq!(initializers.keys(), &[SymbolId(id(11))]);

    let make = source.find("make").unwrap() as u32;
    let returned = source.rfind("v;").unwrap() as u32;
    let node = |n: u128, place: TextRange| DataNode {
        id: DataNodeId(id(n)),
        file_id: FileId(id(1)),
        function_id: Some(SymbolId(id(11))),
        kind: DataNodeKind::Expr,
        binding_id: None,
        callsite_id: None,
        name: None,
        access_path: None,
        arg_index: None,
        range: place,
    };
    let mut nodes =
        vec![node(1, range(make, make + 6)), node(2, range(returned, returned + 1))];
    capture_initializer_owners(&tree, &symbols, &mut nodes, &[Some(body), Some(body)]);
    assert_eq!(nodes[0].function_id, Some(SymbolId(id(10))));
    assert_eq!(nodes[1].function_id, Some(SymbolId(id(11))));
    // Where no callable is known around it, the owner stays unknown.
    let mut nodes = vec![node(1, range(make, make + 6))];
    capture_initializer_owners(&tree, &symbols, &mut nodes, &[None]);
    assert_eq!(nodes[0].function_id, None);
}
