use atlas_engine::cpp_annotation_sites::frontend;
use atlas_engine::cpp_facts::{CppAnnotationPosition, CppAnnotationToken};
use atlas_engine::cpp_initialization::refine;
use atlas_engine::facts::TextRange;
use atlas_engine::query_helpers::{
    collect_captures, compiled_query, QueryCache, QueryFailure, MAX_CACHED_QUERY_SOURCE_BYTES,
};
use atlas_engine::syntax::{Kind, SyntaxTree};
use atlas_engine::text::Text;

fn captures(query: &str, source: &str) -> Vec<(String, String)> {
    let tree = SyntaxTree::parse(source.as_bytes()).unwrap();
    captures_in(query, &tree)
}

fn captures_in(query: &str, tree: &SyntaxTree) -> Vec<(String, String)> {
    collect_captures(query, tree, 0, "test", &|| false)
        .unwrap()
        .into_iter()
        .map(|capture| {
            (
                String::from_utf8(capture.name.as_bytes().to_vec()).unwrap(),
                String::from_utf8(tree.node_text(capture.node).unwrap().to_vec()).unwrap(),
            )
        })
        .collect()
}

#[test]
fn repeated_programs_keep_sources_and_query_text_independent() {
    let names = "(identifier) @name";
    assert_eq!(
        captures(names, "int first;"),
        [("name".into(), "first".into())]
    );
    assert_eq!(
        captures(names, "int second;"),
        [("name".into(), "second".into())]
    );
    assert_eq!(
        captures("(primitive_type) @type", "int second;"),
        [("type".into(), "int".into())]
    );
    assert_eq!(captures("(identifier) @_constraint", "int second;"), []);
    assert_eq!(
        captures(names, "int first;"),
        [("name".into(), "first".into())]
    );
    let tree = SyntaxTree::parse(b"").unwrap();
    let invalid = "(not_a_cpp_node) @invalid";
    let failure = collect_captures(invalid, &tree, 0, "test", &|| false).unwrap_err();
    assert!(matches!(failure, QueryFailure::QueryCompile { slot: "test", .. }));
}

#[test]
fn a_warm_program_preserves_capture_cancellation() {
    let query = "(identifier) @name";
    assert_eq!(captures(query, "int seed;").len(), 1);
    let source: String = (0..200).map(|n| format!("int value{n};\n")).collect();
    let tree = SyntaxTree::parse(source.as_bytes()).unwrap();
    let error = collect_captures(query, &tree, 0, "test", &|| true).unwrap_err();
    assert!(matches!(error, QueryFailure::Cancelled { slot: "test" }));
}

#[test]
fn an_empty_query_captures_nothing_and_captures_come_once() {
    assert_eq!(captures("  \n", "int first;"), []);
    let twice = "(identifier) @name (identifier) @name";
    assert_eq!(captures(twice, "int first;"), [("name".into(), "first".into())]);
    let nested = "(declaration declarator: (identifier) @name) @all";
    assert_eq!(
        captures(nested, "int first;"),
        [("all".into(), "int first;".into()), ("name".into(), "first".into())]
    );
}

#[test]
fn a_query_cache_keeps_few_and_small_queries() {
    let mut cache: QueryCache<usize> = QueryCache::new();
    assert!(cache.find(1, b"(a)").is_none());
    for n in 0..33usize {
        cache.record(1, format!("({n})").as_bytes(), n);
    }
    assert_eq!(cache.len(), 32);
    assert!(cache.find(1, b"(0)").is_none());
    assert_eq!(cache.find(1, b"(32)"), Some(&32));
    assert!(cache.find(2, b"(32)").is_none());
    cache.record(1, &[0x20; 64 * 1024 + 1], 99);
    assert_eq!(cache.len(), 32);
    assert_eq!(cache.find(1, b"(1)"), Some(&1));
}

#[test]
fn captures_are_those_of_the_tree_that_was_read() {
    // The parser took the annotation for blank space; the nodes stand over the raw text.
    let source = b"class API Foo { };";
    let api = CppAnnotationToken {
        name: Text::new("API"),
        text: Text::new("API"),
        range: TextRange {
            start_byte: 6,
            end_byte: 9,
            start_line: 0,
            start_column: 6,
            end_line: 0,
            end_column: 9,
        },
        position: CppAnnotationPosition::ClassPrefix,
    };
    let tree = frontend(vec![api], vec![]).parse(source, &|| false).unwrap();
    let classes = "(class_specifier name: (type_identifier) @name)";
    assert_eq!(captures_in(classes, &tree), [("name".into(), "Foo".into())]);
    let raw = SyntaxTree::parse(source).unwrap();
    assert_ne!(captures_in(classes, &raw), captures_in(classes, &tree));

    // Read again as an initialization; conditions see the text without parentheses.
    let source = "struct Status { explicit Status(int); };\nint build(int, int);\nvoid run() { int x = 1; int y = 2; Status value(build(x, y)); }\n";
    let first = SyntaxTree::parse(source.as_bytes()).unwrap();
    let calls = "((call_expression) @call (#eq? @call \"build(x, y)\"))";
    assert_eq!(captures_in(calls, &first), []);
    let refined = refine(first, &|| false).unwrap();
    assert_eq!(captures_in(calls, &refined), [("call".into(), "build(x, y)".into())]);
}

#[test]
fn captures_stand_below_their_root() {
    let tree = SyntaxTree::parse(b"int a; void f() { int b; }").unwrap();
    let body = (0..tree.len()).find(|n| tree.kind(*n) == Kind::CompoundStatement).unwrap();
    let names = |root: usize| -> Vec<Vec<u8>> {
        collect_captures("(identifier) @name", &tree, root, "test", &|| false)
            .unwrap()
            .iter()
            .map(|capture| tree.node_text(capture.node).unwrap().to_vec())
            .collect()
    };
    assert_eq!(names(0), [b"a", b"f", b"b"]);
    assert_eq!(names(body), [b"b"]);
}

#[test]
fn few_captures_are_not_canceled() {
    let source: String = (0..99).map(|n| format!("int value{n};\n")).collect();
    let tree = SyntaxTree::parse(source.as_bytes()).unwrap();
    let found = collect_captures("(identifier) @name", &tree, 0, "test", &|| true).unwrap();
    assert_eq!(found.len(), 99);
}

#[test]
fn a_query_is_compiled_once_and_kept() {
    let mut cache = QueryCache::new();
    let query = b"(identifier) @name (primitive_type) @type";
    let names = [b"name".to_vec(), b"type".to_vec()];
    assert_eq!(compiled_query(&mut cache, 7, query).unwrap(), names);
    assert_eq!(cache.len(), 1);
    assert_eq!(cache.find(7, query).unwrap().as_slice(), names);
    // A hit gives what is kept.
    cache.record(8, query, vec![b"kept".to_vec()]);
    assert_eq!(compiled_query(&mut cache, 8, query).unwrap(), [b"kept".to_vec()]);
    assert_eq!(cache.len(), 2);
    // What does not compile is not kept, nor is what is too long.
    assert!(compiled_query(&mut cache, 7, b"(not_a_cpp_node) @invalid").is_err());
    let mut long = query.to_vec();
    long.resize(MAX_CACHED_QUERY_SOURCE_BYTES + 1, b' ');
    assert_eq!(compiled_query(&mut cache, 7, &long).unwrap(), names);
    assert_eq!(cache.len(), 2);
}
