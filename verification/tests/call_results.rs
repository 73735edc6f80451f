use atlas_engine::call_results::connect;
use atlas_engine::extraction_ctx::ExtractionCtx;
use atlas_engine::facts::{
    Callsite, DataFlowEdge, DataFlowKind, DataNode, DataNodeKind, Language, TextRange,
};
use atlas_engine::ids::{CallsiteId, DataNodeId, FileId, SymbolId};
use atlas_engine::syntax::SyntaxTree;
use atlas_engine::text::Text;

struct Flow<'s> {
    source: &'s str,
    ctx: ExtractionCtx,
    function: SymbolId,
    nodes: Vec<DataNode>,
    edges: Vec<DataFlowEdge>,
}

impl<'s> Flow<'s> {
    fn new(source: &'s str) -> Self {
        let file_id = FileId::generate(b"result-boundaries");
        Flow {
            source,
            ctx: ExtractionCtx {
                tree: SyntaxTree::parse(source.as_bytes()).unwrap(),
                file_id,
                language: Language::Cpp,
            },
            function: SymbolId::generate(&file_id, "cpp", b"selected", "function", None),
            nodes: vec![],
            edges: vec![],
        }
    }

    fn range(&self, text: &str) -> TextRange {
        let start = self.source.find(text).unwrap() as u32;
        let n = self
            .ctx
            .tree
            .descendant_for_byte_range(start, start + text.len() as u32)
            .unwrap();
        self.ctx.tree.range(n)
    }

    fn node(&mut self, kind: DataNodeKind, text: &str) -> DataNodeId {
        let range = self.range(text);
        let id = DataNodeId::generate(
            &self.ctx.file_id,
            Some(self.function),
            kind.as_str(),
            Some(text.as_bytes()),
            None,
            range.start_byte,
        );
        self.nodes.push(DataNode {
            id,
            file_id: self.ctx.file_id,
            function_id: Some(self.function),
            kind,
            binding_id: None,
            callsite_id: None,
            name: Some(Text::new(text)),
            access_path: None,
            arg_index: None,
            range,
        });
        id
    }

    fn edge(&mut self, from: DataNodeId, to: DataNodeId, kind: DataFlowKind) {
        self.edges.push(DataFlowEdge::between(from, to, kind, TextRange::default(), 90));
    }

    fn callsite(&self, text: &str) -> Callsite {
        let range = self.range(text);
        Callsite {
            id: CallsiteId::from_file_range(&self.ctx.file_id, range.start_byte, range.end_byte),
            caller: self.function,
            range,
        }
    }

    fn incoming(&self, target: DataNodeId) -> Vec<&DataNode> {
        self.edges
            .iter()
            .filter(|e| e.target == target)
            .map(|e| self.nodes.iter().find(|n| n.id == e.source).unwrap())
            .collect()
    }

    fn results(&self) -> Vec<&DataNode> {
        self.nodes.iter().filter(|n| n.kind == DataNodeKind::CallReturn).collect()
    }
}

fn named<'n>(node: &'n DataNode) -> &'n str {
    std::str::from_utf8(node.name.as_ref().unwrap().as_bytes()).unwrap()
}

#[test]
fn missing_call_records_keep_source_boundaries_without_inventing_call_identity() {
    let mut flow = Flow::new("int selected(int input) { return external(input); }");
    let returned = flow.node(DataNodeKind::Return, "external(input)");
    let used = flow.node(DataNodeKind::VariableUse, "input)");
    let at = flow.source.rfind("input").unwrap() as u32;
    flow.nodes[1].range.start_byte = at;
    flow.nodes[1].range.end_byte = at + 5;
    let result = flow.node(DataNodeKind::CallReturn, "external(input)");
    flow.edge(used, returned, DataFlowKind::ReturnValue);
    connect(&flow.ctx, &[], &[], &mut flow.nodes, &mut flow.edges, None, &|| false).unwrap();
    let found = flow.results();
    assert_eq!(found.len(), 1);
    assert_eq!(named(found[0]), "external(input)");
    assert!(found[0].callsite_id.is_none());
    let incoming: Vec<_> = flow.incoming(returned).iter().map(|n| n.id).collect();
    assert_eq!(incoming, vec![result]);
}

#[test]
fn construction_boundaries_match_full_and_lazy_without_a_return_mapping() {
    let mut flow = Flow::new(
        "struct Item { Item(int) {} }; int read(int x) { return x; } void consume(Item*); void selected(int input) { consume(new Item(read(input))); } Item* other(int x) { return new Item(x); }",
    );
    let outer = flow.node(DataNodeKind::CallArg, "new Item(read(input))");
    let inner = flow.node(DataNodeKind::CallArg, "read(input)");
    let used = flow.node(DataNodeKind::CallArg, "input)");
    let at = flow.source.find("(input)").unwrap() as u32 + 1;
    flow.nodes[2].range.start_byte = at;
    flow.nodes[2].range.end_byte = at + 5;
    for text in ["consume(new Item(read(input)))", "new Item(read(input))", "read(input)"] {
        flow.node(DataNodeKind::CallReturn, text);
    }
    flow.edge(used, outer, DataFlowKind::Read);
    flow.edge(inner, outer, DataFlowKind::Read);
    let calls = [
        flow.callsite("consume(new Item(read(input)))"),
        flow.callsite("read(input)"),
    ];
    connect(&flow.ctx, &calls, &[], &mut flow.nodes, &mut flow.edges, None, &|| false).unwrap();
    let results = flow.results();
    assert_eq!(results.len(), 3);
    let construction =
        results.iter().find(|n| named(n) == "new Item(read(input))").unwrap();
    assert!(construction.callsite_id.is_none());
    let incoming: Vec<_> = flow.incoming(outer).iter().map(|n| n.id).collect();
    assert_eq!(
        incoming,
        vec![construction.id],
        "nested call and constructor operands cannot supply the outer argument value"
    );
}

#[test]
fn a_result_gets_the_recorded_call_at_its_place() {
    let mut flow = Flow::new("int selected(int first, int second) { return choose(second, first + 3); }");
    let returned = flow.node(DataNodeKind::Return, "choose(second, first + 3)");
    let result = flow.node(DataNodeKind::CallReturn, "choose(second, first + 3)");
    let call = flow.callsite("choose(second, first + 3)");
    connect(&flow.ctx, &[call], &[call.id], &mut flow.nodes, &mut flow.edges, None, &|| false)
        .unwrap();
    let found = flow.results();
    assert_eq!(found.len(), 1);
    assert_eq!(found[0].callsite_id, Some(call.id));
    assert_eq!(found[0].range, call.range);
    assert_eq!(flow.incoming(returned).len(), 1);
    assert_eq!(flow.incoming(returned)[0].id, found[0].id);
    assert_ne!(found[0].id, result, "the recorded invocation has an identity of its own");
}

#[test]
fn a_range_that_splits_a_character_names_nothing() {
    let mut flow = Flow::new("int selected() { return f(\"\u{e9}\"); }");
    let at = flow.source.find('\u{e9}').unwrap() as u32;
    let mut whole = flow.callsite("f(\"\u{e9}\")");
    let mut split = whole;
    split.range.start_byte = at;
    split.range.end_byte = at + 1;
    split.id = CallsiteId::from_file_range(&flow.ctx.file_id, at, at + 1);
    whole.range.start_byte = at;
    whole.range.end_byte = at + 2;
    let calls = [whole, split];
    let values = [whole.id, split.id];
    connect(&flow.ctx, &calls, &values, &mut flow.nodes, &mut flow.edges, None, &|| false)
        .unwrap();
    let name_of = |call: &Callsite| {
        let results = flow.results();
        let result = results.iter().find(|n| n.callsite_id == Some(call.id)).unwrap();
        result.name.as_ref().map(|name| name.as_bytes().to_vec())
    };
    assert_eq!(name_of(&whole), Some("\u{e9}".as_bytes().to_vec()));
    assert_eq!(name_of(&split), None);
}

#[test]
fn a_canceled_connection_changes_nothing() {
    let mut flow = Flow::new("int selected(int input) { return external(input); }");
    let returned = flow.node(DataNodeKind::Return, "external(input)");
    let result = flow.node(DataNodeKind::CallReturn, "external(input)");
    flow.edge(result, returned, DataFlowKind::Read);
    let before = (flow.nodes.clone(), flow.edges.clone());
    assert!(
        connect(&flow.ctx, &[], &[], &mut flow.nodes, &mut flow.edges, None, &|| true).is_none()
    );
    assert_eq!((flow.nodes, flow.edges), before);
}
