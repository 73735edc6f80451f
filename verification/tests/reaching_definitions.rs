use atlas_engine::call_outputs::{append, append_parameter_outputs, is_cpp_reference_parameter};
use atlas_engine::extraction_ctx::ExtractionCtx;
use atlas_engine::facts::{
    CfgEdge, CfgEdgeKind, CfgNode, CfgNodeKind, CfgResult, DataFlowEdge, DataFlowKind, DataNode,
    DataNodeKind, ExtractDiagnostic, Language, TextRange,
};
use atlas_engine::ids::{BindingId, CallsiteId, CfgNodeId, DataNodeId, Digest, FileId, SymbolId};
use atlas_engine::reaching_defs::{resolve, resolve_with_budget, UseDefResult};
use atlas_engine::syntax::{Kind, SyntaxTree};
use atlas_engine::text::Text;
use std::cell::Cell;
use std::collections::{BTreeSet, HashMap, HashSet};
use tree_sitter::{Node, Parser};

const NODE_LIMIT: usize = 2000;

/// The local facts of small C++ functions: values, uses, and the order of statements.
struct Facts {
    ctx: ExtractionCtx,
    nodes: Vec<DataNode>,
    keys: Vec<Option<u64>>,
    edges: Vec<DataFlowEdge>,
    cfg: CfgResult,
    diagnostics: Vec<ExtractDiagnostic>,
}

struct Builder<'s> {
    source: &'s str,
    file: FileId,
    function: SymbolId,
    nodes: Vec<DataNode>,
    keys: Vec<Option<u64>>,
    edges: Vec<DataFlowEdge>,
    cfg: CfgResult,
    scopes: Vec<HashMap<String, u64>>,
    next_binding: u64,
    exit: CfgNodeId,
    breaks: Vec<Vec<Exit>>,
    continues: Vec<CfgNodeId>,
    labels: HashMap<String, CfgNodeId>,
    jumps: Vec<(String, CfgNodeId)>,
    closures: u64,
}

type Exit = (CfgNodeId, CfgEdgeKind);

fn range_of(node: Node) -> TextRange {
    let r = node.range();
    TextRange {
        start_byte: r.start_byte as u32,
        end_byte: r.end_byte as u32,
        start_line: r.start_point.row as u32,
        start_column: r.start_point.column as u32,
        end_line: r.end_point.row as u32,
        end_column: r.end_point.column as u32,
    }
}

impl Builder<'_> {
    fn text(&self, node: Node) -> String {
        node.utf8_text(self.source.as_bytes()).unwrap().to_string()
    }

    fn value(&mut self, kind: DataNodeKind, at: Node, key: Option<u64>) -> DataNodeId {
        let name = self.text(at);
        let range = range_of(at);
        let id = DataNodeId::generate(
            &self.file,
            Some(self.function),
            kind.as_str(),
            Some(name.as_bytes()),
            None,
            range.start_byte,
        );
        self.nodes.push(DataNode {
            id,
            file_id: self.file,
            function_id: Some(self.function),
            kind,
            binding_id: key.map(|k| BindingId(Digest { hi: 0, lo: u128::from(k) })),
            callsite_id: None,
            name: Some(Text::new(&name)),
            access_path: None,
            arg_index: None,
            range,
        });
        // A closure runs on its own: its definitions are apart from those around it.
        self.keys.push(key.map(|k| k + 1000 * self.closures));
        id
    }

    fn edge(&mut self, from: DataNodeId, to: DataNodeId, kind: DataFlowKind, at: Node) {
        self.edges.push(DataFlowEdge::between(from, to, kind, range_of(at), 90));
    }

    fn declare(&mut self, name: String) -> u64 {
        self.next_binding += 1;
        self.scopes.last_mut().unwrap().insert(name, self.next_binding);
        self.next_binding
    }

    fn lookup(&self, name: &str) -> Option<u64> {
        self.scopes.iter().rev().find_map(|s| s.get(name).copied())
    }

    fn expr(&mut self, node: Node) -> Option<DataNodeId> {
        match node.kind() {
            "identifier" => {
                let key = self.lookup(&self.text(node));
                Some(self.value(DataNodeKind::VariableUse, node, key))
            }
            "number_literal" => Some(self.value(DataNodeKind::Literal, node, None)),
            "assignment_expression" => {
                let right = self.expr(node.child_by_field_name("right").unwrap());
                let left = node.child_by_field_name("left").unwrap();
                let key = self.lookup(&self.text(left));
                let local = self.value(DataNodeKind::Local, left, key);
                if let Some(right) = right {
                    self.edge(right, local, DataFlowKind::Assign, node);
                }
                Some(local)
            }
            "update_expression" => {
                let operand = node.child_by_field_name("argument").unwrap();
                let key = self.lookup(&self.text(operand));
                let used = self.value(DataNodeKind::VariableUse, operand, key);
                let result = self.value(DataNodeKind::Expr, node, None);
                let local = self.value(DataNodeKind::Local, operand, key);
                self.edge(used, result, DataFlowKind::Read, node);
                self.edge(result, local, DataFlowKind::Assign, node);
                Some(result)
            }
            "lambda_expression" => {
                let outer = self.function;
                self.closures += 1;
                self.function = SymbolId::generate(
                    &self.file,
                    "cpp",
                    self.text(node).as_bytes(),
                    "function",
                    None,
                );
                let mut cursor = node.walk();
                let body = node
                    .named_children(&mut cursor)
                    .find(|c| c.kind() == "compound_statement")
                    .unwrap();
                let entry = self.place(CfgNodeKind::Entry, TextRange::default(), vec![]);
                self.statement(body, vec![entry]);
                self.function = outer;
                self.closures -= 1;
                None
            }
            _ => {
                let mut cursor = node.walk();
                let children: Vec<_> = node.named_children(&mut cursor).collect();
                let values: Vec<_> = children.into_iter().filter_map(|c| self.expr(c)).collect();
                if values.is_empty() {
                    return None;
                }
                if node.kind() == "parenthesized_expression" && values.len() == 1 {
                    return Some(values[0]);
                }
                let result = self.value(DataNodeKind::Expr, node, None);
                for v in values {
                    self.edge(v, result, DataFlowKind::Read, node);
                }
                Some(result)
            }
        }
    }

    fn place(&mut self, kind: CfgNodeKind, range: TextRange, from: Vec<Exit>) -> Exit {
        let node = CfgNode::new(&self.function, kind, range);
        self.cfg.nodes.push(node);
        self.join(node.id, from);
        (node.id, CfgEdgeKind::Normal)
    }

    fn join(&mut self, to: CfgNodeId, from: Vec<Exit>) {
        for (source, kind) in from {
            self.cfg.edges.push(CfgEdge::new(&source, &to, kind));
        }
    }

    fn statement(&mut self, node: Node, from: Vec<Exit>) -> Vec<Exit> {
        match node.kind() {
            "compound_statement" => {
                self.scopes.push(HashMap::new());
                let mut exits = from;
                let mut cursor = node.walk();
                let children: Vec<_> = node.named_children(&mut cursor).collect();
                for child in children {
                    exits = self.statement(child, exits);
                }
                self.scopes.pop();
                exits
            }
            "declaration" => {
                let at = self.place(CfgNodeKind::Statement, range_of(node), from);
                let mut cursor = node.walk();
                let children: Vec<_> = node.children_by_field_name("declarator", &mut cursor).collect();
                for child in children {
                    let (name, value) = if child.kind() == "init_declarator" {
                        (
                            child.child_by_field_name("declarator").unwrap(),
                            child.child_by_field_name("value"),
                        )
                    } else {
                        (child, None)
                    };
                    let source = value.and_then(|v| self.expr(v));
                    let key = self.declare(self.text(name));
                    let local = self.value(DataNodeKind::Local, name, Some(key));
                    if let Some(source) = source {
                        self.edge(source, local, DataFlowKind::Assign, child);
                    }
                }
                vec![at]
            }
            "return_statement" => {
                let at = self.place(CfgNodeKind::Return, range_of(node), from);
                self.cfg.normal_exit_sources.push(at.0);
                if let Some(value) = node.named_child(0) {
                    let returned = self.value(DataNodeKind::Return, value, None);
                    if let Some(source) = self.expr(value) {
                        self.edge(source, returned, DataFlowKind::ReturnValue, node);
                    }
                }
                let exit = self.exit;
                self.join(exit, vec![at]);
                vec![]
            }
            "if_statement" => {
                let condition = node.child_by_field_name("condition").unwrap();
                let at = self.place(CfgNodeKind::Branch, range_of(condition), from).0;
                self.expr(condition);
                let body = node.child_by_field_name("consequence").unwrap();
                let mut exits = self.statement(body, vec![(at, CfgEdgeKind::TrueBranch)]);
                let other = vec![(at, CfgEdgeKind::FalseBranch)];
                match node.child_by_field_name("alternative") {
                    None => exits.extend(other),
                    Some(clause) => {
                        let body = clause.named_child(0).unwrap();
                        exits.extend(self.statement(body, other));
                    }
                }
                exits
            }
            "while_statement" => {
                let condition = node.child_by_field_name("condition").unwrap();
                let at = self.place(CfgNodeKind::Loop, range_of(condition), from).0;
                self.expr(condition);
                self.breaks.push(vec![]);
                self.continues.push(at);
                let body = node.child_by_field_name("body").unwrap();
                let back = self.statement(body, vec![(at, CfgEdgeKind::TrueBranch)]);
                for (source, _) in back {
                    self.join(at, vec![(source, CfgEdgeKind::Back)]);
                }
                self.continues.pop();
                let mut exits = self.breaks.pop().unwrap();
                exits.push((at, CfgEdgeKind::FalseBranch));
                exits
            }
            "break_statement" => {
                let at = self.place(CfgNodeKind::Statement, range_of(node), from);
                self.breaks.last_mut().unwrap().push(at);
                vec![]
            }
            "continue_statement" => {
                let at = self.place(CfgNodeKind::Statement, range_of(node), from);
                let to = *self.continues.last().unwrap();
                self.join(to, vec![(at.0, CfgEdgeKind::Back)]);
                vec![]
            }
            "goto_statement" => {
                let at = self.place(CfgNodeKind::Statement, range_of(node), from);
                let label = self.text(node.child_by_field_name("label").unwrap());
                self.jumps.push((label, at.0));
                vec![]
            }
            "labeled_statement" => {
                let label = node.child_by_field_name("label").unwrap();
                let at = self.place(CfgNodeKind::Statement, range_of(label), from);
                self.labels.insert(self.text(label), at.0);
                let last = node.named_child(node.named_child_count() as u32 - 1).unwrap();
                self.statement(last, vec![at])
            }
            _ => {
                let at = self.place(CfgNodeKind::Statement, range_of(node), from);
                self.expr(node);
                vec![at]
            }
        }
    }

    fn function(&mut self, node: Node) {
        let mut declarator = node.child_by_field_name("declarator").unwrap();
        while declarator.kind() != "function_declarator" {
            declarator = declarator.named_child(0).unwrap();
        }
        let name = self.text(declarator.child_by_field_name("declarator").unwrap());
        self.function = SymbolId::generate(&self.file, "cpp", name.as_bytes(), "function", None);
        let entry = self.place(CfgNodeKind::Entry, TextRange::default(), vec![]);
        let exit = CfgNode::new(&self.function, CfgNodeKind::Exit, TextRange::default());
        self.cfg.nodes.push(exit);
        self.exit = exit.id;
        self.scopes.push(HashMap::new());
        let parameters = declarator.child_by_field_name("parameters").unwrap();
        let mut cursor = parameters.walk();
        let list: Vec<_> = parameters.named_children(&mut cursor).collect();
        for (index, parameter) in list.into_iter().enumerate() {
            let Some(mut name) = parameter.child_by_field_name("declarator") else {
                continue;
            };
            while name.kind() != "identifier" {
                name = name.named_child(0).unwrap();
            }
            let key = self.declare(self.text(name));
            self.value(DataNodeKind::Parameter, name, Some(key));
            self.nodes.last_mut().unwrap().arg_index = Some(index as u32);
        }
        let body = node.child_by_field_name("body").unwrap();
        let exits = self.statement(body, vec![entry]);
        for (source, kind) in exits {
            self.cfg.normal_exit_sources.push(source);
            self.join(exit.id, vec![(source, kind)]);
        }
        for (label, source) in std::mem::take(&mut self.jumps) {
            let to = self.labels[&label];
            self.join(to, vec![(source, CfgEdgeKind::Normal)]);
        }
        self.scopes.pop();
    }
}

fn parse(source: &str) -> tree_sitter::Tree {
    let mut parser = Parser::new();
    parser.set_language(&tree_sitter_cpp::LANGUAGE.into()).unwrap();
    parser.parse(source, None).unwrap()
}

/// The facts before uses are joined to definitions.
fn local_facts(source: &str) -> Facts {
    let file = FileId::generate(b"flow.cpp");
    let none = SymbolId::generate(&file, "cpp", b"", "function", None);
    let mut builder = Builder {
        source,
        file,
        function: none,
        nodes: vec![],
        keys: vec![],
        edges: vec![],
        cfg: CfgResult {
            nodes: vec![],
            edges: vec![],
            terminated_tails: vec![],
            normal_exit_sources: vec![],
        },
        scopes: vec![],
        next_binding: 0,
        exit: CfgNodeId::generate(&none, "exit", 0),
        breaks: vec![],
        continues: vec![],
        labels: HashMap::new(),
        jumps: vec![],
        closures: 0,
    };
    let tree = parse(source);
    let mut cursor = tree.walk();
    for node in tree.root_node().named_children(&mut cursor) {
        if node.kind() == "function_definition" {
            builder.function(node);
        }
    }
    let ctx = ExtractionCtx {
        tree: SyntaxTree::parse(source.as_bytes()).unwrap(),
        file_id: file,
        language: Language::Cpp,
    };
    let Builder { mut nodes, mut keys, edges, cfg, .. } = builder;
    let mut diagnostics = vec![];
    let before = nodes.len();
    append_parameter_outputs(&ctx, &cfg, NODE_LIMIT, &mut nodes, &mut diagnostics, &|| false)
        .unwrap();
    for i in before..nodes.len() {
        let at = nodes[..before]
            .iter()
            .position(|n| n.binding_id == nodes[i].binding_id)
            .unwrap();
        keys.push(keys[at]);
    }
    Facts { ctx, nodes, keys, edges, cfg, diagnostics }
}

fn joined(facts: &Facts, cfg: &CfgResult) -> UseDefResult {
    resolve(&facts.nodes, &facts.keys, &facts.edges, cfg, &facts.ctx, &|| false).unwrap()
}

fn extract(source: &str) -> Facts {
    let mut facts = local_facts(source);
    let result = joined(&facts, &facts.cfg);
    facts.edges.extend(result.edges);
    facts.diagnostics.extend(result.diagnostics);
    facts
}

fn written<'s>(source: &'s str, node: &DataNode) -> &'s str {
    &source[node.range.start_byte as usize..node.range.end_byte as usize]
}

fn starts_with(text: &Text, prefix: &str) -> bool {
    text.as_bytes().starts_with(prefix.as_bytes())
}

fn origins(facts: &Facts, source: &str, marker: &str) -> BTreeSet<String> {
    let start = (source.find(marker).unwrap() + "return ".len()) as u32;
    let sink = facts
        .nodes
        .iter()
        .find(|n| n.kind == DataNodeKind::Return && n.range.start_byte == start)
        .unwrap();
    let mut pending = vec![sink.id];
    let mut seen = HashSet::new();
    let nodes: HashMap<_, _> = facts.nodes.iter().map(|n| (n.id, n)).collect();
    while let Some(id) = pending.pop() {
        if !seen.insert(id) {
            continue;
        }
        pending.extend(facts.edges.iter().filter(|e| e.target == id).map(|e| e.source));
    }
    seen.iter()
        .filter_map(|id| nodes.get(id))
        .filter(|n| matches!(n.kind, DataNodeKind::Parameter | DataNodeKind::Literal))
        .map(|n| written(source, n).to_string())
        .collect()
}

fn assert_origins(source: &str, marker: &str, expected: &[&str]) -> Facts {
    let facts = extract(source);
    assert_eq!(
        origins(&facts, source, marker),
        expected.iter().map(|s| s.to_string()).collect(),
        "{source}\n{:?}",
        facts.diagnostics
    );
    facts
}

#[test]
fn unconditional_overwrite_removes_old_definition() {
    let facts = assert_origins(
        "int f(int input) { int value = input; value = 7; return value; }",
        "return value",
        &["7"],
    );
    assert!(facts.diagnostics.is_empty(), "{:?}", facts.diagnostics);
}

#[test]
fn weak_update_result_does_not_feed_its_own_operand_without_a_loop() {
    for (source, loop_carried) in [
        (
            "int f(int seed) { auto total = seed; total++; return total; }",
            false,
        ),
        (
            "int f(int seed, int count) { auto total = seed; while (count--) { total++; } return total; }",
            true,
        ),
    ] {
        let facts = extract(source);
        let start = source.find("total++").unwrap() as u32;
        let mutation = facts
            .nodes
            .iter()
            .find(|n| n.kind == DataNodeKind::Local && n.range.start_byte == start)
            .unwrap();
        let operand = facts
            .nodes
            .iter()
            .find(|n| n.kind == DataNodeKind::VariableUse && n.range.start_byte == start)
            .unwrap();
        assert_eq!(mutation.binding_id, operand.binding_id);
        assert_eq!(
            facts
                .edges
                .iter()
                .any(|e| e.source == mutation.id && e.target == operand.id),
            loop_carried,
            "only a preceding loop iteration can feed this mutation's operand"
        );
        assert!(origins(&facts, source, "return total").contains("seed"));
        assert!(
            facts
                .diagnostics
                .iter()
                .any(|d| starts_with(&d.message, "use_def_write_order_unmodeled:")),
            "operand order does not establish overwrite effects for auto"
        );
    }
}

#[test]
fn branches_keep_only_definitions_that_can_reach_the_join() {
    assert_origins(
        "int f(int first, int second, bool choose) { int value = first; if (choose) value = second; return value; }",
        "return value",
        &["first", "second"],
    );
    assert_origins(
        "int f(int first, int second, int third, bool choose) { int value = first; if (choose) value = second; else value = third; return value; }",
        "return value",
        &["second", "third"],
    );
}

#[test]
fn returning_branch_does_not_pollute_the_other_branch() {
    assert_origins(
        "int f(int first, int second, bool choose) { int value = first; if (choose) { value = second; return 0; } return value; }",
        "return value",
        &["first"],
    );
}

#[test]
fn loop_backedge_preserves_prior_iteration_value() {
    let source = "int f(int first, int second, int count) { int value = first; while (count-- > 0) { int previous = value; value = second; if (count == 0) return previous; } return value; }";
    assert_origins(source, "return previous", &["first", "second"]);
    assert_origins(source, "return value", &["first", "second"]);
}

#[test]
fn break_and_continue_follow_their_actual_cfg_successors() {
    assert_origins(
        "int f(int first, int second, int third, bool choose) { int value = first; while (choose) { value = second; break; value = third; } return value; }",
        "return value",
        &["first", "second"],
    );
    assert_origins(
        "int f(int first, int second, int third, int count) { int value = first; while (count-- > 0) { value = second; continue; value = third; } return value; }",
        "return value",
        &["first", "second"],
    );
}

#[test]
fn direct_goto_keeps_jump_target_and_excludes_disconnected_write() {
    assert_origins(
        "int f(int first, int second) { int value = first; goto done; value = second; done: return value; }",
        "return value",
        &["first"],
    );
    assert_origins(
        "int f(int first, int second) { int value = first; goto assign; return 0; assign: value = second; return value; }",
        "return value",
        &["second"],
    );
}

#[test]
fn lazy_function_window_preserves_loop_origins_without_other_function_data() {
    let source = "int f(int first, int second, int count) { int value = first; while (count-- > 0) { int previous = value; value = second; if (count == 0) return previous; } return value; } int other(int unrelated) { return unrelated; }";
    let mut facts = local_facts(source);
    let function = SymbolId::generate(&facts.ctx.file_id, "cpp", b"f", "function", None);
    // The window holds the values of one function; the control flow is whole.
    let kept: Vec<usize> = (0..facts.nodes.len())
        .filter(|i| facts.nodes[*i].function_id == Some(function))
        .collect();
    facts.keys = kept.iter().map(|i| facts.keys[*i]).collect();
    facts.nodes = kept.iter().map(|i| facts.nodes[*i].clone()).collect();
    let result = joined(&facts, &facts.cfg);
    assert!(!result.truncated);
    facts.edges.extend(result.edges);
    assert_eq!(
        origins(&facts, source, "return previous"),
        BTreeSet::from(["first".into(), "second".into()])
    );
    assert!(facts.nodes.iter().all(|n| n.function_id == Some(function)));
}

#[test]
fn rhs_reads_previous_value_before_replacing_it() {
    let source = "int f(int input) { int value = input; value = value + 1; return value; }";
    let facts = assert_origins(source, "return value", &["input", "1"]);
    let write = facts
        .nodes
        .iter()
        .find(|n| {
            n.kind == DataNodeKind::Local
                && n.range.start_byte == source.find("value = value").unwrap() as u32
        })
        .unwrap();
    let read = facts
        .nodes
        .iter()
        .find(|n| {
            n.kind == DataNodeKind::VariableUse
                && n.range.start_byte == source.find("value + 1").unwrap() as u32
        })
        .unwrap();
    assert!(
        !facts
            .edges
            .iter()
            .any(|e| e.source == write.id && e.target == read.id)
    );
}

#[test]
fn lexical_shadow_and_uninvoked_closure_do_not_replace_outer_local() {
    assert_origins(
        "int f(int first, int second) { int value = first; { int value = second; value = 7; } return value; }",
        "return value",
        &["first"],
    );
    assert_origins(
        "int f(int first, int second) { int value = first; auto pending = [&]() { value = second; }; return value; }",
        "return value",
        &["first"],
    );
}

#[test]
fn conditional_expression_writes_keep_old_value_and_report_order_limit() {
    for expression in [
        "choose && (value = second)",
        "choose ? (value = second) : 0",
    ] {
        let source = format!(
            "int f(int first, int second, bool choose) {{ int value = first; {expression}; return value; }}"
        );
        let facts = assert_origins(&source, "return value", &["first", "second"]);
        let write_start = source.find("value = second").unwrap() as u32;
        assert!(
            facts
                .diagnostics
                .iter()
                .any(|d| starts_with(&d.message, "use_def_write_order_unmodeled:")
                    && d.range.is_some_and(|r| r.start_byte == write_start))
        );
    }
}

#[test]
fn cpp_object_assignment_does_not_prove_the_old_value_was_overwritten() {
    let source = "struct Box { int number; Box& operator=(const Box&) { return *this; } }; Box f(Box first, Box second) { Box value = first; value = second; return value; }";
    let facts = assert_origins(source, "return value", &["first", "second"]);
    let assignment = source.find("value = second").unwrap() as u32;
    assert!(
        facts
            .diagnostics
            .iter()
            .any(|d| starts_with(&d.message, "use_def_write_order_unmodeled:")
                && d.range.is_some_and(|r| r.start_byte == assignment))
    );
}

fn no_control_flow() -> CfgResult {
    CfgResult {
        nodes: vec![],
        edges: vec![],
        terminated_tails: vec![],
        normal_exit_sources: vec![],
    }
}

#[test]
fn reference_output_requires_a_recorded_cfg_exit() {
    let source = "void f(int& value) { value = 7; observe(value); }";
    let facts = local_facts(source);
    let output = facts
        .nodes
        .iter()
        .find(|n| n.kind == DataNodeKind::ParameterOutput)
        .unwrap();
    let missing = joined(&facts, &no_control_flow());
    assert!(
        missing.edges.iter().all(|e| e.target != output.id),
        "Unordered definitions do not establish reference state at normal exit"
    );
    assert!(
        !missing.edges.is_empty(),
        "Ordinary uses must retain their possible definitions without CFG"
    );
    assert!(missing.diagnostics.iter().any(|d| {
        d.range == Some(output.range) && starts_with(&d.message, "use_def_cfg_unavailable:")
    }));
    assert!(!missing.truncated);
}

#[test]
fn use_def_missing_cfg_budget_and_cancellation_are_explicit() {
    let source = "int f(int input) { int value = input; return value; }";
    let facts = local_facts(source);
    let limited = resolve_with_budget(
        &facts.nodes,
        &facts.keys,
        &facts.edges,
        &facts.cfg,
        &facts.ctx,
        &|| false,
        0,
    )
    .unwrap();
    assert!(limited.truncated);
    assert!(limited.edges.is_empty());
    assert_eq!(limited.diagnostics.len(), 1);
    assert!(starts_with(&limited.diagnostics[0].message, "use_def_budget_exceeded:"));

    let missing = joined(&facts, &no_control_flow());
    assert!(
        !missing.edges.is_empty(),
        "missing CFG must retain possible definitions"
    );
    assert!(!missing.diagnostics.is_empty());
    assert!(
        missing
            .diagnostics
            .iter()
            .all(|d| starts_with(&d.message, "use_def_cfg_unavailable:") && d.range.is_some())
    );
    assert!(
        !missing.truncated,
        "missing analysis inputs differ from exhausted work budget"
    );

    let count = Cell::new(0usize);
    assert!(
        resolve(&facts.nodes, &facts.keys, &facts.edges, &facts.cfg, &facts.ctx, &|| {
            count.set(count.get() + 1);
            count.get() > 2
        })
        .is_none()
    );
}

#[test]
fn nodes_behind_the_end_of_a_path_take_no_part() {
    let source = "int f(int a) { int b = a; return b; }";
    let mut facts = local_facts(source);
    let before = joined(&facts, &facts.cfg).edges;
    let last = (source.find("return").unwrap(), source.find('}').unwrap());
    let behind = |id: DataNodeId| {
        let node = facts.nodes.iter().find(|n| n.id == id).unwrap();
        last.0 <= node.range.start_byte as usize && node.range.end_byte as usize <= last.1
    };
    assert!(before.iter().any(|e| behind(e.target)));
    assert!(before.iter().any(|e| !behind(e.target)));
    let kept: Vec<_> = before
        .iter()
        .filter(|e| !behind(e.source) && !behind(e.target))
        .cloned()
        .collect();
    let function = facts.nodes[0].function_id.unwrap();
    let tail = TextRange {
        start_byte: last.0 as u32,
        end_byte: last.1 as u32,
        ..TextRange::default()
    };
    facts.cfg.terminated_tails.push((function, tail));
    assert_eq!(joined(&facts, &facts.cfg).edges, kept);
}

#[test]
fn less_work_finds_a_beginning_of_what_more_work_finds() {
    let source = "int f(int a, int b) { int c = a + b; while (c) { c = c - a; } return c; }";
    let facts = local_facts(source);
    let with = |work: usize| {
        resolve_with_budget(
            &facts.nodes,
            &facts.keys,
            &facts.edges,
            &facts.cfg,
            &facts.ctx,
            &|| false,
            work,
        )
        .unwrap()
    };
    let all = joined(&facts, &facts.cfg);
    assert!(!all.truncated);
    let ids: HashSet<_> = all.edges.iter().map(|e| e.id).collect();
    assert_eq!(ids.len(), all.edges.len(), "each pair is recorded once");
    let mut found = BTreeSet::new();
    let mut before = with(0);
    for work in 1..1000 {
        let result = with(work);
        assert!(result.edges.starts_with(&before.edges), "{work}");
        assert!(all.edges.starts_with(&result.edges), "{work}");
        let reported = result
            .diagnostics
            .iter()
            .any(|d| starts_with(&d.message, "use_def_budget_exceeded:"));
        assert_eq!(result.truncated, reported, "{work}");
        if !result.truncated {
            assert_eq!(result.edges, all.edges, "{work}");
        }
        found.insert(result.edges.len());
        before = result;
    }
    assert!(found.len() > 2, "work runs out between two edges");
    assert!(found.contains(&all.edges.len()));
    assert!(
        resolve(&facts.nodes, &facts.keys, &facts.edges, &facts.cfg, &facts.ctx, &|| true)
            .is_none()
    );
}

#[test]
fn reference_binding_does_not_require_resolving_the_parameter_type() {
    let source = "template<class T> void copy(T& result, T input, void (*callback)(int& nested), int (&array)[N]);\n";
    let tree = SyntaxTree::parse(source.as_bytes()).unwrap();
    let parameters: Vec<_> = (0..tree.len())
        .filter(|n| tree.kind(*n) == Kind::ParameterDeclaration)
        .map(|n| {
            (
                std::str::from_utf8(tree.node_text(n).unwrap()).unwrap(),
                is_cpp_reference_parameter(&tree, n),
            )
        })
        .collect();
    for (name, expected) in [
        ("T& result", true),
        ("T input", false),
        ("void (*callback)(int& nested)", false),
        ("int (&array)[N]", true),
    ] {
        assert!(parameters.contains(&(name, expected)), "{parameters:?}");
    }
}

#[test]
fn reference_exit_product_is_bounded_before_use_def_and_can_cancel() {
    let source = "void fill(int& output) { return; }";
    let facts = local_facts(source);
    let parameter = facts
        .nodes
        .iter()
        .find(|n| n.kind == DataNodeKind::Parameter)
        .unwrap()
        .clone();
    let original = facts
        .cfg
        .nodes
        .iter()
        .find(|n| n.kind == CfgNodeKind::Return)
        .unwrap();
    let mut cfg = no_control_flow();
    // Isolate the product bound using distinct lowered CFG occurrences of
    // the same written return, without a large parser workload.
    for i in 0..=NODE_LIMIT {
        let mut exit = *original;
        exit.id = CfgNodeId::generate(&exit.function_id, "return_occurrence", i as u32);
        cfg.normal_exit_sources.push(exit.id);
        cfg.nodes.push(exit);
    }
    let mut nodes = vec![parameter.clone()];
    let mut diagnostics = vec![];
    assert_eq!(
        append_parameter_outputs(
            &facts.ctx,
            &cfg,
            NODE_LIMIT,
            &mut nodes,
            &mut diagnostics,
            &|| false
        ),
        Some(true)
    );
    assert_eq!(nodes.len(), NODE_LIMIT + 1);
    assert_eq!(diagnostics.len(), 1);
    assert!(starts_with(&diagnostics[0].message, "reference_exit_budget_exceeded:"));
    assert!(
        append_parameter_outputs(
            &facts.ctx,
            &cfg,
            NODE_LIMIT,
            &mut vec![parameter],
            &mut vec![],
            &|| true
        )
        .is_none()
    );
}

#[test]
fn reference_definitions_keep_their_separate_return_exits() {
    let source = "bool fill(int& output, bool choose) { if (choose) { output = 7; return true; } output = 9; return false; }\n";
    let facts = extract(source);
    let exits: Vec<_> = facts
        .nodes
        .iter()
        .filter(|n| n.kind == DataNodeKind::ParameterOutput)
        .collect();
    assert_eq!(
        exits.len(),
        2,
        "each recorded normal return keeps its definitions"
    );
    for (returned, write) in [
        ("return true;", "output = 7"),
        ("return false;", "output = 9"),
    ] {
        let exit = exits.iter().find(|n| written(source, n) == returned).unwrap();
        let sources: Vec<_> = facts
            .edges
            .iter()
            .filter(|e| e.target == exit.id && e.kind == DataFlowKind::Assign)
            .map(|e| facts.nodes.iter().find(|n| n.id == e.source).unwrap())
            .collect();
        assert_eq!(sources.len(), 1, "{returned}: {sources:?}");
        assert_eq!(
            sources[0].range.start_byte as usize,
            source.find(write).unwrap()
        );
    }
}

#[test]
fn reference_output_uses_normal_exit_definitions_in_full_extraction() {
    let source =
        "void store(int& output, int first, int last) { output = first; output = last; }\n";
    let facts = extract(source);
    let exits: Vec<_> = facts
        .nodes
        .iter()
        .filter(|n| n.kind == DataNodeKind::ParameterOutput)
        .collect();
    assert_eq!(exits.len(), 1);
    let exit = exits[0];
    assert_eq!(exit.arg_index, Some(0));
    let sources: Vec<_> = facts
        .edges
        .iter()
        .filter(|e| e.target == exit.id && e.kind == DataFlowKind::Assign)
        .map(|e| facts.nodes.iter().find(|n| n.id == e.source).unwrap())
        .collect();
    assert_eq!(sources.len(), 1, "{sources:#?}");
    assert_eq!(
        sources[0].range.start_byte as usize,
        source.rfind("output = last").unwrap()
    );
    assert_eq!(sources[0].binding_id, exit.binding_id);
}

#[test]
fn a_named_argument_of_a_call_gets_an_output_of_its_own() {
    let source = "void f(int value) { change(value); }";
    let mut facts = local_facts(source);
    let at = source.rfind("value").unwrap() as u32;
    let used = facts
        .nodes
        .iter()
        .find(|n| n.kind == DataNodeKind::VariableUse && n.range.start_byte == at)
        .unwrap()
        .clone();
    let mut argument = used.clone();
    argument.kind = DataNodeKind::CallArg;
    argument.id = DataNodeId::generate(&used.file_id, used.function_id, "call_arg", None, None, at);
    argument.arg_index = Some(0);
    argument.callsite_id = Some(CallsiteId::from_file_range(&used.file_id, at - 7, at + 6));
    facts.nodes.push(argument.clone());
    let before = facts.nodes.len();
    append(&facts.ctx, &mut facts.nodes);
    assert_eq!(facts.nodes.len(), before + 1);
    let output = &facts.nodes[before];
    assert_eq!(output.kind, DataNodeKind::CallOutput);
    assert_eq!(output.binding_id, used.binding_id);
    assert_eq!(output.callsite_id, argument.callsite_id);
    assert_eq!(output.arg_index, Some(0));
    assert_ne!(output.id, argument.id);
    let mut other = ExtractionCtx {
        tree: SyntaxTree::parse(source.as_bytes()).unwrap(),
        file_id: facts.ctx.file_id,
        language: Language::TypeScript,
    };
    let mut nodes = vec![used, argument];
    append(&other, &mut nodes);
    assert_eq!(nodes.len(), 2);
    other.language = Language::Cpp;
    append(&other, &mut nodes);
    assert_eq!(nodes.len(), 3);
}

/// The facts of a file, or of one function of it, with the arguments of calls and what
/// the calls may leave in them.
fn facts_with_calls(source: &str, only: Option<SymbolId>) -> Facts {
    let mut facts = local_facts(source);
    if let Some(function) = only {
        let kept: Vec<bool> =
            facts.nodes.iter().map(|n| n.function_id == Some(function)).collect();
        let mut keep = kept.iter();
        facts.nodes.retain(|_| *keep.next().unwrap());
        let mut keep = kept.iter();
        facts.keys.retain(|_| *keep.next().unwrap());
    }
    let tree = parse(source);
    let uses: Vec<DataNode> = facts
        .nodes
        .iter()
        .filter(|n| n.kind == DataNodeKind::VariableUse)
        .cloned()
        .collect();
    for used in uses {
        let at = tree
            .root_node()
            .descendant_for_byte_range(used.range.start_byte as usize, used.range.end_byte as usize)
            .unwrap();
        let Some(list) = at.parent().filter(|p| p.kind() == "argument_list") else {
            continue;
        };
        let call = list.parent().unwrap();
        let mut cursor = list.walk();
        let index = list.named_children(&mut cursor).position(|n| n == at).unwrap();
        let mut argument = used.clone();
        argument.kind = DataNodeKind::CallArg;
        argument.id = DataNodeId::generate(
            &used.file_id,
            used.function_id,
            DataNodeKind::CallArg.as_str(),
            None,
            None,
            used.range.start_byte,
        );
        argument.arg_index = Some(index as u32);
        argument.callsite_id = Some(CallsiteId::from_file_range(
            &used.file_id,
            call.start_byte() as u32,
            call.end_byte() as u32,
        ));
        facts.nodes.push(argument);
    }
    append(&facts.ctx, &mut facts.nodes);
    for i in facts.keys.len()..facts.nodes.len() {
        let same = facts.nodes[..facts.keys.len()]
            .iter()
            .position(|n| n.binding_id == facts.nodes[i].binding_id)
            .unwrap();
        facts.keys.push(facts.keys[same]);
    }
    let result = joined(&facts, &facts.cfg);
    assert!(!result.truncated);
    facts.edges.extend(result.edges);
    facts
}

#[test]
fn full_and_lazy_preserve_output_identity_separately_from_the_call_input() {
    let source = "void update(int&); int f(int first) { int value = first; update(value); return value; } int other(int input) { return input; }\n";
    let file = FileId::generate(b"flow.cpp");
    let function = SymbolId::generate(&file, "cpp", b"f", "function", None);
    let full = facts_with_calls(source, None);
    let lazy = facts_with_calls(source, Some(function));
    let outputs = |facts: &Facts| -> Vec<DataNode> {
        facts.nodes.iter().filter(|n| n.kind == DataNodeKind::CallOutput).cloned().collect()
    };
    assert_eq!(outputs(&full), outputs(&lazy));
    assert_eq!(outputs(&full).len(), 1);
    let output = outputs(&full).remove(0);
    assert_eq!(output.arg_index, Some(0));
    let arg = full
        .nodes
        .iter()
        .find(|n| n.callsite_id == output.callsite_id && n.kind == DataNodeKind::CallArg)
        .unwrap()
        .clone();
    assert_eq!(arg.kind, DataNodeKind::CallArg);
    for facts in [&full, &lazy] {
        assert!(facts.edges.iter().any(|e| e.source == output.id));
        assert!(!facts.edges.iter().any(|e| e.source == output.id && e.target == arg.id));
    }
    assert!(lazy.nodes.iter().all(|n| n.function_id == Some(function)));
}
