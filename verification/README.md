# atlas-engine

The decision logic of a code atlas for C++: what is recorded of a source file, and how
a value is traced back through what was recorded. The library is written and proved in
Verus; every public function states in its contract what it returns.

## The library (`src/`)

* `syntax`, `text`, `collections`, `ids`, `facts`, `cpp_facts` - the models: a syntax
  tree as a table of nodes, texts as byte strings, ordered sets and maps of identities,
  and the recorded facts.
* `cpp_tokens`, `token_laws`, `cpp_annotations`, `cpp_annotation_sites`,
  `cpp_member_macros` - tokens, macro definitions, and the annotations and members that
  they make.
* `cpp_initialization` - declarations that a parser took for functions are read again as
  initializations.
* `cpp_names`, `cpp_types`, `cpp_declarations`, `cpp_callables`, `cpp_lambdas`,
  `cpp_templates`, `cpp_signatures`, `cpp_symbols`, `cpp_references`, `cpp_expressions`,
  `cpp_dataflow`, `cpp_file_types` - what a C++ file declares, refers to and moves.
* `symbol_registry`, `extraction_ctx`, `call_results`, `call_outputs`, `reaching_defs`,
  `use_def_laws` - which function a fact belongs to, what calls give back, and which
  definitions reach a use.
* `cfg_graph` - control-flow graphs and the branches that a place requires.
* `store`, `trace` - the recorded facts as a snapshot, and backward traces over it.
* `query_helpers` - queries against a grammar, and a bounded store of compiled ones.

Only the functions that call the parser, and the one that shares a text, are trusted. Their doc
comments say which function of which crate they call, and what is claimed of it.

## Around it (`app/`)

The SQLite database and its JSON, files, compiled query programs, and the display of
traces.
