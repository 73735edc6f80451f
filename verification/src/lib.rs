pub mod call_outputs;
pub mod call_results;
pub mod cfg_graph;
pub mod collections;
pub mod cpp_annotation_sites;
pub mod cpp_annotations;
pub mod cpp_callables;
pub mod cpp_dataflow;
pub mod cpp_declarations;
pub mod cpp_expressions;
pub mod cpp_facts;
pub mod cpp_file_types;
pub mod cpp_initialization;
pub mod cpp_lambdas;
pub mod cpp_member_macros;
pub mod cpp_names;
pub mod cpp_references;
pub mod cpp_signatures;
pub mod cpp_symbols;
pub mod cpp_templates;
pub mod cpp_tokens;
pub mod cpp_types;
pub mod extraction_ctx;
pub mod facts;
pub mod ids;
pub mod query_helpers;
pub mod reaching_defs;
pub mod store;
pub mod symbol_registry;
pub mod syntax;
pub mod text;
pub mod token_laws;
pub mod trace;
pub mod use_def_laws;
