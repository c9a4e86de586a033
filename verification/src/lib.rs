//! Recording of TON / Tolk executions as CodeTracer traces.

pub mod accesses;
pub mod apart;
pub mod ast;
pub mod blocks;
pub mod brackets;
pub mod calls;
pub mod cells;
pub mod chars;
pub mod cli;
pub mod comparisons;
pub mod directives;
pub mod expr;
pub mod flow;
pub mod forms;
pub mod functions;
pub mod grammar;
pub mod interp;
pub mod laws;
pub mod layout;
pub mod literals;
pub mod loader;
pub mod log_text;
pub mod machine;
pub mod names;
pub mod nesting;
pub mod notes;
pub mod numbers;
pub mod numeral;
pub mod ops;
pub mod parser;
pub mod precedence;
pub mod records;
pub mod refusals;
pub mod replay;
pub mod rewrite;
pub mod runs;
pub mod sandbox;
pub mod scope;
pub mod semantics;
pub mod source_map;
pub mod sources;
pub mod splitting;
pub mod stack_tracker;
pub mod statement;
pub mod statements;
pub mod symbols;
pub mod syntax;
pub mod text;
pub mod tracer;
pub mod tvm;
pub mod value;
pub mod wellformed;
