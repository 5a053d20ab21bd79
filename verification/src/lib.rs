//! A Brainfuck toolchain: tokenizer and parsers, several intermediate
//! representations with optimizing passes, two interpreters, a C emitter and
//! the binary encoding pieces of a WebAssembly module writer.

pub mod text;
pub mod parse;
pub mod instruction;
pub mod token;
pub mod ir;
pub mod utils;
pub mod interpreter;
pub mod interprinter;
pub mod opt;
pub mod ir_semantics;
pub mod nod_semantics;
pub mod nod_passes;
pub mod nod_rewrites;
pub mod offset_semantics;
pub mod flush_semantics;
pub mod optimize;
pub mod node_optimize;
pub mod optimize_new_node;
pub mod transcompile;
pub mod transpile;
