//! WebAssembly output.

pub mod wasm_binary;
