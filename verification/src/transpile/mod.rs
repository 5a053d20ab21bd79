//! Translating programs to other targets.

pub mod wasm;
