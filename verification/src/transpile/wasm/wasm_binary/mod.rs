//! The pieces of the WebAssembly binary format: LEB128 numbers, types and sections.

pub mod leb128;
pub mod type_;
pub mod code;
pub mod section;
