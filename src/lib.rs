//! An interpreter for WebAssembly 1.0 binary modules: a byte-level decoder
//! and a stack-machine execution engine, both verified.

pub mod error;
pub mod leb128;
pub mod parser;
pub mod wasm;
