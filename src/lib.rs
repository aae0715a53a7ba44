//! A compiler and interpreter for Phronima, a small concatenative,
//! stack-oriented language. Source text is split into located tokens,
//! parsed into instructions, grouped into named functions, linked with its
//! imports and given resolved jump targets; the result is either run on an
//! abstract stack machine or compiled to Brainfuck.
pub mod blocks;
pub mod codegen;
pub mod error;
pub mod instr;
pub mod lexer;
pub mod parser;
pub mod pipeline;
pub mod program;
pub mod sim;
pub mod structure;
pub mod text;

pub use blocks::create_references_for_blocks;
pub use codegen::compile_program;
pub use error::PhronError;
pub use instr::Function;
pub use lexer::{tokenize_line, tokenize_source_code, Lexer, Token};
pub use parser::parse_tokens;
pub use pipeline::{compile_program_from_source, load_module};
pub use program::Program;
pub use sim::{simulate_program, Emit, Machine, Stack};
pub use structure::parse_program_structure;
