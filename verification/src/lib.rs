//! Limbo programming language front end for the Dis virtual machine.
//!
//! The lexer turns source text into tokens, the parser turns tokens into an
//! abstract syntax tree, and the symbol table resolves types and constants.

pub mod ast;
pub mod text;
pub mod token;
pub mod lexer;
pub mod parser;
pub mod symtab;
pub mod codegen;
pub mod writer;
pub mod includes;
