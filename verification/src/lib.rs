//! A small interactive stack-language interpreter: a lexer that turns a line
//! of input into tokens, a code generator that compiles tokens into bytecode
//! instructions, and a virtual machine that executes those instructions
//! against a persistent operand stack and a table of user-defined words.

pub mod num;
pub mod value;
pub mod lexer;
pub mod codegen;
pub mod vm;
pub mod laws;
