//! A compiler for single arithmetic expressions: a lexer, a recursive-descent parser that
//! builds an abstract syntax tree, and a generator that lowers the tree to a stack-machine
//! program.
pub mod ast;
pub mod chars;
pub mod gen;
pub mod token;
