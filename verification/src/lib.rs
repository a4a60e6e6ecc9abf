pub mod text;
pub mod token;
pub mod error;
pub mod ast;
pub mod lexer;
pub mod parser;
pub mod glob;
pub mod num;
pub mod shell;
pub mod arith;
pub mod fields;
pub mod variant;
pub mod braces;
pub mod words;
pub mod globbing;
pub mod builtins;
pub mod executor;
pub mod semantics;
pub mod input;
