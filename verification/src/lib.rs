//! Verun: a language of guarded state machines, and a verified interpreter for it.
pub mod ast;
pub mod value;
pub mod text;
pub mod error;
pub mod state;
pub mod semantics;
pub mod engine;
pub mod laws;
pub mod checks;
pub mod cli;
pub mod lexer;
pub mod parser;
pub mod statements;
pub mod transitions;
pub mod items;
pub mod run;
pub mod symbolic;
pub mod queries;
