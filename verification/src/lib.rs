//! A small model of a POSIX-like shell front end: a tokenizer, pipeline and
//! redirection parsers, here-documents, a virtual working directory, shell
//! variables, filename globbing, command substitution and a process table.

pub mod text;
pub mod lexer;
pub mod parser;
pub mod state;
pub mod variables;
pub mod glob;
pub mod events;
pub mod substitution;
