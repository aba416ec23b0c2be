//! A small indentation-based configuration language: a lexer and parser that
//! turn source text into a tree of records, and a walker that checks a record
//! tree against a declared schema.

pub mod loc;
pub mod text;
pub mod input;

pub mod lexer;
pub mod grammar;
pub mod parser;
pub mod conf;
pub mod conf_text;
pub mod record_order;
pub mod display;
pub mod source;
pub mod parse_error;
pub mod walker_container;
pub mod walker_error;
pub mod error_order;
pub mod path;
pub mod error_msg;
pub mod walker;
pub mod walk;
pub mod schema;
pub mod laws;
