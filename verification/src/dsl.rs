//! The pattern notation: its data model, its grammar and its parser.

pub mod composition;
pub mod dsl;
pub mod grammar;
pub mod parser;
pub mod reader;
pub mod writing;
