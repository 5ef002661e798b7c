//! # `yami` - Minimal, Zero-Copy YAML Parser
//!
//! `yami` parses YAML text into an abstract syntax tree whose scalars are
//! `&'a str` slices of the input: parsing allocates no string for a scalar.
//!
//! ## Core Types
//! - [`Yaml<'a>`]: any YAML node (`Scalar(&'a str)`, `Sequence(Vec<Yaml<'a>>)`, `Mapping(Vec<Entry<'a>>)`).
//! - [`Entry<'a>`]: a key-value pair inside a YAML mapping.
//! - [`YamlError`]: a parsing error with its kind and 1-indexed `(line, column)` position.
//!
//! Every parsing function is verified against a model of the grammar given
//! as spec functions: [`scanner::scan`] for lines, [`parser::flow`] for flow
//! collections, and [`parser::parse_document`] for the block structure.

pub mod ast;
pub mod error;
pub mod laws;
pub mod parser;
pub mod scanner;
pub mod text;

pub use ast::{Entry, Yaml};
pub use error::{ErrorKind, Position, Result, YamlError};
pub use parser::parse;
pub use scanner::{Line, Scanner};
