//! Keeps a Python module's `__all__` declaration in step with the names the
//! module actually binds at top level.
//!
//! The work happens in two verified stages: a structural walk over a parsed
//! syntax tree collects the names bound at module scope, and a text splice
//! inserts or refreshes a sentinel-delimited `__all__` block in the source.
pub mod args;
pub mod py_ast;
pub mod name_parser;
pub mod parse;
pub mod add_all;
pub mod order;

pub use add_all::do_it_allways;
pub use args::Args;
pub use name_parser::NameParser;
pub use parse::ParseError;
