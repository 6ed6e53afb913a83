//! Pedantic reordering of Nix source code.

pub mod bytes;
pub mod parser;
pub mod syntax;
pub mod semantic;
pub mod error;
pub mod tomlv;
pub mod glob;
pub mod config;
pub mod schema;
pub mod strings;
pub mod load;
pub mod layout;
pub mod sort;
pub mod names;
pub mod merge;
pub mod flatten;
pub mod spacing;
pub mod pipeline;
