//! An interpreter for a small hierarchical command language.
//!
//! A script declares named nodes. Each node has parameters, a body of
//! statements and nested sub-nodes. A node is invoked by a path of names and
//! runs against one shared environment of string variables.
//!
//! The interpreter does no input or output. A run changes the environment
//! and records events; whoever drives it performs them: runs the shell
//! commands and prints the diagnostics.

pub mod acyclic;
pub mod ast;
pub mod env;
pub mod event;
pub mod exec;
pub mod invoke;
pub mod laws;
pub mod parse;
pub mod registry;
pub mod semantics;
pub mod seqs;
pub mod text;

pub use ast::CommandNode;
pub use ast::Condition;
pub use ast::Statement;
pub use env::Environment;
pub use event::Event;
pub use registry::Registry;
