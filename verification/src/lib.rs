//! Storage core of a small embedded relational engine: a B+tree kept in
//! fixed-size pages, a buffer pool that caches those pages, and the page
//! store underneath; with it, the statement parser and the command
//! replies of the engine's shell.
//!
//! The tree is reached through `btree`: `find`, `insert`, `delete` and
//! `scan` on a `Btree`. `tree_spec` says what a well-formed tree is, and
//! `laws` holds what follows for sequences of operations.

pub mod btree;
pub mod chain;
pub mod delete;
pub mod descent;
pub mod error;
pub mod insert;
pub mod laws;
pub mod metacommand;
pub mod node;
pub mod node_io;
pub mod node_ops;
pub mod os_interface;
pub mod pager;
pub mod rebalance;
pub mod repl;
pub mod sql_parser;
pub mod tree_spec;
pub mod update;
pub mod validate;
