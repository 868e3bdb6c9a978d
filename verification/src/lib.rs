//! An in-memory event-sourcing database with a small textual command
//! language.
//!
//! The command pipeline has four stages: the tokenizer turns raw input into
//! typed tokens, the parser builds an abstract syntax tree, the planner
//! lowers the tree into a sequence of primitive operations, and the engine
//! executes those operations against a schema catalog and per-(stream, key)
//! append-only event logs with dense versions and monotone timestamps.

pub mod ast;
pub mod db;
pub mod event;
pub mod mutation;
pub mod mutation_parser;
pub mod operation;
pub mod parser;
pub mod pipeline;
pub mod planner;
pub mod schema;
pub mod text;
pub mod tokenizer;
