//! The string-command surface: raw `OPTYPE body;` splitting and the
//! operations built on it.

pub mod add;
pub mod common;
pub mod create;
pub mod find;
pub mod general;
pub mod migration;
pub mod mutation;
pub mod show;
