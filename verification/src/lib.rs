//! The logic of a tool that vendors a shared agent harness into a project:
//! what each generated file should hold, how the pinned revision is read and
//! written, how credentials are found, and how a check compares trees.
pub mod text;
pub mod json;
pub mod names;
pub mod gitignore;
pub mod hooks;
pub mod generated;
pub mod env;
pub mod cli;
pub mod pin;
pub mod sync;
pub mod tree;
