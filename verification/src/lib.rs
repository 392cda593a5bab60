//! Instructions for saving the configs of programs: what an instruction
//! is, how it is resolved into the paths of its groups, with what it
//! inherits from other instructions, and what is kept of instructions and
//! of the configs saved for them.
pub mod app;
pub mod commands;
pub mod entries;
pub mod error;
pub mod inclusion;
pub mod merge;
pub mod ordered;
pub mod settings;
pub mod store;
pub mod template;
pub mod text;
pub mod theorems;
pub mod util;
