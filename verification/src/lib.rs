//! Code relation extraction and architecture tooling for source trees.

pub mod analysis;
pub mod assets;
pub mod cache;
pub mod cli;
pub mod commands;
pub mod graph;
pub mod rank;
pub mod syntax;
pub mod text;
