//! An index over a vault of Markdown notes: metadata extraction, the cache
//! that mirrors the vault, and the queries answered from it.

pub mod commands;
pub mod database;
pub mod file_manager;
pub mod indexer;
pub mod numbers;
pub mod reconciler;
pub mod sorting;
pub mod text;
pub mod vault;
