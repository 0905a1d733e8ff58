//! Core modules: text helpers, paths, notes, the vault index, search and output.

pub mod text;
pub mod markdown;
pub mod note;
pub mod paths;
pub mod yaml;
pub mod index;
pub mod config;
pub mod error;
pub mod vault;
pub mod fs;
pub mod output;
pub mod pattern;
pub mod clock;
pub mod order;
pub mod search;
