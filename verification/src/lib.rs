//! A library for reading and editing Obsidian vaults: note parsing,
//! link and tag indexing, search, and frontmatter editing.

pub mod kernel;
pub mod plugins;
