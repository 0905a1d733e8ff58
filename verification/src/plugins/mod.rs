//! Note operations built on the kernel: frontmatter properties and tags,
//! tasks, daily notes, templates, links, files and batch edits.

pub mod frontmatter;
pub mod tags;
pub mod tasks;
pub mod files;
pub mod daily;
pub mod templates;
pub mod links;
pub mod misc;
pub mod batch;
pub mod bookmarks;
