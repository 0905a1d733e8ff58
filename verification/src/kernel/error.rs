//! Errors of vault operations.

use vstd::prelude::*;

verus! {

/// What can go wrong in a vault operation. Each variant carries the text
/// it is reported with (a path, a name, or a line number).
#[derive(Debug, Clone)]
pub enum Error {
    /// The path has no `.obsidian` directory.
    NotAVault(String),
    /// No note matches the given path or name.
    NoteNotFound(String),
    /// The vault has no templates directory (the vault root is given).
    NoTemplatesDir(String),
    /// No template matches the given name.
    TemplateNotFound(String),
    /// A line number outside the note.
    InvalidLineNumber(usize),
    /// The line is not a task.
    NotATask(usize),
    /// A regular expression that does not compile (its error text).
    InvalidPattern(String),
    /// A `key=value` argument without `=`.
    InvalidProperty(String),
    /// The destination path already exists.
    DestinationExists(String),
    /// The note path already exists.
    NoteExists(String),
    /// A path without a parent directory.
    NoParentDir,
}

} // verus!
