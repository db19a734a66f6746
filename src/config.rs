//! The options of the bookmark manager's commands.

use vstd::prelude::*;

verus! {

/// The command to run, with its options.
#[derive(Debug)]
pub struct Opts {
    pub cmd: Command,
}

/// The commands of the bookmark manager.
#[derive(Debug)]
pub enum Command {
    /// Add a bookmark to the bookmarks file.
    Add(Add),
    /// Search for a bookmark.
    Search(Search),
    /// List all tags.
    Tags(Tags),
}

/// Options of the add command.
#[derive(Debug)]
pub struct Add {
    /// Url to bookmark.
    pub url: String,
    /// Description of the url.
    pub description: String,
    /// Tags to group bookmarks.
    pub tags: Vec<String>,
    /// Whether to commit the bookmarks file when it is in a git repository.
    pub commit: bool,
}

/// Options of the search command.
#[derive(Debug)]
pub struct Search {
    /// Pattern to match against the url and description; none for a search
    /// on tags only.
    pub regex: Option<String>,
    /// Tags that every result must have (can be none).
    pub tags: Vec<String>,
}

/// Options of the tags command.
#[derive(Debug)]
pub struct Tags {
    /// List every tag on a line of its own.
    pub machine: bool,
}

} // verus!
