//! A note as the vault knows it.

use crate::parser::Frontmatter;
use vstd::prelude::*;

verus! {

/// A single note of the vault.
#[derive(Debug, Clone)]
pub struct Note {
    /// Relative path from the vault root.
    pub path: String,
    /// File name without extension.
    pub name: String,
    /// The front-matter fields.
    pub frontmatter: Frontmatter,
    /// The wikilinks found in the note.
    pub links: Vec<String>,
    /// The tags found in the front matter or inline.
    pub tags: Vec<String>,
}

/// An entry of the tree of files shown beside the notes.
#[derive(Debug)]
pub enum FileTreeNode {
    File { name: String, path: String, extension: String },
    Folder { name: String, path: String, children: Vec<FileTreeNode> },
}

} // verus!
