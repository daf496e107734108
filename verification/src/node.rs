//! Nodes of the vault as the library sees them: a path and what reading it gave.
use vstd::prelude::*;

use crate::text::{sort_by_insertion, sort_strings, text_before};

verus! {

/// A node and the result of reading it: `None` when the node could not be read.
#[derive(Debug)]
pub struct NodeContent {
    pub path: String,
    pub content: Option<String>,
}

impl NodeContent {
    /// The text of the node, if it could be read.
    pub open spec fn text(self) -> Option<Seq<char>> {
        match self.content {
            Some(c) => Some(c@),
            None => None,
        }
    }
}

/// A write that the library asks for: the node to write and its new content.
#[derive(Debug)]
pub struct NodeWrite {
    pub path: String,
    pub content: String,
}

/// Sorts the node paths that a directory walk found, as `list` returns them.
pub fn list(found: Vec<String>) -> (res: Vec<String>)
    ensures
        res.deep_view() == sort_by_insertion(found.deep_view(), text_before()),
{
    sort_strings(found)
}

/// The file name of a node: its path with the `.md` extension.
pub fn resolve_path(node_path: &str) -> (res: String)
    ensures
        res@ == node_path@ + ".md"@,
{
    let mut s = String::from_str(node_path);
    s.append(".md");
    s
}

} // verus!
