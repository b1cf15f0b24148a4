//! File and directory entries as recorded by a scan.

use vstd::prelude::*;

verus! {

/// Category of a file based on its type.
pub enum Category {
    Media(String),
    Game,
    Text,
    Unclassified,
}

/// Mathematical image of a [`Node`]: the same record with its text fields
/// abstracted to character sequences.
pub struct NodeView {
    pub name: Seq<char>,
    pub path: Seq<char>,
    pub size: u64,
    pub is_dir: bool,
    pub parent: Option<usize>,
}

/// Represents a file or directory node.
///
/// `parent` is the arena index of the containing directory; it is `None`
/// only for a root. The arena sets it on insertion.
pub struct Node {
    /// Name of the file or directory (final path component).
    pub name: String,
    /// Path to the file or directory; kept for the root and diagnostics.
    pub path: String,
    /// Size in bytes; `0` for directories.
    pub size: u64,
    /// Is this node a directory.
    pub is_dir: bool,
    /// Arena index of the immediate containing directory.
    pub parent: Option<usize>,
}

impl View for Node {
    type V = NodeView;

    open spec fn view(&self) -> NodeView {
        NodeView {
            name: self.name@,
            path: self.path@,
            size: self.size,
            is_dir: self.is_dir,
            parent: self.parent,
        }
    }
}

impl Default for Node {
    fn default() -> (n: Node)
        ensures
            n@.name.len() == 0,
            n@.path.len() == 0,
            n@.size == 0,
            !n@.is_dir,
            n@.parent is None,
    {
        Node {
            name: String::new(),
            path: String::new(),
            size: 0,
            is_dir: false,
            parent: None,
        }
    }
}

impl Node {
    /// Builds the node recorded for one directory entry: directories are
    /// recorded with size `0`, files with the length their metadata reports.
    pub fn from_entry(name: String, path: String, len: u64, is_dir: bool) -> (n: Node)
        ensures
            n@.name == name@,
            n@.path == path@,
            n@.size == if is_dir { 0u64 } else { len },
            n@.is_dir == is_dir,
            n@.parent is None,
    {
        Node {
            name,
            path,
            size: if is_dir { 0 } else { len },
            is_dir,
            parent: None,
        }
    }
}

} // verus!
