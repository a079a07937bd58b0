//! Folders of the file tree.
use vstd::prelude::*;
use crate::keys::{FileKey, FolderKey};
use crate::text::{file_name_of, owned, path_file_name};

verus! {

pub struct Folder {
    pub path: String,
    pub parent: Option<FolderKey>,
    pub name: String,
    pub child_files: Vec<FileKey>,
    pub child_folders: Vec<FolderKey>,
    /// Current open state in the tree view
    pub open: bool,
    /// Whether the folder has already been loaded once
    pub init: bool,
    /// Whether the folder is shown open because a descendant is peeked
    pub peeked: bool,
}

/// The names of the folders that are hidden by default.
pub open spec fn is_hidden_name(name: Seq<char>) -> bool {
    name == ".git"@ || name == ".venv"@ || name == "__pycache__"@
}

impl Folder {
    /// A fresh folder: named after the final component of its path, closed, not loaded,
    /// without children.
    pub fn new(path: String, parent: Option<FolderKey>) -> (f: Folder)
        ensures
            f.path@ == path@,
            f.parent == parent,
            f.name@ == file_name_of(path@),
            f.child_files@.len() == 0,
            f.child_folders@.len() == 0,
            !f.open,
            !f.init,
            !f.peeked,
    {
        let name = path_file_name(path.as_str());
        Folder {
            path,
            parent,
            name,
            child_files: Vec::new(),
            child_folders: Vec::new(),
            open: false,
            init: false,
            peeked: false,
        }
    }

    /// Whether the folder is one of those hidden by default (`.git`, `.venv`, `__pycache__`).
    pub fn hidden(&self) -> (b: bool)
        ensures
            b == is_hidden_name(self.name@),
    {
        let git = owned(".git");
        let venv = owned(".venv");
        let pycache = owned("__pycache__");
        self.name == git || self.name == venv || self.name == pycache
    }
}

} // verus!
