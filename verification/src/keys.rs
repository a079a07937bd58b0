//! Keys of files and folders, and tree items.
use vstd::prelude::*;

verus! {

/// Key of a file in the filesystem store.
#[derive(Clone, Copy, PartialEq, Eq, Debug, Structural)]
pub struct FileKey(pub u64);

/// Key of a folder in the filesystem store.
#[derive(Clone, Copy, PartialEq, Eq, Debug, Structural)]
pub struct FolderKey(pub u64);

/// A filesystem item.
#[derive(Clone, Copy, PartialEq, Eq, Debug, Structural)]
pub enum Item {
    File(FileKey),
    Folder(FolderKey),
}

impl Item {
    pub fn from_file(key: FileKey) -> (item: Item)
        ensures
            item == Item::File(key),
    {
        Item::File(key)
    }

    pub fn from_folder(key: FolderKey) -> (item: Item)
        ensures
            item == Item::Folder(key),
    {
        Item::Folder(key)
    }

    /// Whether this item is the given file.
    pub fn is_file_key(&self, key: FileKey) -> (b: bool)
        ensures
            b == (*self == Item::File(key)),
    {
        match self {
            Item::File(k) => k.0 == key.0,
            Item::Folder(_) => false,
        }
    }

    /// Whether this item is the given folder.
    pub fn is_folder_key(&self, key: FolderKey) -> (b: bool)
        ensures
            b == (*self == Item::Folder(key)),
    {
        match self {
            Item::Folder(k) => k.0 == key.0,
            Item::File(_) => false,
        }
    }
}

} // verus!
