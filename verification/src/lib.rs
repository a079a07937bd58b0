//! A terminal text editor core: file tree, layouts and matchers.
use vstd::prelude::*;

pub mod args;
pub mod border;
pub mod buffer;
pub mod config;
pub mod drawers;
pub mod entries;
pub mod file;
pub mod filesystem;
pub mod filetree;
pub mod finder;
pub mod folder;
pub mod geometry;
pub mod highlights;
pub mod home;
pub mod keys;
pub mod layout;
pub mod lines;
pub mod matcher;
pub mod panes;
pub mod preview;
pub mod slots;
pub mod text;
pub mod tree_walk;
pub mod utils;

verus! {

} // verus!
