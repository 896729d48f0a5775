//! What an inode is.

use vstd::prelude::*;

verus! {

/// The kind of object that an inode stands for.
#[derive(Clone, Copy, Debug, PartialEq, Eq, Structural)]
pub enum InodeKind {
    File,
    Directory,
    Symlink,
}

} // verus!
