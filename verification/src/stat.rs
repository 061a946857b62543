//! Passive descriptor records for files and other kernel objects.

use vstd::prelude::*;

verus! {

/// Kind of object that a status record describes.
#[derive(Clone, Copy, Debug, PartialEq, Eq, Structural)]
pub enum FileType {
    Unused,
    Dir,
    File,
    Dev,
}

/// Status record of a file or object.
pub struct Stat {
    typ: FileType,
    dev: u32,
    ino: u64,
    nlink: u32,
    size: u64,
}

} // verus!
