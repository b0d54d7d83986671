use vstd::prelude::*;

use crate::digest::{DirHash, FileHash};

verus! {

/// Whether an object still has to be written out by a save.
#[derive(Clone, Copy, PartialEq, Eq, Structural)]
pub enum ObjectState {
    /// Already stored; nothing to write.
    Existing,
    /// Created in this session; written by the next save.
    New,
}

/// Where a blob's bytes come from when it is saved.
#[derive(Clone)]
pub enum FileState {
    /// Already stored; nothing to write.
    Existing,
    /// Created in this session; the bytes are copied from this working-tree path.
    New(String),
}

/// A child reference inside a tree.
#[derive(Clone, Copy)]
pub enum Object {
    File(FileHash),
    Dir(DirHash),
}

impl Object {
    /// The digest bytes this reference carries.
    pub open spec fn digest(self) -> [u8; 20] {
        match self {
            Object::File(h) => h.0,
            Object::Dir(h) => h.0,
        }
    }

    pub fn get_dir(&self) -> (r: Option<DirHash>)
        ensures
            r == (match *self {
                Object::Dir(h) => Some(h),
                Object::File(_) => None::<DirHash>,
            }),
    {
        match self {
            Object::Dir(h) => Some(*h),
            Object::File(_) => None,
        }
    }
}

/// Stored file content: its metadata. The bytes live beside it in storage.
#[derive(Clone)]
pub struct FileObject {
    pub permissions: u32,
    pub state: FileState,
}

impl FileObject {
    /// A blob created in this session from the working-tree file at `path`.
    pub fn new(path: String) -> (r: FileObject)
        ensures
            r.permissions == 0,
            r.state == FileState::New(path),
    {
        FileObject { permissions: 0, state: FileState::New(path) }
    }
}

} // verus!
