//! The path wrapper and the open-options builder.
//!
//! Both are plain data: the path is a string, the options five flags. A
//! host binary reads the flags to open a real file; the in-memory file
//! needs neither.

use vstd::prelude::*;

use crate::traits::CPathTrait;

verus! {

/// A file-system path.
#[derive(Clone)]
pub struct CPath {
    path: String,
}

impl CPath {
    pub fn new(path: &str) -> (r: CPath)
        ensures
            r.path_spec() == path@,
    {
        let owned: String = path.to_string();
        proof {
            vstd::string::to_string_from_display_ensures_for_str(path, owned);
        }
        CPath { path: owned }
    }
}

impl CPathTrait for CPath {
    closed spec fn path_spec(&self) -> Seq<char> {
        self.path@
    }

    fn as_str(&self) -> (r: &str) {
        self.path.as_str()
    }
}

/// The mode a store file is opened with: read, write, append, truncate,
/// create. A host binary maps these onto its file system's open options.
#[derive(Clone)]
pub struct OpenFile {
    pub read: bool,
    pub write: bool,
    pub append: bool,
    pub truncate: bool,
    pub create: bool,
}

impl OpenFile {
    /// All flags off.
    pub fn new() -> (r: OpenFile)
        ensures
            !r.read && !r.write && !r.append && !r.truncate && !r.create,
    {
        OpenFile { read: false, write: false, append: false, truncate: false, create: false }
    }

    pub fn read(&mut self, read: bool)
        ensures
            *final(self) == (OpenFile { read, ..*old(self) }),
    {
        self.read = read;
    }

    pub fn write(&mut self, write: bool)
        ensures
            *final(self) == (OpenFile { write, ..*old(self) }),
    {
        self.write = write;
    }

    pub fn append(&mut self, append: bool)
        ensures
            *final(self) == (OpenFile { append, ..*old(self) }),
    {
        self.append = append;
    }

    pub fn truncate(&mut self, truncate: bool)
        ensures
            *final(self) == (OpenFile { truncate, ..*old(self) }),
    {
        self.truncate = truncate;
    }

    pub fn create(&mut self, create: bool)
        ensures
            *final(self) == (OpenFile { create, ..*old(self) }),
    {
        self.create = create;
    }

    /// All flags off again.
    pub fn reset(&mut self)
        ensures
            !final(self).read && !final(self).write && !final(self).append
                && !final(self).truncate && !final(self).create,
    {
        self.read = false;
        self.write = false;
        self.append = false;
        self.truncate = false;
        self.create = false;
    }
}

} // verus!
