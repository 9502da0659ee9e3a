//! The file a table is written to.

use vstd::prelude::*;
use crate::status::Status;

verus! {

/// A file that takes bytes at its end.
pub trait WritableFile {
    /// Appends `data`; a status that is not ok means the bytes were not written.
    fn append(&mut self, data: &[u8]) -> Status;

    /// Pushes buffered bytes towards the storage.
    fn flush(&mut self) -> Status;
}

/// A file held in memory.
pub struct MemoryFile {
    contents: Vec<u8>,
}

impl MemoryFile {
    pub fn new() -> (r: Self)
        ensures
            r.contents_spec().len() == 0,
    {
        MemoryFile { contents: Vec::new() }
    }

    pub closed spec fn contents_spec(&self) -> Seq<u8> {
        self.contents@
    }

    /// Everything appended so far.
    pub fn contents(&self) -> (r: &Vec<u8>)
        ensures
            r@ == self.contents_spec(),
    {
        &self.contents
    }
}

impl WritableFile for MemoryFile {
    fn append(&mut self, data: &[u8]) -> Status {
        crate::coding::append_bytes(&mut self.contents, data);
        Status::new()
    }

    fn flush(&mut self) -> Status {
        Status::new()
    }
}

} // verus!
