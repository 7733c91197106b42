use vstd::prelude::*;

use vstd::string::StringSliceAdditionalSpecFns;

verus! {

#[derive(Clone, Copy, Debug, PartialEq, Eq, Structural)]
pub enum OpenError {
    NotFound,
}

/// A read that failed. The files of the initial ramdisk never fail a read.
#[derive(Clone, Copy, Debug, PartialEq, Eq, Structural)]
pub enum ReadError {
    Unreadable,
}

#[derive(Clone, Copy, Debug, PartialEq, Eq, Structural)]
pub enum WriteError {
    ReadOnly,
}

/// What is known of a node without reading it.
#[derive(Clone, Copy, Debug, PartialEq, Eq, Structural)]
pub struct FsNodeInfos {
    pub size: usize,
}

/// The bytes `len` at most from `offset` in `content`.
pub open spec fn read_spec(content: Seq<u8>, offset: int, len: int) -> Seq<u8> {
    if offset >= content.len() {
        Seq::empty()
    } else if offset + len > content.len() {
        content.subrange(offset, content.len() as int)
    } else {
        content.subrange(offset, offset + len)
    }
}

/// A file: bytes that can be read, and maybe written.
pub trait FileNode: Sized {
    /// The content of the file.
    spec fn content(&self) -> Seq<u8>;

    /// The name of the file.
    fn name(&self) -> &str;

    /// Return the size of the file in bytes.
    fn size(&self) -> (r: usize)
        ensures
            r == self.content().len(),
    ;

    /// Read `len` bytes at most from `offset`, the offset from the start of the file; fewer at
    /// the end of the file, none past it.
    fn read(&self, offset: usize, len: usize) -> (r: Result<Vec<u8>, ReadError>)
        ensures
            r matches Ok(v) ==> v@ == read_spec(self.content(), offset as int, len as int),
    ;

    /// The size to read is `size`; see `read`.
    fn read_vec(&self, offset: usize, size: usize) -> (r: Result<Vec<u8>, ReadError>)
        ensures
            r matches Ok(v) ==> v@ == read_spec(self.content(), offset as int, size as int),
    {
        self.read(offset, size)
    }

    /// Read from `offset` to the end of the file.
    fn read_to_end_vec(&self, offset: usize) -> (r: Result<Vec<u8>, ReadError>)
        ensures
            r matches Ok(v) ==> v@ == read_spec(self.content(), offset as int, self.content().len() - offset),
            offset >= self.content().len() ==> (r matches Ok(v) && v@.len() == 0),
    {
        let size = self.size();
        if offset >= size {
            return Ok(Vec::new());
        }
        let to_read = size - offset;
        self.read_vec(offset, to_read)
    }

    /// Write `buff` from `offset`; returns how many bytes were written, or an error.
    fn write(&self, offset: usize, buff: &[u8]) -> (r: Result<usize, WriteError>);
}

/// A node: a file or a directory.
#[derive(Clone, Copy, Debug)]
pub enum FileOrDir<F, D> {
    File(F),
    Dir(D),
}

impl<F, D> FileOrDir<F, D> {
    pub fn as_file(self) -> (r: Option<F>)
        ensures
            r == match self {
                FileOrDir::File(f) => Some(f),
                FileOrDir::Dir(_) => None,
            },
    {
        match self {
            FileOrDir::File(f) => Some(f),
            FileOrDir::Dir(_) => None,
        }
    }
}

/// A directory: named nodes.
pub trait DirNode: Sized {
    type File;

    /// The node named `name` in the directory, if any.
    spec fn find_spec(&self, name: Seq<u8>) -> Option<FileOrDir<Self::File, Self>>;

    /// The names of the nodes of the directory.
    spec fn names(&self) -> Seq<Seq<u8>>;

    /// Find a file (or directory) with its `name`.
    fn find(&self, name: &str) -> (r: Option<FileOrDir<Self::File, Self>>)
        ensures
            r == self.find_spec(name.spec_bytes()),
    ;

    fn list(&self) -> (r: Vec<&str>)
        ensures
            r@.map_values(|n: &str| n.spec_bytes()) == self.names(),
    ;
}

} // verus!
