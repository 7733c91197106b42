use vstd::prelude::*;

use super::vfs::{read_spec, DirNode, FileNode, FileOrDir, FsNodeInfos, ReadError, WriteError};
use crate::utils::{bytes_eq, find_nul, nul_from, str_from_utf8};
use vstd::string::StringSliceAdditionalSpecFns;
use vstd::utf8::valid_utf8;

verus! {

/// The size of a tar header block, and the unit data is padded to.
pub const TAR_BLOCK: usize = 512;

/// Where the fields of a tar header are, and their sizes.
pub const NAME_LEN: usize = 100;
pub const SIZE_OFFSET: usize = 124;
pub const SIZE_LEN: usize = 12;

/// The octal digits of `s` from `i`, as a number (all of them must be octal digits).
pub open spec fn octal_value(s: Seq<u8>) -> nat
    decreases s.len(),
{
    if s.len() == 0 {
        0
    } else {
        octal_value(s.drop_last()) * 8 + (s.last() - 0x30) as nat
    }
}

pub open spec fn is_octal_digit(c: u8) -> bool {
    0x30 <= c <= 0x37
}

/// The digits of a size field `f`: the bytes before its first NUL, without a leading `+`.
pub open spec fn size_digits(f: Seq<u8>) -> Seq<u8> {
    let s = f.subrange(0, nul_from(f, 0));
    if s.len() > 0 && s[0] == 0x2B {
        s.drop_first()
    } else {
        s
    }
}

/// The size field `f` holds a number: one octal digit at least, before its first NUL.
pub open spec fn size_field_ok(f: Seq<u8>) -> bool {
    let d = size_digits(f);
    d.len() > 0 && forall|i: int| 0 <= i < d.len() ==> is_octal_digit(#[trigger] d[i])
}

/// The size given by the header at `pos` in `d`.
pub open spec fn header_size(d: Seq<u8>, pos: int) -> nat {
    octal_value(size_digits(d.subrange(pos + SIZE_OFFSET, pos + SIZE_OFFSET + SIZE_LEN)))
}

/// The name given by the header at `pos` in `d`: the bytes before the first NUL.
pub open spec fn header_name(d: Seq<u8>, pos: int) -> Seq<u8> {
    let f = d.subrange(pos, pos + NAME_LEN);
    f.subrange(0, nul_from(f, 0))
}

/// `n` rounded up to a multiple of `TAR_BLOCK`.
pub open spec fn round_up(n: nat) -> nat {
    ((n + TAR_BLOCK - 1) / TAR_BLOCK as int * TAR_BLOCK) as nat
}

/// The archive `d` is well formed from `pos`: a header block, then either the end (a name
/// starting with NUL) or a file whose name ends with a NUL and is UTF-8, whose size is a number,
/// whose data fits, and then a well formed archive after its padded data.
pub open spec fn tar_ok(d: Seq<u8>, pos: int) -> bool
    decreases d.len() - pos,
{
    if pos < 0 || pos + TAR_BLOCK > d.len() {
        false
    } else if d[pos] == 0 {
        true
    } else {
        let f = d.subrange(pos, pos + NAME_LEN);
        let start = pos + TAR_BLOCK;
        let size = header_size(d, pos);
        &&& nul_from(f, 0) < NAME_LEN
        &&& valid_utf8(header_name(d, pos))
        &&& size_field_ok(d.subrange(pos + SIZE_OFFSET, pos + SIZE_OFFSET + SIZE_LEN))
        &&& start + size <= d.len()
        &&& if start + round_up(size) + TAR_BLOCK > d.len() {
            false
        } else {
            tar_ok(d, start + round_up(size))
        }
    }
}

/// The files of the archive `d` from `pos`: name, start of data and size.
pub open spec fn tar_entries(d: Seq<u8>, pos: int) -> Seq<(Seq<u8>, int, int)>
    decreases d.len() - pos,
{
    if pos < 0 || pos + TAR_BLOCK > d.len() || d[pos] == 0 {
        Seq::empty()
    } else {
        let start = pos + TAR_BLOCK;
        let size = header_size(d, pos);
        if start + round_up(size) + TAR_BLOCK > d.len() {
            seq![(header_name(d, pos), start, size as int)]
        } else {
            seq![(header_name(d, pos), start, size as int)] + tar_entries(d, start + round_up(size))
        }
    }
}

/// The size given by the size field `f`.
fn parse_size(f: &[u8]) -> (r: u64)
    requires
        f@.len() == SIZE_LEN,
        size_field_ok(f@),
    ensures
        r == octal_value(size_digits(f@)),
{
    let end = find_nul(f, 0);
    proof {
        crate::utils::lemma_nul_from(f@, 0);
    }
    let mut i: usize = 0;
    if end > 0 && f[0] == 0x2B {
        i = 1;
    }
    let ghost d = size_digits(f@);
    let ghost first = i;
    proof {
        assert(d =~= f@.subrange(first as int, end as int));
    }
    let mut v: u64 = 0;
    while i < end
        invariant
            first <= i <= end,
            end <= f@.len() == SIZE_LEN,
            d == f@.subrange(first as int, end as int),
            forall|k: int| 0 <= k < d.len() ==> is_octal_digit(#[trigger] d[k]),
            v == octal_value(d.subrange(0, i - first)),
            v < pow8(i - first),
            i - first <= SIZE_LEN,
        decreases end - i,
    {
        proof {
            assert(d.subrange(0, i + 1 - first).drop_last() =~= d.subrange(0, i - first));
            assert(d[i - first] == f@[i as int]);
            assert(is_octal_digit(d[i - first]));
            lemma_pow8(i - first);
        }
        v = v * 8 + (f[i] - 0x30) as u64;
        i += 1;
    }
    proof {
        assert(d.subrange(0, end - first) =~= d);
    }
    v
}

/// 8 to the power `n`.
spec fn pow8(n: int) -> int
    decreases n,
{
    if n <= 0 {
        1
    } else {
        8 * pow8(n - 1)
    }
}

proof fn lemma_pow8(n: int)
    requires
        0 <= n <= SIZE_LEN,
    ensures
        1 <= pow8(n) <= 0x10_0000_0000,
        pow8(n + 1) == 8 * pow8(n),
    decreases SIZE_LEN - n,
{
    lemma_pow8_pos(n);
    if n < SIZE_LEN {
        lemma_pow8(n + 1);
    } else {
        reveal_with_fuel(pow8, 13);
    }
}

proof fn lemma_pow8_pos(n: int)
    ensures
        pow8(n) >= 1,
    decreases n,
{
    if n > 0 {
        lemma_pow8_pos(n - 1);
    }
}

/// A file of the archive.
#[derive(Clone, Copy, Debug)]
pub struct Node<'a> {
    name: &'a str,
    data: &'a [u8],
}

impl<'a> Node<'a> {
    pub closed spec fn name_spec(&self) -> Seq<u8> {
        self.name.spec_bytes()
    }

    pub fn new(name: &'a str, data: &'a [u8]) -> (r: Self)
        ensures
            r.name_spec() == name.spec_bytes(),
            r.content() == data@,
    {
        Node { name, data }
    }

    pub fn infos(&self) -> (r: FsNodeInfos)
        ensures
            r.size == self.content().len(),
    {
        FsNodeInfos { size: self.data.len() }
    }
}

impl<'a> FileNode for Node<'a> {
    closed spec fn content(&self) -> Seq<u8> {
        self.data@
    }

    fn name(&self) -> (r: &str)
        ensures
            r.spec_bytes() == self.name_spec(),
    {
        self.name
    }

    fn size(&self) -> (r: usize) {
        self.data.len()
    }

    /// Every read succeeds.
    fn read(&self, offset: usize, len: usize) -> (r: Result<Vec<u8>, ReadError>)
        ensures
            r is Ok,
    {
        if offset >= self.data.len() {
            return Ok(Vec::new());
        }
        let to_read = if self.data.len() - offset < len {
            self.data.len() - offset
        } else {
            len
        };
        let mut out: Vec<u8> = Vec::new();
        let mut i: usize = 0;
        proof {
            assert(self.data@.len() == self.data.len());
        }
        while i < to_read
            invariant
                offset < self.data@.len(),
                self.data@.len() == self.data.len(),
                to_read <= self.data@.len() - offset,
                i <= to_read,
                out@ == self.data@.subrange(offset as int, offset + i),
            decreases to_read - i,
        {
            out.push(self.data[offset + i]);
            proof {
                assert(out@ =~= self.data@.subrange(offset as int, offset + i + 1));
            }
            i += 1;
        }
        Ok(out)
    }

    /// The archive is read only.
    fn write(&self, offset: usize, buff: &[u8]) -> (r: Result<usize, WriteError>)
        ensures
            r == Err::<usize, WriteError>(WriteError::ReadOnly),
    {
        Err(WriteError::ReadOnly)
    }
}

/// Whether the size field `f` holds a number (see `size_field_ok`).
fn size_field_valid(f: &[u8]) -> (r: bool)
    requires
        f@.len() == SIZE_LEN,
    ensures
        r == size_field_ok(f@),
{
    let end = find_nul(f, 0);
    proof {
        crate::utils::lemma_nul_from(f@, 0);
    }
    let mut i: usize = 0;
    if end > 0 && f[0] == 0x2B {
        i = 1;
    }
    let ghost d = size_digits(f@);
    let ghost first = i;
    proof {
        assert(d =~= f@.subrange(first as int, end as int));
    }
    if i >= end {
        assert(d.len() == 0);
        return false;
    }
    while i < end
        invariant
            first <= i <= end,
            end <= f@.len() == SIZE_LEN,
            d == f@.subrange(first as int, end as int),
            d == size_digits(f@),
            forall|k: int| 0 <= k < i - first ==> is_octal_digit(#[trigger] d[k]),
        decreases end - i,
    {
        if f[i] < 0x30 || f[i] > 0x37 {
            assert(!is_octal_digit(d[i - first]));
            return false;
        }
        assert(is_octal_digit(d[i - first]));
        i += 1;
    }
    true
}

/// Whether `data` is an archive that `FileSystem::new` takes (see `tar_ok`).
pub fn is_valid_archive(data: &[u8]) -> (r: bool)
    ensures
        r == tar_ok(data@, 0),
{
    let d = data;
    let mut pos: usize = 0;
    while true
        invariant
            d@ == data@,
            pos <= d@.len(),
            tar_ok(d@, 0) == tar_ok(d@, pos as int),
        decreases d@.len() - pos,
    {
        if d.len() < TAR_BLOCK || pos > d.len() - TAR_BLOCK {
            assert(!tar_ok(d@, pos as int));
            return false;
        }
        if d[pos] == 0 {
            return true;
        }
        let name_field = slice_range(d, pos, pos + NAME_LEN);
        let end = find_nul(name_field, 0);
        proof {
            assert(name_field@ =~= d@.subrange(pos as int, pos + NAME_LEN));
        }
        if end >= NAME_LEN {
            return false;
        }
        let name_bytes = slice_range(name_field, 0, end);
        proof {
            assert(name_field@ =~= d@.subrange(pos as int, pos + NAME_LEN));
            assert(name_bytes@ =~= header_name(d@, pos as int));
        }
        if str_from_utf8(name_bytes).is_none() {
            return false;
        }
        let size_field = slice_range(d, pos + SIZE_OFFSET, pos + SIZE_OFFSET + SIZE_LEN);
        if !size_field_valid(size_field) {
            return false;
        }
        let size = parse_size(size_field);
        let start = pos + TAR_BLOCK;
        if size > (d.len() - start) as u64 {
            return false;
        }
        let size = size as usize;
        if size > usize::MAX - TAR_BLOCK {
            return false;
        }
        let padded = if size % TAR_BLOCK == 0 {
            size
        } else {
            size + (TAR_BLOCK - size % TAR_BLOCK)
        };
        proof {
            assert(padded == round_up(size as nat));
        }
        if padded > d.len() - start || d.len() - start - padded < TAR_BLOCK {
            return false;
        }
        pos = start + padded;
    }
    false
}

/// An iterator over the files of an archive.
pub struct TarIterator<'a> {
    data: &'a [u8],
    pos: usize,
}

impl<'a> TarIterator<'a> {
    pub closed spec fn wf(&self) -> bool {
        tar_ok(self.data@, self.pos as int)
    }

    /// The files not yet returned: name, start of data and size.
    pub closed spec fn remaining(&self) -> Seq<(Seq<u8>, int, int)> {
        tar_entries(self.data@, self.pos as int)
    }

    pub closed spec fn data(&self) -> Seq<u8> {
        self.data@
    }

    pub fn new(data: &'a [u8]) -> (r: Self)
        requires
            tar_ok(data@, 0),
        ensures
            r.wf(),
            r.data() == data@,
            r.remaining() == tar_entries(data@, 0),
    {
        Self { data, pos: 0 }
    }

    /// The next file: its name and data.
    pub fn next(&mut self) -> (r: Option<(&'a str, &'a [u8])>)
        requires
            old(self).wf(),
        ensures
            final(self).wf(),
            final(self).data() == old(self).data(),
            old(self).remaining().len() == 0 ==> r is None && final(self).remaining().len() == 0,
            old(self).remaining().len() > 0 ==> ({
                let (name, start, size) = old(self).remaining()[0];
                &&& r matches Some((n, d))
                &&& n.spec_bytes() == name
                &&& d@ == old(self).data().subrange(start, start + size)
                &&& final(self).remaining() == old(self).remaining().drop_first()
            }),
    {
        let d = self.data;
        proof {
            assert(d@.len() == d.len());
        }
        if d[self.pos] == 0 {
            return None;
        }
        let pos = self.pos;
        let name_field = slice_range(d, pos, pos + NAME_LEN);
        let end = find_nul(name_field, 0);
        let name_bytes = slice_range(name_field, 0, end);
        proof {
            assert(name_field@ =~= d@.subrange(pos as int, pos + NAME_LEN));
            assert(name_bytes@ =~= header_name(d@, pos as int));
        }
        let name = str_from_utf8(name_bytes).unwrap();
        let size_field = slice_range(d, pos + SIZE_OFFSET, pos + SIZE_OFFSET + SIZE_LEN);
        let size = parse_size(size_field) as usize;
        let start = pos + TAR_BLOCK;
        let data = slice_range(d, start, start + size);
        let padded = if size % TAR_BLOCK == 0 {
            size
        } else {
            size + (TAR_BLOCK - size % TAR_BLOCK)
        };
        proof {
            assert(padded == round_up(size as nat));
        }
        self.pos = start + padded;
        Some((name, data))
    }
}

/// `d[from..to]`.
fn slice_range(d: &[u8], from: usize, to: usize) -> (r: &[u8])
    requires
        from <= to <= d@.len(),
    ensures
        r@ == d@.subrange(from as int, to as int),
{
    let (head, _) = d.split_at(to);
    let (_, piece) = head.split_at(from);
    piece
}

/// The files of an archive.
#[derive(Debug)]
pub struct FileSystem<'a> {
    files: Vec<Node<'a>>,
}

/// The first of `files` named `name`.
pub open spec fn first_named_file<'a>(files: Seq<Node<'a>>, name: Seq<u8>) -> Option<Node<'a>>
    decreases files.len(),
{
    if files.len() == 0 {
        None
    } else if files[0].name_spec() == name {
        Some(files[0])
    } else {
        first_named_file(files.drop_first(), name)
    }
}

impl<'a> FileSystem<'a> {
    pub closed spec fn files(&self) -> Seq<Node<'a>> {
        self.files@
    }

    /// The files of the archive `data`, in order.
    pub fn new(data: &'a [u8]) -> (r: Self)
        requires
            tar_ok(data@, 0),
        ensures
            r.files().len() == tar_entries(data@, 0).len(),
            forall|i: int|
                0 <= i < r.files().len() ==> {
                    let (name, start, size) = #[trigger] tar_entries(data@, 0)[i];
                    &&& r.files()[i].name_spec() == name
                    &&& r.files()[i].content() == data@.subrange(start, start + size)
                },
    {
        let mut it = TarIterator::new(data);
        let ghost all = tar_entries(data@, 0);
        let mut files: Vec<Node<'a>> = Vec::new();
        loop
            invariant
                it.wf(),
                it.data() == data@,
                files@.len() + it.remaining().len() == all.len(),
                it.remaining() == all.skip(files@.len() as int),
                forall|i: int|
                    0 <= i < files@.len() ==> {
                        let (name, start, size) = #[trigger] all[i];
                        &&& files@[i].name_spec() == name
                        &&& files@[i].content() == data@.subrange(start, start + size)
                    },
            ensures
                it.remaining().len() == 0,
                files@.len() == all.len(),
                forall|i: int|
                    0 <= i < files@.len() ==> {
                        let (name, start, size) = #[trigger] all[i];
                        &&& files@[i].name_spec() == name
                        &&& files@[i].content() == data@.subrange(start, start + size)
                    },
            decreases it.remaining().len(),
        {
            let ghost rem = it.remaining();
            match it.next() {
                None => {
                    break;
                },
                Some((name, d)) => {
                    proof {
                        assert(rem[0] == all[files@.len() as int]);
                        assert(all.skip(files@.len() as int + 1) =~= rem.drop_first());
                    }
                    files.push(Node::new(name, d));
                },
            }
        }
        FileSystem { files }
    }

    /// The root directory of the file system.
    pub fn root(&'a self) -> (r: RootNode<'a>)
        ensures
            r.fs_files() == self.files(),
    {
        RootNode { fs: self }
    }
}

/// The directory of all the files of an archive.
#[derive(Clone, Copy, Debug)]
pub struct RootNode<'a> {
    fs: &'a FileSystem<'a>,
}

impl<'a> RootNode<'a> {
    pub closed spec fn fs_files(&self) -> Seq<Node<'a>> {
        self.fs.files@
    }
}

impl<'a> DirNode for RootNode<'a> {
    type File = Node<'a>;

    closed spec fn find_spec(&self, name: Seq<u8>) -> Option<FileOrDir<Node<'a>, RootNode<'a>>> {
        match first_named_file(self.fs.files@, name) {
            Some(f) => Some(FileOrDir::File(f)),
            None => None,
        }
    }

    closed spec fn names(&self) -> Seq<Seq<u8>> {
        self.fs.files@.map_values(|f: Node<'a>| f.name_spec())
    }

    fn find(&self, name: &str) -> (r: Option<FileOrDir<Node<'a>, RootNode<'a>>>) {
        let files = &self.fs.files;
        let nb = name.as_bytes();
        let mut i: usize = 0;
        proof {
            assert(files@.skip(0) =~= files@);
        }
        while i < files.len()
            invariant
                i <= files@.len(),
                files@ == self.fs.files@,
                nb@ == name.spec_bytes(),
                first_named_file(files@, nb@) == first_named_file(files@.skip(i as int), nb@),
            decreases files@.len() - i,
        {
            let f = files[i];
            proof {
                assert(files@.skip(i as int)[0] == f);
                assert(files@.skip(i as int).drop_first() =~= files@.skip(i + 1));
            }
            if bytes_eq(f.name.as_bytes(), nb) {
                proof {
                    assert(f.name_spec() == nb@);
                    assert(first_named_file(files@.skip(i as int), nb@) == Some(f));
                    assert(first_named_file(self.fs.files@, name.spec_bytes()) == Some(f));
                }
                return Some(FileOrDir::File(f));
            }
            i += 1;
        }
        None
    }

    fn list(&self) -> (r: Vec<&str>) {
        let files = &self.fs.files;
        let mut names: Vec<&str> = Vec::new();
        let mut i: usize = 0;
        while i < files.len()
            invariant
                i <= files@.len(),
                names@.len() == i,
                forall|k: int| 0 <= k < i ==> (#[trigger] names@[k]).spec_bytes() == files@[k].name_spec(),
            decreases files@.len() - i,
        {
            names.push(files[i].name);
            i += 1;
        }
        proof {
            assert(names@.map_values(|n: &str| n.spec_bytes()) =~= self.names());
        }
        names
    }
}

} // verus!
