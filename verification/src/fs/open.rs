use vstd::prelude::*;

use super::mount::{get_mountpoint, longest_prefix, paths_of, MountTable};
use super::path::{split_around, split_seq, Path, SEPARATOR};
use super::vfs::{DirNode, FileOrDir};
use crate::error::{Error, FsError};
use vstd::string::StringSliceAdditionalSpecFns;

verus! {

/// The node reached from `node` through the names `parts`, in order: each but the last must
/// name a directory.
pub open spec fn walk<D: DirNode>(node: FileOrDir<D::File, D>, parts: Seq<Seq<u8>>) -> Option<
    FileOrDir<D::File, D>,
>
    decreases parts.len(),
{
    if parts.len() == 0 {
        Some(node)
    } else {
        match node {
            FileOrDir::Dir(d) => match d.find_spec(parts[0]) {
                Some(n) => walk(n, parts.drop_first()),
                None => None,
            },
            FileOrDir::File(_) => None,
        }
    }
}

/// The mount point of `path` in `table`, if any: its index.
pub open spec fn mount_of<N>(table: Seq<super::mount::MountPoint<N>>, path: Seq<u8>) -> Option<int> {
    longest_prefix(paths_of(table), path)
}

/// `path` can be opened: it is absolute, and its mount point path, if any, is followed by a `/`
/// in it.
pub open spec fn can_open<N>(table: Seq<super::mount::MountPoint<N>>, path: Seq<u8>) -> bool {
    &&& path.len() > 0 && path[0] == SEPARATOR
    &&& mount_of(table, path) matches Some(i) ==> ({
        let n = table[i].path.spec_bytes().len();
        n < path.len() && path[n as int] == SEPARATOR
    })
}

/// The node at `path` in the mount points `table`: found from its mount point through the
/// names that follow it in the path; `None` if no mount point holds it or a name is not found.
pub open spec fn open_spec<D: DirNode>(table: Seq<super::mount::MountPoint<FileOrDir<D::File, D>>>, path: Seq<u8>) -> Option<
    FileOrDir<D::File, D>,
> {
    match mount_of(table, path) {
        None => None,
        Some(i) => {
            let n = table[i].path.spec_bytes().len() as int;
            walk(table[i].node, split_seq(path.subrange(n + 1, path.len() as int)))
        },
    }
}

/// The node at `path`: found from its mount point through the names that follow it in the
/// path; `None` if no mount point holds it or a name is not found.
pub fn open<D: DirNode + Copy>(table: &MountTable<FileOrDir<D::File, D>>, path: &str) -> (r: Option<FileOrDir<D::File, D>>)
    where
        D::File: Copy,
    requires
        can_open(table@, path.spec_bytes()),
    ensures
        r == open_spec(table@, path.spec_bytes()),
{
    let mountpoint = match get_mountpoint(table, path) {
        Some(m) => m,
        None => return None,
    };
    let n = mountpoint.path.as_bytes().len();
    let ghost pb = path.spec_bytes();
    let (_, rest) = split_around(path, n);
    let parts = Path::new(rest).components();
    let mut current = mountpoint.node;
    let ghost all = split_seq(rest.spec_bytes());
    let mut k: usize = 0;
    let ghost mi = mount_of(table@, pb).unwrap();
    proof {
        assert(all.skip(0) =~= all);
        assert(table@[mi] == mountpoint);
    }
    while k < parts.len()
        invariant
            mount_of(table@, pb) == Some(mi),
            pb == path.spec_bytes(),
            table@[mi].node == mountpoint.node,
            table@[mi].path.spec_bytes().len() == n,
            all == split_seq(pb.subrange(n + 1, pb.len() as int)),
            k <= parts@.len(),
            parts@.map_values(|c: &str| c.spec_bytes()) == all,
            walk(mountpoint.node, all) == walk(current, all.skip(k as int)),
        decreases parts@.len() - k,
    {
        proof {
            assert(all.skip(k as int)[0] == parts@[k as int].spec_bytes());
            assert(all.skip(k as int).drop_first() =~= all.skip(k + 1));
        }
        match current {
            FileOrDir::Dir(dir) => {
                match dir.find(parts[k]) {
                    Some(next) => {
                        current = next;
                    },
                    None => return None,
                }
            },
            FileOrDir::File(_) => return None,
        }
        k += 1;
    }
    proof {
        assert(all.skip(k as int).len() == 0);
    }
    Some(current)
}

/// The node at `path`, as `open` finds it; `NotFound` when there is none.
pub fn get_node<D: DirNode + Copy>(table: &MountTable<FileOrDir<D::File, D>>, path: &str) -> (r: Result<
    FileOrDir<D::File, D>,
    Error,
>)
    where
        D::File: Copy,
    requires
        can_open(table@, path.spec_bytes()),
    ensures
        match open_spec(table@, path.spec_bytes()) {
            None => r matches Err(e) && e == Error::Fs(FsError::NotFound),
            Some(n) => r matches Ok(m) && m == n,
        },
{
    match open(table, path) {
        Some(n) => Ok(n),
        None => Err(Error::Fs(FsError::NotFound)),
    }
}

} // verus!
