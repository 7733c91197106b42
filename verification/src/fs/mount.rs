use vstd::prelude::*;

use crate::error::{Error, FsError};
use crate::utils::{bytes_eq, bytes_starts_with};
use vstd::string::StringSliceAdditionalSpecFns;

verus! {

/// Whether `a` comes strictly before `b` in the byte-wise lexicographic order.
pub open spec fn lex_lt(a: Seq<u8>, b: Seq<u8>) -> bool
    decreases a.len(),
{
    if a.len() == 0 {
        b.len() > 0
    } else if b.len() == 0 {
        false
    } else if a[0] != b[0] {
        a[0] < b[0]
    } else {
        lex_lt(a.drop_first(), b.drop_first())
    }
}

/// The lexicographic order is a strict total order.
pub proof fn lemma_lex_total(a: Seq<u8>, b: Seq<u8>)
    ensures
        a == b || lex_lt(a, b) || lex_lt(b, a),
        !(lex_lt(a, b) && lex_lt(b, a)),
        !lex_lt(a, a),
    decreases a.len(),
{
    if a.len() > 0 && b.len() > 0 {
        lemma_lex_total(a.drop_first(), b.drop_first());
        lemma_lex_total(a.drop_first(), a.drop_first());
        if a[0] == b[0] && a.drop_first() == b.drop_first() {
            assert(a.len() == b.len());
            assert forall|k: int| 0 <= k < a.len() implies a[k] == b[k] by {
                if k > 0 {
                    assert(a[k] == a.drop_first()[k - 1]);
                    assert(b[k] == b.drop_first()[k - 1]);
                }
            }
            assert(a =~= b);
        }
    } else if a.len() > 0 {
        lemma_lex_total(a.drop_first(), a.drop_first());
    } else if b.len() == 0 {
        assert(a =~= b);
    }
}

pub proof fn lemma_lex_trans(a: Seq<u8>, b: Seq<u8>, c: Seq<u8>)
    requires
        lex_lt(a, b),
        lex_lt(b, c),
    ensures
        lex_lt(a, c),
    decreases a.len(),
{
    if a.len() > 0 && b.len() > 0 && c.len() > 0 && a[0] == b[0] && b[0] == c[0] {
        lemma_lex_trans(a.drop_first(), b.drop_first(), c.drop_first());
    }
}

/// Whether `a` comes strictly before `b`, by bytes.
pub fn bytes_lt(a: &[u8], b: &[u8]) -> (r: bool)
    ensures
        r == lex_lt(a@, b@),
{
    let mut i: usize = 0;
    proof {
        assert(a@.skip(0) =~= a@);
        assert(b@.skip(0) =~= b@);
    }
    while i < a.len() && i < b.len() && a[i] == b[i]
        invariant
            i <= a@.len(),
            i <= b@.len(),
            lex_lt(a@, b@) == lex_lt(a@.skip(i as int), b@.skip(i as int)),
        decreases a@.len() - i,
    {
        proof {
            assert(a@.skip(i as int).drop_first() =~= a@.skip(i + 1));
            assert(b@.skip(i as int).drop_first() =~= b@.skip(i + 1));
        }
        i += 1;
    }
    if i == a.len() {
        i < b.len()
    } else if i == b.len() {
        false
    } else {
        a[i] < b[i]
    }
}

/// How many paths at the front of `ps` come before `p`.
pub open spec fn lt_prefix(ps: Seq<Seq<u8>>, p: Seq<u8>) -> nat
    decreases ps.len(),
{
    if ps.len() == 0 {
        0
    } else if lex_lt(ps[0], p) {
        1 + lt_prefix(ps.drop_first(), p)
    } else {
        0
    }
}

proof fn lemma_lt_prefix(ps: Seq<Seq<u8>>, p: Seq<u8>, k: int)
    requires
        0 <= k <= ps.len(),
        forall|j: int| 0 <= j < k ==> lex_lt(#[trigger] ps[j], p),
        k < ps.len() ==> !lex_lt(ps[k], p),
    ensures
        lt_prefix(ps, p) == k,
    decreases ps.len(),
{
    if k > 0 {
        assert forall|j: int| 0 <= j < k - 1 implies lex_lt(#[trigger] ps.drop_first()[j], p) by {
            assert(ps.drop_first()[j] == ps[j + 1]);
        }
        lemma_lt_prefix(ps.drop_first(), p, k - 1);
    }
}

/// A file system node mounted at `path`.
#[derive(Clone, Copy, Debug)]
pub struct MountPoint<N> {
    pub path: &'static str,
    pub node: N,
}

/// The mount points, sorted by path.
pub struct MountTable<N> {
    points: Vec<MountPoint<N>>,
}

/// The mount paths, as bytes, of `points`.
pub open spec fn paths_of<N>(points: Seq<MountPoint<N>>) -> Seq<Seq<u8>> {
    points.map_values(|m: MountPoint<N>| m.path.spec_bytes())
}

/// The index of the mount point to use for `path` among `paths`: the longest that `path`
/// starts with, the first of them if several are as long.
pub open spec fn longest_prefix(paths: Seq<Seq<u8>>, path: Seq<u8>) -> Option<int>
    decreases paths.len(),
{
    if paths.len() == 0 {
        None
    } else {
        let i = paths.len() - 1;
        let best = longest_prefix(paths.drop_last(), path);
        let p = paths[i];
        if p.len() <= path.len() && path.subrange(0, p.len() as int) == p && (best is None || p.len()
            > paths[best.unwrap()].len()) {
            Some(i)
        } else {
            best
        }
    }
}

impl<N: Copy> MountTable<N> {
    pub closed spec fn view(&self) -> Seq<MountPoint<N>> {
        self.points@
    }

    /// The paths are sorted and each is mounted once.
    pub open spec fn wf(&self) -> bool {
        forall|i: int, j: int| 0 <= i < j < self@.len() ==> lex_lt(paths_of(self@)[i], paths_of(self@)[j])
    }

    pub fn new() -> (r: Self)
        ensures
            r@.len() == 0,
            r.wf(),
    {
        MountTable { points: Vec::new() }
    }
}

/// Mount `node` at `path`, keeping the mount points sorted by path. Nothing may be mounted at
/// `path` yet.
pub fn mount<N: Copy>(table: &mut MountTable<N>, path: &'static str, node: N)
    requires
        old(table).wf(),
        !paths_of(old(table)@).contains(path.spec_bytes()),
    ensures
        final(table).wf(),
        final(table)@ == old(table)@.insert(
            lt_prefix(paths_of(old(table)@), path.spec_bytes()) as int,
            MountPoint { path, node },
        ),
{
    let ghost ps = paths_of(table@);
    let pb = path.as_bytes();
    let mut i: usize = 0;
    while i < table.points.len() && bytes_lt(table.points[i].path.as_bytes(), pb)
        invariant
            i <= table@.len(),
            ps == paths_of(table@),
            table.wf(),
            pb@ == path.spec_bytes(),
            forall|k: int| 0 <= k < i ==> lex_lt(#[trigger] ps[k], path.spec_bytes()),
        decreases table@.len() - i,
    {
        i += 1;
    }
    proof {
        assert forall|k: int| i <= k < ps.len() implies lex_lt(path.spec_bytes(), #[trigger] ps[k]) by {
            lemma_lex_total(ps[i as int], path.spec_bytes());
            assert(ps[i as int] != path.spec_bytes());
            if k > i {
                lemma_lex_trans(path.spec_bytes(), ps[i as int], ps[k]);
            }
        }
        lemma_lt_prefix(ps, path.spec_bytes(), i as int);
    }
    table.points.insert(i, MountPoint { path, node });
    proof {
        let nps = paths_of(table@);
        assert(nps =~= ps.insert(i as int, path.spec_bytes()));
        assert forall|a: int, b: int| 0 <= a < b < table@.len() implies lex_lt(nps[a], nps[b]) by {
            if b < i {
            } else if a < i && b == i {
            } else if a < i {
                lemma_lex_trans(ps[a], path.spec_bytes(), ps[b - 1]);
            } else if a == i {
            } else {
            }
        }
    }
}

/// Whether something is mounted at `path`.
pub fn is_mounted<N: Copy>(table: &MountTable<N>, path: &str) -> (r: bool)
    ensures
        r == paths_of(table@).contains(path.spec_bytes()),
{
    let pb = path.as_bytes();
    let mut i: usize = 0;
    while i < table.points.len()
        invariant
            i <= table@.len(),
            pb@ == path.spec_bytes(),
            forall|k: int| 0 <= k < i ==> paths_of(table@)[k] != path.spec_bytes(),
        decreases table@.len() - i,
    {
        if bytes_eq(table.points[i].path.as_bytes(), pb) {
            proof {
                assert(paths_of(table@)[i as int] == path.spec_bytes());
            }
            return true;
        }
        i += 1;
    }
    false
}

/// Mount `node` at `path` as `mount` does; an error, with the table left as it is, if
/// something is mounted there already.
pub fn mount_node<N: Copy>(table: &mut MountTable<N>, path: &'static str, node: N) -> (r: Result<(), Error>)
    requires
        old(table).wf(),
    ensures
        final(table).wf(),
        paths_of(old(table)@).contains(path.spec_bytes()) ==> (r matches Err(e) && e == Error::Fs(
            FsError::CustomStr("Already mounted"),
        )) && final(table)@ == old(table)@,
        !paths_of(old(table)@).contains(path.spec_bytes()) ==> r is Ok && final(table)@ == old(table)@.insert(
            lt_prefix(paths_of(old(table)@), path.spec_bytes()) as int,
            MountPoint { path, node },
        ),
{
    if is_mounted(table, path) {
        return Err(Error::Fs(FsError::CustomStr("Already mounted")));
    }
    mount(table, path, node);
    Ok(())
}

/// The mount point `path` is in: the longest mount path it starts with.
pub fn get_mountpoint<N: Copy>(table: &MountTable<N>, path: &str) -> (r: Option<MountPoint<N>>)
    ensures
        r == match longest_prefix(paths_of(table@), path.spec_bytes()) {
            Some(i) => Some(table@[i]),
            None => None,
        },
{
    let pb = path.as_bytes();
    let ghost ps = paths_of(table@);
    let mut best: Option<usize> = None;
    let mut i: usize = 0;
    while i < table.points.len()
        invariant
            i <= table@.len(),
            ps == paths_of(table@),
            pb@ == path.spec_bytes(),
            match best {
                Some(b) => longest_prefix(ps.take(i as int), pb@) == Some(b as int) && b < i,
                None => longest_prefix(ps.take(i as int), pb@) is None,
            },
        decreases table@.len() - i,
    {
        let mp = table.points[i].path.as_bytes();
        proof {
            assert(ps.take(i + 1).drop_last() =~= ps.take(i as int));
            assert(ps.take(i + 1)[i as int] == mp@);
            if let Some(b) = best {
                assert(ps.take(i + 1)[b as int] == ps.take(i as int)[b as int]);
            }
        }
        if bytes_starts_with(pb, mp) {
            match best {
                Some(b) => {
                    if mp.len() > table.points[b].path.as_bytes().len() {
                        best = Some(i);
                    }
                },
                None => {
                    best = Some(i);
                },
            }
        }
        i += 1;
    }
    proof {
        assert(ps.take(i as int) =~= ps);
    }
    match best {
        Some(b) => Some(table.points[b]),
        None => None,
    }
}

} // verus!
