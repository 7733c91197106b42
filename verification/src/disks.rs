use vstd::prelude::*;

use crate::error::Error;

verus! {

/// A read of the blocks from `block_off` into `buff`, whose length is a multiple of the block
/// size.
pub struct ReadCommand {
    pub block_off: usize,
    pub buff: Vec<u8>,
}

/// A write of `buff` to the blocks from `block_off`; its length is a multiple of the block
/// size.
pub struct WriteCommand {
    pub block_off: usize,
    pub buff: Vec<u8>,
}

#[derive(Clone, Copy, Debug, PartialEq, Eq, Structural)]
pub enum DiskKind {
    /// An NVMe namespace, by id.
    NVMe(usize),
    /// A disk held in memory.
    Ram,
}

/// The bytes of `content` that the blocks from `block_off` hold, `len` of them, for blocks of
/// `bs` bytes.
pub open spec fn blocks_at(content: Seq<u8>, bs: int, block_off: int, len: int) -> Seq<u8> {
    content.subrange(block_off * bs, block_off * bs + len)
}

/// A disk: blocks of a fixed size, read and written by commands. Drivers implement it.
pub trait Disk {
    /// The bytes of the disk.
    spec fn content(&self) -> Seq<u8>;

    spec fn spec_block_size(&self) -> nat;

    fn block_size(&self) -> (r: usize)
        ensures
            r == self.spec_block_size(),
    ;

    fn block_count(&self) -> (r: usize)
        ensures
            r * self.spec_block_size() == self.content().len(),
    ;

    fn kind(&self) -> DiskKind;

    /// `e` is an error a read of this disk reports.
    spec fn fails_with(&self, e: Error) -> bool;

    /// Run the read commands `cmds`: the buffer of each receives the bytes of the blocks it
    /// starts at.
    fn read(&self, cmds: &mut Vec<ReadCommand>) -> (r: Result<(), Error>)
        requires
            forall|i: int|
                0 <= i < old(cmds)@.len() ==> (#[trigger] old(cmds)@[i]).block_off * self.spec_block_size()
                    + old(cmds)@[i].buff@.len() <= self.content().len(),
        ensures
            r matches Err(e) ==> self.fails_with(e),
            r is Ok ==> final(cmds)@.len() == old(cmds)@.len() && forall|i: int|
                0 <= i < old(cmds)@.len() ==> {
                    &&& (#[trigger] final(cmds)@[i]).block_off == old(cmds)@[i].block_off
                    &&& final(cmds)@[i].buff@ == blocks_at(
                        self.content(),
                        self.spec_block_size() as int,
                        old(cmds)@[i].block_off as int,
                        old(cmds)@[i].buff@.len() as int,
                    )
                },
    ;

    /// Run the write commands `cmds`.
    fn write(&self, cmds: &Vec<WriteCommand>) -> (r: Result<(), Error>);
}

/// A disk held in memory, in blocks of `block_size` bytes. Writes are refused.
pub struct RamDisk {
    data: Vec<u8>,
    block_size: usize,
}

impl RamDisk {
    #[verifier::type_invariant]
    spec fn whole_blocks(self) -> bool {
        self.block_size > 0 && self.data@.len() % (self.block_size as nat) == 0
    }

    /// The disk whose content is `data`, in blocks of `block_size` bytes.
    pub fn new(data: Vec<u8>, block_size: usize) -> (r: Self)
        requires
            block_size > 0,
            data@.len() % (block_size as nat) == 0,
        ensures
            r.content() == data@,
            r.spec_block_size() == block_size,
    {
        RamDisk { data, block_size }
    }
}

impl Disk for RamDisk {
    closed spec fn content(&self) -> Seq<u8> {
        self.data@
    }

    closed spec fn spec_block_size(&self) -> nat {
        self.block_size as nat
    }

    /// Its reads never fail.
    open spec fn fails_with(&self, e: Error) -> bool {
        false
    }

    fn block_size(&self) -> (r: usize) {
        self.block_size
    }

    fn block_count(&self) -> (r: usize) {
        proof {
            use_type_invariant(self);
            let n = self.data@.len() as int;
            let b = self.block_size as int;
            vstd::arithmetic::div_mod::lemma_fundamental_div_mod(n, b);
            assert(n / b * b == n) by (nonlinear_arith)
                requires
                    n == b * (n / b) + n % b,
                    n % b == 0,
            ;
        }
        self.data.len() / self.block_size
    }

    fn kind(&self) -> (r: DiskKind)
        ensures
            r == DiskKind::Ram,
    {
        DiskKind::Ram
    }

    /// Every read succeeds.
    fn read(&self, cmds: &mut Vec<ReadCommand>) -> (r: Result<(), Error>)
        ensures
            r is Ok,
    {
        let ghost orig = cmds@;
        let bs = self.block_size;
        let mut i: usize = 0;
        while i < cmds.len()
            invariant
                i <= cmds@.len() == orig.len(),
                bs == self.spec_block_size(),
                forall|k: int|
                    0 <= k < orig.len() ==> (#[trigger] orig[k]).block_off * bs + orig[k].buff@.len()
                        <= self.data@.len(),
                forall|k: int| i <= k < orig.len() ==> #[trigger] cmds@[k] == orig[k],
                forall|k: int|
                    0 <= k < i ==> {
                        &&& (#[trigger] cmds@[k]).block_off == orig[k].block_off
                        &&& cmds@[k].buff@ == blocks_at(
                            self.data@,
                            bs as int,
                            orig[k].block_off as int,
                            orig[k].buff@.len() as int,
                        )
                    },
            decreases cmds@.len() - i,
        {
            let mut cmd = cmds.remove(i);
            assert(cmd == orig[i as int]);
            assert(orig[i as int].block_off * bs + orig[i as int].buff@.len() <= self.data@.len());
            let dl = self.data.len();
            let n = cmd.buff.len();
            let start = cmd.block_off * bs;
            let ghost off = cmd.block_off;
            let mut j: usize = 0;
            while j < n
                invariant
                    j <= n == cmd.buff@.len(),
                    start == off * bs,
                    cmd.block_off == off,
                    dl == self.data@.len(),
                    start + n <= self.data@.len(),
                    forall|k: int| 0 <= k < j ==> cmd.buff@[k] == self.data@[start + k],
                decreases n - j,
            {
                cmd.buff.set(j, self.data[start + j]);
                j += 1;
            }
            proof {
                assert(cmd.buff@ =~= blocks_at(self.data@, bs as int, cmd.block_off as int, n as int));
            }
            cmds.insert(i, cmd);
            i += 1;
        }
        Ok(())
    }

    /// Every write is refused.
    fn write(&self, cmds: &Vec<WriteCommand>) -> (r: Result<(), Error>)
        ensures
            r == Err::<(), Error>(Error::IoError),
    {
        Err(Error::IoError)
    }
}

/// A disk, as a node of the device file system.
pub struct DiskInfo<T: Disk> {
    pub disk: T,
}

/// Append `src[from..to]` to `out`.
fn extend_from_range(out: &mut Vec<u8>, src: &Vec<u8>, from: usize, to: usize)
    requires
        from <= to <= src@.len(),
    ensures
        final(out)@ == old(out)@ + src@.subrange(from as int, to as int),
{
    let mut i = from;
    while i < to
        invariant
            from <= i <= to <= src@.len(),
            out@ == old(out)@ + src@.subrange(from as int, i as int),
        decreases to - i,
    {
        out.push(src[i]);
        proof {
            assert(out@ =~= old(out)@ + src@.subrange(from as int, i + 1));
        }
        i += 1;
    }
}

proof fn lemma_div_mod(x: int, d: int)
    requires
        d > 0,
        x >= 0,
    ensures
        x == (x / d) * d + x % d,
        0 <= x % d < d,
        x / d >= 0,
{
    vstd::arithmetic::div_mod::lemma_fundamental_div_mod(x, d);
    assert(d * (x / d) == (x / d) * d) by (nonlinear_arith);
    assert(x / d >= 0) by (nonlinear_arith)
        requires
            d > 0,
            x >= 0,
    ;
}

proof fn lemma_mul_le(a: int, b: int, d: int)
    requires
        a <= b,
        d >= 0,
    ensures
        a * d <= b * d,
{
    assert(a * d <= b * d) by (nonlinear_arith)
        requires
            a <= b,
            d >= 0,
    ;
}

proof fn lemma_mul_add(a: int, b: int, d: int)
    ensures
        (a + b) * d == a * d + b * d,
        (a - b) * d == a * d - b * d,
{
    assert((a + b) * d == a * d + b * d) by (nonlinear_arith);
    assert((a - b) * d == a * d - b * d) by (nonlinear_arith);
}

/// The blocks of a read of `n` bytes from `o` that spans three blocks or more, `sb` to `eb`:
/// the whole blocks `si` to `ei` in the middle, the partial first block if `o` is not aligned,
/// the partial last one if `o + n` is not.
proof fn lemma_spread(o: int, n: int, b: int, sb: int, eb: int, si: int, ei: int, start_aligned: bool, end_aligned: bool)
    requires
        o >= 0,
        n > 0,
        b > 0,
        sb == o / b,
        eb == (o + n - 1) / b,
        sb + 2 <= eb,
        start_aligned == (o % b == 0),
        end_aligned == ((o + n) % b == 0),
        si == if start_aligned { sb } else { sb + 1 },
        ei == if end_aligned { eb } else { eb - 1 },
    ensures
        si <= ei,
        o <= si * b <= (ei + 1) * b <= o + n,
        (ei - si + 1) * b == (ei + 1) * b - si * b,
        (ei + 1) * b <= (eb + 1) * b,
        start_aligned ==> si * b == o,
        !start_aligned ==> si * b == sb * b + b && o == sb * b + o % b,
        end_aligned ==> (ei + 1) * b == o + n,
        !end_aligned ==> ei + 1 == eb && eb * b + (o + n) % b == o + n && (o + n) % b < b,
        sb * b + b <= (eb + 1) * b,
        (eb + 1) * b == eb * b + b,
{
    lemma_div_mod(o, b);
    lemma_div_mod(o + n - 1, b);
    lemma_div_mod(o + n, b);
    lemma_mul_add(sb, 1, b);
    lemma_mul_add(eb, 1, b);
    lemma_mul_add(ei + 1, si, b);
    lemma_mul_le(si, ei + 1, b);
    lemma_mul_le(ei + 1, eb + 1, b);
    lemma_mul_le(sb + 1, eb + 1, b);
    let q = (o + n) / b;
    lemma_mul_add(q, 1, b);
    if end_aligned {
        vstd::arithmetic::div_mod::lemma_fundamental_div_mod_converse(o + n - 1, b, q - 1, b - 1);
    } else {
        vstd::arithmetic::div_mod::lemma_fundamental_div_mod_converse(o + n - 1, b, q, (o + n) % b - 1);
    }
}

/// The reads of `DiskInfo::read` for `n` bytes from the byte `o` of a disk of blocks of `b`
/// bytes, as (first block, length in bytes): one read when the bytes lie in one or two blocks;
/// else the whole blocks in the middle, then the partial first block if `o` is not on a block,
/// then the partial last block if `o + n` is not.
pub open spec fn read_commands_spec(o: int, n: int, b: int) -> Seq<(int, int)> {
    let sb = o / b;
    let eb = (o + n - 1) / b;
    if eb - sb < 2 {
        seq![(sb, (eb - sb + 1) * b)]
    } else {
        let sa = o % b == 0;
        let ea = (o + n) % b == 0;
        let si = if sa { sb } else { sb + 1 };
        let ei = if ea { eb } else { eb - 1 };
        let mid = seq![(si, (ei - si + 1) * b)];
        let m1 = if sa { mid } else { mid.push((sb, b)) };
        if ea { m1 } else { m1.push((eb, b)) }
    }
}

/// The read commands for `read_size` bytes from the byte `offset`, in blocks of `bs` bytes
/// (see `read_commands_spec`), with zeroed buffers. Each reads a positive number of whole
/// blocks, within the blocks that hold the bytes.
pub fn read_commands(offset: usize, read_size: usize, bs: usize) -> (r: Vec<ReadCommand>)
    requires
        read_size > 0,
        bs > 0,
        offset + read_size <= usize::MAX,
        ((offset + read_size - 1) / (bs as int) + 1) * bs <= usize::MAX,
    ensures
        r@.len() == read_commands_spec(offset as int, read_size as int, bs as int).len(),
        forall|i: int|
            0 <= i < r@.len() ==> ((#[trigger] r@[i]).block_off as int, r@[i].buff@.len() as int)
                == read_commands_spec(offset as int, read_size as int, bs as int)[i],
        forall|i: int|
            0 <= i < r@.len() ==> {
                &&& (#[trigger] r@[i]).buff@.len() > 0
                &&& r@[i].buff@.len() % (bs as nat) == 0
                &&& r@[i].block_off >= offset / bs
                &&& r@[i].block_off * bs + r@[i].buff@.len() <= ((offset + read_size - 1) / (bs as int)
                    + 1) * bs
            },
{
    let ghost (o, n, b) = (offset as int, read_size as int, bs as int);
    let start_block = offset / bs;
    let end_block = (offset + read_size - 1) / bs;
    let ghost (sb, eb) = (start_block as int, end_block as int);
    proof {
        lemma_div_mod(o, b);
        lemma_div_mod(o + n - 1, b);
        assert(sb <= eb) by {
            if sb > eb {
                lemma_mul_le(eb + 1, sb, b);
                lemma_mul_add(eb, 1, b);
            }
        }
        lemma_mul_le(eb + 1, eb + 1, b);
    }
    let mut cmds: Vec<ReadCommand> = Vec::new();
    if end_block - start_block < 2 {
        proof {
            lemma_mul_add(eb + 1, sb, b);
            lemma_mul_le(sb, eb + 1, b);
            lemma_mul_le(1, eb - sb + 1, b);
            vstd::arithmetic::div_mod::lemma_mod_multiples_basic(eb - sb + 1, b);
        }
        let len = (end_block - start_block + 1) * bs;
        cmds.push(ReadCommand { block_off: start_block, buff: vec![0u8; len] });
        return cmds;
    }
    let start_aligned = offset % bs == 0;
    let end_aligned = (offset + read_size) % bs == 0;
    let si = if start_aligned { start_block } else { start_block + 1 };
    let ei = if end_aligned { end_block } else { end_block - 1 };
    proof {
        lemma_spread(o, n, b, sb, eb, si as int, ei as int, start_aligned, end_aligned);
        lemma_mul_le(1, ei - si + 1, b);
        vstd::arithmetic::div_mod::lemma_mod_multiples_basic(ei - si + 1, b);
        vstd::arithmetic::div_mod::lemma_mod_multiples_basic(1, b);
        lemma_mul_le(sb, si as int, b);
    }
    let middle_len = (ei - si + 1) * bs;
    cmds.push(ReadCommand { block_off: si, buff: vec![0u8; middle_len] });
    if !start_aligned {
        cmds.push(ReadCommand { block_off: start_block, buff: vec![0u8; bs] });
    }
    if !end_aligned {
        proof {
            lemma_mul_le(sb, eb, b);
        }
        cmds.push(ReadCommand { block_off: end_block, buff: vec![0u8; bs] });
    }
    cmds
}

impl<T: Disk> DiskInfo<T> {
    /// The size of the disk in bytes.
    pub fn size(&self) -> (r: Result<usize, Error>)
        requires
            self.disk.content().len() <= usize::MAX,
        ensures
            r == Ok::<usize, Error>(self.disk.content().len() as usize),
    {
        let bs = self.disk.block_size();
        let count = self.disk.block_count();
        proof {
            assert(count * bs == bs * count) by (nonlinear_arith);
        }
        Ok(bs * count)
    }

    /// Read `read_size` bytes from the byte `offset` of the disk: the blocks they lie in are
    /// read, whole blocks straight to the result, and the partial first and last blocks through
    /// buffers of their own. No bytes read at an offset inside a block are nothing; at the start of
    /// a block no bytes cannot be read.
    pub fn read(&self, offset: usize, read_size: usize) -> (r: Result<Vec<u8>, Error>)
        requires
            read_size > 0 || (offset as nat) % self.disk.spec_block_size() != 0,
            offset + read_size <= usize::MAX,
            self.disk.content().len() <= usize::MAX,
            self.disk.spec_block_size() > 0,
            offset + read_size <= self.disk.content().len(),
        ensures
            r matches Ok(v) ==> v@ == self.disk.content().subrange(offset as int, offset + read_size),
            r matches Err(e) ==> self.disk.fails_with(e),
    {
        if read_size == 0 {
            return Ok(Vec::new());
        }
        let ghost content = self.disk.content();
        let bs = self.disk.block_size();
        let count = self.disk.block_count();
        let last_byte = offset + read_size - 1;
        let start_block = offset / bs;
        let end_block = last_byte / bs;
        let ghost (o, n, b, sb, eb) = (offset as int, read_size as int, bs as int, start_block as int, end_block as int);
        proof {
            lemma_div_mod(o, b);
            lemma_div_mod(o + n - 1, b);
            assert(content.len() == count * b);
            assert(eb < count) by {
                if eb >= count {
                    lemma_mul_le(count as int, eb, b);
                }
            }
            lemma_mul_le(eb + 1, count as int, b);
            assert(sb <= eb) by {
                if sb > eb {
                    lemma_mul_le(eb + 1, sb, b);
                    lemma_mul_add(eb, 1, b);
                }
            }
        }
        if end_block - start_block < 2 {
            self.read_near(offset, read_size, bs, start_block, end_block)
        } else {
            self.read_spread(offset, read_size, bs, start_block, end_block)
        }
    }

    /// `read` when the bytes lie in one or two blocks: they are read through one buffer.
    fn read_near(&self, offset: usize, read_size: usize, bs: usize, start_block: usize, end_block: usize) -> (r:
        Result<Vec<u8>, Error>)
        requires
            read_size > 0,
            bs == self.disk.spec_block_size() > 0,
            self.disk.content().len() <= usize::MAX,
            start_block == offset / bs,
            end_block == (offset + read_size - 1) / (bs as int),
            start_block <= end_block < start_block + 2,
            (end_block + 1) * bs <= self.disk.content().len(),
        ensures
            r matches Ok(v) ==> v@ == self.disk.content().subrange(offset as int, offset + read_size),
            r matches Err(e) ==> self.disk.fails_with(e),
    {
        let ghost content = self.disk.content();
        let ghost (o, n, b, sb, eb) = (offset as int, read_size as int, bs as int, start_block as int, end_block as int);
        proof {
            lemma_div_mod(o, b);
            lemma_div_mod(o + n - 1, b);
            lemma_mul_add(sb, 1, b);
            lemma_mul_add(sb, 2, b);
            lemma_mul_add(eb, 1, b);
            lemma_mul_le(sb, eb, b);
        }
        let buff_size = if start_block == end_block {
            bs
        } else {
            bs * 2
        };
        proof {
            assert(sb * b + buff_size == (eb + 1) * b);
        }
        let mut cmds = read_commands(offset, read_size, bs);
        proof {
            assert(read_commands_spec(o, n, b) == seq![(sb, (eb - sb + 1) * b)]);
            assert(cmds@.len() == 1);
            assert(cmds@[0].block_off == start_block && cmds@[0].buff@.len() == buff_size);
        }
        self.disk.read(&mut cmds)?;
        let mut out: Vec<u8> = Vec::new();
        let in_block = offset % bs;
        proof {
            assert(cmds@[0].buff@ == blocks_at(content, b, sb, buff_size as int));
        }
        extend_from_range(&mut out, &cmds[0].buff, in_block, in_block + read_size);
        proof {
            assert(out@ =~= content.subrange(o, o + n));
        }
        Ok(out)
    }

    /// `read` when the bytes span three blocks or more: the whole blocks are read at once, the
    /// partial first and last ones each through a buffer.
    fn read_spread(&self, offset: usize, read_size: usize, bs: usize, start_block: usize, end_block: usize) -> (r:
        Result<Vec<u8>, Error>)
        requires
            read_size > 0,
            offset + read_size <= usize::MAX,
            bs == self.disk.spec_block_size() > 0,
            self.disk.content().len() <= usize::MAX,
            start_block == offset / bs,
            end_block == (offset + read_size - 1) / (bs as int),
            start_block + 2 <= end_block,
            (end_block + 1) * bs <= self.disk.content().len(),
        ensures
            r matches Ok(v) ==> v@ == self.disk.content().subrange(offset as int, offset + read_size),
            r matches Err(e) ==> self.disk.fails_with(e),
    {
        let ghost content = self.disk.content();
        let ghost (o, n, b, sb, eb) = (offset as int, read_size as int, bs as int, start_block as int, end_block as int);
        let start_aligned = offset % bs == 0;
        let end_aligned = (offset + read_size) % bs == 0;
        let start_block_idx = if start_aligned {
            start_block
        } else {
            start_block + 1
        };
        let end_block_idx = if end_aligned {
            end_block
        } else {
            end_block - 1
        };
        let block_count = end_block_idx - start_block_idx + 1;
        let ghost (si, ei) = (start_block_idx as int, end_block_idx as int);
        proof {
            lemma_spread(o, n, b, sb, eb, si, ei, start_aligned, end_aligned);
        }
        let middle_len = block_count * bs;
        let mut cmds = read_commands(offset, read_size, bs);
        proof {
            let sp = read_commands_spec(o, n, b);
            assert(sp[0] == (si, (ei - si + 1) * b));
            assert(cmds@[0].block_off == start_block_idx && cmds@[0].buff@.len() == middle_len);
            if !start_aligned {
                assert(sp[1] == (sb, b));
                assert(cmds@[1].block_off == start_block && cmds@[1].buff@.len() == bs);
            }
            if !end_aligned {
                let k = if start_aligned { 1int } else { 2int };
                assert(sp[k] == (eb, b));
                assert(cmds@[k].block_off == end_block && cmds@[k].buff@.len() == bs);
            }
        }
        self.disk.read(&mut cmds)?;
        let mut out: Vec<u8> = Vec::new();
        let in_block = offset % bs;
        if !start_aligned {
            proof {
                assert(cmds@[1].buff@ == blocks_at(content, b, sb, b));
            }
            extend_from_range(&mut out, &cmds[1].buff, in_block, bs);
        }
        proof {
            assert(out@ =~= content.subrange(o, si * b));
            assert(cmds@[0].buff@ == blocks_at(content, b, si, middle_len as int));
        }
        extend_from_range(&mut out, &cmds[0].buff, 0, middle_len);
        proof {
            assert(out@ =~= content.subrange(o, (ei + 1) * b));
        }
        if !end_aligned {
            let tail = (offset + read_size) % bs;
            let k: usize = if start_aligned {
                1
            } else {
                2
            };
            proof {
                assert(cmds@[k as int].buff@ == blocks_at(content, b, eb, b));
            }
            extend_from_range(&mut out, &cmds[k].buff, 0, tail);
        }
        proof {
            assert(out@ =~= content.subrange(o, o + n));
        }
        Ok(out)
    }
}

} // verus!
