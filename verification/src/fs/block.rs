use vstd::prelude::*;

use crate::error::Error;
use vstd::arithmetic::div_mod::lemma_fundamental_div_mod_converse;

verus! {

/// The index of a block of a block device.
#[derive(PartialEq, Eq, Structural, Clone, Copy, Debug, Hash)]
pub struct BlockIndex(pub usize);

/// What a block device tells of itself.
#[derive(Clone, Debug)]
pub struct BlockDevInfos {
    pub block_size: usize,
    pub block_count: usize,
    pub name: String,
}

impl BlockDevInfos {
    /// The size in bytes of the device.
    pub fn size(&self) -> (r: usize)
        requires
            self.block_count * self.block_size <= usize::MAX,
        ensures
            r == self.block_count * self.block_size,
    {
        self.block_count * self.block_size
    }
}

/// A device of blocks, read and written a block at a time. Drivers implement it.
pub trait BlockDev {
    /// The bytes of the device.
    spec fn content(&self) -> Seq<u8>;

    spec fn spec_block_size(&self) -> nat;

    /// `e` is an error a read of this device reports.
    spec fn fails_with(&self, e: Error) -> bool;

    fn infos(&self) -> (r: &BlockDevInfos)
        ensures
            r.block_size == self.spec_block_size(),
            r.block_size > 0,
            r.block_count * r.block_size == self.content().len(),
    ;

    /// Read the block `block` into `buff`, which holds a block.
    fn read(&self, block: BlockIndex, buff: &mut Vec<u8>) -> (r: Result<(), Error>)
        requires
            old(buff)@.len() == self.spec_block_size(),
            (block.0 + 1) * self.spec_block_size() <= self.content().len(),
        ensures
            r matches Err(e) ==> self.fails_with(e),
            r is Ok ==> final(buff)@ == self.content().subrange(
                block.0 * self.spec_block_size(),
                block.0 * self.spec_block_size() + self.spec_block_size(),
            ),
    ;
}

/// A block held in memory, and whether it was changed since it was read.
pub struct CachedBlock {
    pub dirty: bool,
    pub data: Vec<u8>,
}

/// The blocks of a device held in memory, by index.
#[verifier::external_body]
pub struct BlockCache {
    map: hashbrown::HashMap<usize, CachedBlock>,
}

/// The blocks in the cache `c`: index to (changed, bytes).
pub uninterp spec fn cached_blocks(c: BlockCache) -> Map<usize, (bool, Seq<u8>)>;

impl BlockCache {
    /// `hashbrown::HashMap::new`: no block.
    #[verifier::external_body]
    fn new() -> (r: BlockCache)
        ensures
            cached_blocks(r).is_empty(),
    {
        BlockCache { map: hashbrown::HashMap::new() }
    }

    /// `hashbrown::HashMap::get`: the block `block`, if it is held.
    #[verifier::external_body]
    fn get(&self, block: usize) -> (r: Option<&CachedBlock>)
        ensures
            r is Some <==> cached_blocks(*self).contains_key(block),
            r matches Some(b) ==> cached_blocks(*self)[block] == (b.dirty, b.data@),
    {
        self.map.get(&block)
    }

    /// `hashbrown::HashMap::insert`: `b` becomes the block `block`.
    #[verifier::external_body]
    fn insert(&mut self, block: usize, b: CachedBlock)
        ensures
            cached_blocks(*final(self)) == cached_blocks(*old(self)).insert(block, (b.dirty, b.data@)),
    {
        self.map.insert(block, b);
    }
}

/// The bytes of a device whose content is `content`, in blocks of `bs` bytes, as seen through
/// the blocks held in `cache`.
pub open spec fn cached_view(content: Seq<u8>, bs: nat, cache: Map<usize, (bool, Seq<u8>)>) -> Seq<u8> {
    Seq::new(
        content.len(),
        |i: int|
            if cache.contains_key((i / bs as int) as usize) {
                cache[(i / bs as int) as usize].1[i % bs as int]
            } else {
                content[i]
            },
    )
}

/// `s` with the bytes `data` from `at` on.
pub open spec fn written(s: Seq<u8>, at: int, data: Seq<u8>) -> Seq<u8> {
    Seq::new(s.len(), |i: int| if at <= i < at + data.len() { data[i - at] } else { s[i] })
}

/// A copy of `src`.
fn copy_bytes(src: &Vec<u8>) -> (r: Vec<u8>)
    ensures
        r@ == src@,
{
    let mut out: Vec<u8> = Vec::new();
    let mut k: usize = 0;
    while k < src.len()
        invariant
            k <= src@.len(),
            out@ == src@.subrange(0, k as int),
        decreases src@.len() - k,
    {
        out.push(src[k]);
        k += 1;
        assert(out@ =~= src@.subrange(0, k as int));
    }
    assert(out@ =~= src@);
    out
}

/// `n` zero bytes.
fn zeroed(n: usize) -> (r: Vec<u8>)
    ensures
        r@.len() == n,
{
    let mut out: Vec<u8> = Vec::new();
    let mut k: usize = 0;
    while k < n
        invariant
            k <= n,
            out@.len() == k,
        decreases n - k,
    {
        out.push(0);
        k += 1;
    }
    out
}

/// A read of the bytes just written gives them back, and a read of bytes that the write did
/// not reach gives what was there before.
pub proof fn lemma_read_after_write(s: Seq<u8>, at: int, data: Seq<u8>, from: int, len: int)
    requires
        0 <= at,
        at + data.len() <= s.len(),
        0 <= from,
        0 <= len,
        from + len <= s.len(),
    ensures
        from == at && len == data.len() ==> written(s, at, data).subrange(from, from + len) == data,
        from + len <= at || at + data.len() <= from ==> written(s, at, data).subrange(from, from + len)
            == s.subrange(from, from + len),
{
    assert(from == at && len == data.len() ==> written(s, at, data).subrange(from, from + len) =~= data);
    assert(from + len <= at || at + data.len() <= from ==> written(s, at, data).subrange(from, from + len)
        =~= s.subrange(from, from + len));
}

/// A block device with a cache of its blocks: reads go through the cache, writes stay in it
/// and mark their block as changed.
pub struct BlockDevice<D: BlockDev> {
    dev: D,
    block_size: usize,
    cache: BlockCache,
}

/// Byte `i` of a device of blocks of `bs` bytes lies in block `i / bs`, at `i % bs`.
proof fn lemma_in_block(i: int, b: int, bs: int)
    requires
        bs > 0,
        b * bs <= i < b * bs + bs,
    ensures
        i / bs == b,
        i % bs == i - b * bs,
{
    lemma_fundamental_div_mod_converse(i, bs, b, i - b * bs);
}

/// Byte `i` lies in the block `i / bs`.
proof fn lemma_block_of(i: int, bs: int)
    requires
        bs > 0,
        i >= 0,
    ensures
        (i / bs) * bs <= i < (i / bs) * bs + bs,
        i % bs == i - (i / bs) * bs,
{
    vstd::arithmetic::div_mod::lemma_fundamental_div_mod(i, bs);
    vstd::arithmetic::mul::lemma_mul_is_commutative(bs, i / bs);
}

impl<D: BlockDev> BlockDevice<D> {
    pub closed spec fn wf(&self) -> bool {
        &&& self.block_size == self.dev.spec_block_size()
        &&& self.block_size > 0
        &&& self.dev.content().len() % self.block_size as nat == 0
        &&& self.dev.content().len() <= usize::MAX
        &&& forall|b: usize| #[trigger]
            cached_blocks(self.cache).contains_key(b) ==> (b + 1) * self.block_size <= self.dev.content().len()
                && cached_blocks(self.cache)[b].1.len() == self.block_size
    }

    /// The bytes of the device, as its reads see them.
    pub closed spec fn view(&self) -> Seq<u8> {
        cached_view(self.dev.content(), self.block_size as nat, cached_blocks(self.cache))
    }

    pub closed spec fn spec_block_size(&self) -> nat {
        self.block_size as nat
    }

    /// The blocks changed since they were read.
    pub closed spec fn dirty_blocks(&self) -> Set<usize> {
        Set::new(|b: usize| cached_blocks(self.cache).contains_key(b) && cached_blocks(self.cache)[b].0)
    }

    /// `e` is an error a read of the device reports.
    pub closed spec fn fails_with(&self, e: Error) -> bool {
        self.dev.fails_with(e)
    }

    /// The device whose blocks are held.
    pub closed spec fn device(&self) -> D {
        self.dev
    }

    /// The device `dev`, with no block held.
    pub fn new(dev: D) -> (r: Self)
        requires
            dev.content().len() <= usize::MAX,
        ensures
            r.wf(),
            r@ == dev.content(),
            r.spec_block_size() == dev.spec_block_size(),
            r.dirty_blocks().is_empty(),
    {
        let block_size = dev.infos().block_size;
        let count = dev.infos().block_count;
        proof {
            vstd::arithmetic::div_mod::lemma_mod_multiples_basic(count as int, block_size as int);
            assert(count * block_size == block_size * count) by (nonlinear_arith);
        }
        let r = BlockDevice { dev, block_size, cache: BlockCache::new() };
        proof {
            assert(r@ =~= r.dev.content());
            assert(r.dirty_blocks() =~= Set::empty());
        }
        r
    }

    /// The size in bytes of the device.
    pub fn size(&self) -> (r: usize)
        requires
            self.wf(),
        ensures
            r == self@.len(),
    {
        let infos = self.dev.infos();
        infos.block_count * infos.block_size
    }

    /// The bytes of the block `block`: held, or read from the device and held from then on,
    /// unchanged.
    pub fn get_block(&mut self, block: BlockIndex) -> (r: Result<Vec<u8>, Error>)
        requires
            old(self).wf(),
            (block.0 + 1) * old(self).spec_block_size() <= old(self)@.len(),
        ensures
            final(self).wf(),
            final(self)@ == old(self)@,
            final(self).spec_block_size() == old(self).spec_block_size(),
            final(self).dirty_blocks() == old(self).dirty_blocks(),
            final(self).device() == old(self).device(),
            r matches Ok(v) ==> v@ == old(self)@.subrange(
                block.0 * old(self).spec_block_size(),
                block.0 * old(self).spec_block_size() + old(self).spec_block_size(),
            ),
            r matches Err(e) ==> old(self).fails_with(e),
    {
        let ghost v0 = self@;
        let bs = self.block_size;
        let ghost start = block.0 * bs;
        proof {
            assert((block.0 + 1) * bs == start + bs) by (nonlinear_arith)
                requires
                    start == block.0 * bs,
            ;
        }
        let data = match self.cache.get(block.0) {
            Some(b) => {
                let out = copy_bytes(&b.data);
                proof {
                    assert(cached_blocks(self.cache)[block.0].1 == b.data@);
                    assert forall|j: int| 0 <= j < bs implies v0[start + j] == #[trigger] out@[j] by {
                        lemma_in_block(start + j, block.0 as int, bs as int);
                    }
                    assert(out@ =~= v0.subrange(start, start + bs));
                }
                out
            },
            None => {
                let mut buff = zeroed(bs);
                match self.dev.read(block, &mut buff) {
                    Ok(()) => {},
                    Err(e) => return Err(e),
                }
                let out = copy_bytes(&buff);
                self.cache.insert(block.0, CachedBlock { dirty: false, data: buff });
                proof {
                    assert forall|i: int| 0 <= i < v0.len() implies #[trigger] self@[i] == v0[i] by {
                        if start <= i < start + bs {
                            lemma_in_block(i, block.0 as int, bs as int);
                        } else {
                            lemma_block_of(i, bs as int);
                        }
                    }
                    assert(self@ =~= v0);
                    assert(self.dirty_blocks() =~= old(self).dirty_blocks());
                    assert forall|j: int| 0 <= j < bs implies v0[start + j] == #[trigger] out@[j] by {
                        lemma_in_block(start + j, block.0 as int, bs as int);
                    }
                    assert(out@ =~= v0.subrange(start, start + bs));
                }
                out
            },
        };
        Ok(data)
    }

    /// Replace the bytes of the block `block` by `buff`, which holds a block: they are held,
    /// and the block is marked as changed.
    pub fn write_block(&mut self, block: BlockIndex, buff: &[u8]) -> (r: Result<(), Error>)
        requires
            old(self).wf(),
            buff@.len() == old(self).spec_block_size(),
            (block.0 + 1) * old(self).spec_block_size() <= old(self)@.len(),
        ensures
            r is Ok,
            final(self).wf(),
            final(self).spec_block_size() == old(self).spec_block_size(),
            final(self)@ == written(old(self)@, block.0 * old(self).spec_block_size(), buff@),
            final(self).dirty_blocks() == old(self).dirty_blocks().insert(block.0),
            final(self).device() == old(self).device(),
    {
        let ghost v0 = self@;
        let bs = self.block_size;
        let ghost start = block.0 * bs;
        proof {
            assert((block.0 + 1) * bs == start + bs) by (nonlinear_arith)
                requires
                    start == block.0 * bs,
            ;
        }
        let mut data: Vec<u8> = Vec::new();
        let mut k: usize = 0;
        while k < buff.len()
            invariant
                k <= buff@.len(),
                data@ == buff@.subrange(0, k as int),
            decreases buff@.len() - k,
        {
            data.push(buff[k]);
            k += 1;
            assert(data@ =~= buff@.subrange(0, k as int));
        }
        assert(data@ =~= buff@);
        self.cache.insert(block.0, CachedBlock { dirty: true, data });
        proof {
            assert forall|i: int| 0 <= i < v0.len() implies #[trigger] self@[i] == written(v0, start, buff@)[i] by {
                if start <= i < start + bs {
                    lemma_in_block(i, block.0 as int, bs as int);
                } else {
                    lemma_block_of(i, bs as int);
                }
            }
            assert(self@ =~= written(v0, start, buff@));
            assert(self.dirty_blocks() =~= old(self).dirty_blocks().insert(block.0));
        }
        Ok(())
    }

    /// Write `data` at `offset` in the block `block`, read first if it is not held; the block
    /// is then marked as changed. A failed read changes nothing.
    pub fn write_in_block(&mut self, block: BlockIndex, offset: usize, data: &[u8]) -> (r: Result<(), Error>)
        requires
            old(self).wf(),
            offset + data@.len() <= old(self).spec_block_size(),
            (block.0 + 1) * old(self).spec_block_size() <= old(self)@.len(),
        ensures
            final(self).wf(),
            final(self).spec_block_size() == old(self).spec_block_size(),
            final(self).device() == old(self).device(),
            r is Ok ==> final(self)@ == written(old(self)@, block.0 * old(self).spec_block_size() + offset, data@)
                && final(self).dirty_blocks() == old(self).dirty_blocks().insert(block.0),
            r matches Err(e) ==> old(self).fails_with(e) && final(self)@ == old(self)@ && final(self).dirty_blocks()
                == old(self).dirty_blocks(),
    {
        let ghost v0 = self@;
        let bs = self.block_size;
        let ghost start = block.0 * bs;
        proof {
            assert((block.0 + 1) * bs == start + bs) by (nonlinear_arith)
                requires
                    start == block.0 * bs,
            ;
        }
        let current = self.get_block(block)?;
        let mut next: Vec<u8> = Vec::new();
        let mut k: usize = 0;
        while k < bs
            invariant
                k <= bs,
                current@.len() == bs,
                offset + data@.len() <= bs,
                next@.len() == k,
                forall|j: int|
                    0 <= j < k ==> #[trigger] next@[j] == if offset <= j < offset + data@.len() {
                        data@[j - offset]
                    } else {
                        current@[j]
                    },
            decreases bs - k,
        {
            let byte = if offset <= k && k < offset + data.len() {
                data[k - offset]
            } else {
                current[k]
            };
            next.push(byte);
            k += 1;
        }
        let ghost v1 = self@;
        let r = self.write_block(block, next.as_slice());
        proof {
            assert(self@ =~= written(v0, start + offset, data@));
        }
        r
    }

    /// Read `len` bytes from the byte `offset` of the device, block by block through the cache.
    /// A failed read of a block stops it; what was read stays held.
    pub fn read(&mut self, offset: usize, len: usize) -> (r: Result<Vec<u8>, Error>)
        requires
            old(self).wf(),
            offset + len <= old(self)@.len(),
        ensures
            final(self).wf(),
            final(self)@ == old(self)@,
            final(self).spec_block_size() == old(self).spec_block_size(),
            final(self).dirty_blocks() == old(self).dirty_blocks(),
            r matches Ok(v) ==> v@ == old(self)@.subrange(offset as int, offset + len),
            r matches Err(e) ==> old(self).fails_with(e),
    {
        let ghost v0 = self@;
        let bs = self.block_size;
        let mut out: Vec<u8> = Vec::new();
        let mut pos = offset;
        while pos < offset + len
            invariant
                self.wf(),
                self@ == v0,
                v0 == old(self)@,
                bs == old(self).spec_block_size(),
                self.spec_block_size() == bs,
                bs > 0,
                self.dirty_blocks() == old(self).dirty_blocks(),
                self.device() == old(self).device(),
                offset <= pos <= offset + len,
                offset + len <= v0.len(),
                out@ == v0.subrange(offset as int, pos as int),
            decreases offset + len - pos,
        {
            let b = pos / bs;
            let inb = pos % bs;
            proof {
                lemma_block_of(pos as int, bs as int);
                let q = (v0.len() as int) / (bs as int);
                vstd::arithmetic::div_mod::lemma_fundamental_div_mod(v0.len() as int, bs as int);
                assert((b + 1) * bs <= v0.len() && b * bs + bs <= v0.len()) by (nonlinear_arith)
                    requires
                        b * bs <= pos < b * bs + bs,
                        pos < v0.len(),
                        v0.len() == bs * q,
                        bs > 0,
                ;
            }
            let blk = self.get_block(BlockIndex(b))?;
            let left = offset + len - pos;
            let take = if bs - inb < left {
                bs - inb
            } else {
                left
            };
            let mut k: usize = 0;
            while k < take
                invariant
                    k <= take,
                    take <= bs - inb,
                    pos + take <= offset + len,
                    blk@ == v0.subrange(b * bs, b * bs + bs),
                    inb == pos - b * bs,
                    b * bs + bs <= v0.len(),
                    out@ == v0.subrange(offset as int, pos + k),
                    offset <= pos,
                decreases take - k,
            {
                out.push(blk[inb + k]);
                k += 1;
                assert(out@ =~= v0.subrange(offset as int, pos + k));
            }
            pos = pos + take;
        }
        Ok(out)
    }
}

/// A block device held in memory. Its reads never fail.
pub struct RamBlockDev {
    infos: BlockDevInfos,
    data: Vec<u8>,
}

impl RamBlockDev {
    #[verifier::type_invariant]
    spec fn whole_blocks(self) -> bool {
        &&& self.infos.block_size > 0
        &&& self.infos.block_count * self.infos.block_size == self.data@.len()
    }

    /// The device named `name` whose bytes are `data`, in blocks of `block_size` bytes.
    pub fn new(data: Vec<u8>, block_size: usize, name: String) -> (r: Self)
        requires
            block_size > 0,
            data@.len() % (block_size as nat) == 0,
        ensures
            r.content() == data@,
            r.spec_block_size() == block_size,
    {
        let block_count = data.len() / block_size;
        proof {
            vstd::arithmetic::div_mod::lemma_fundamental_div_mod(data@.len() as int, block_size as int);
            vstd::arithmetic::mul::lemma_mul_is_commutative(block_size as int, block_count as int);
        }
        RamBlockDev { infos: BlockDevInfos { block_size, block_count, name }, data }
    }
}

impl BlockDev for RamBlockDev {
    closed spec fn content(&self) -> Seq<u8> {
        self.data@
    }

    closed spec fn spec_block_size(&self) -> nat {
        self.infos.block_size as nat
    }

    open spec fn fails_with(&self, e: Error) -> bool {
        false
    }

    fn infos(&self) -> (r: &BlockDevInfos) {
        proof {
            use_type_invariant(self);
        }
        &self.infos
    }

    fn read(&self, block: BlockIndex, buff: &mut Vec<u8>) -> (r: Result<(), Error>) {
        let bs = self.infos.block_size;
        proof {
            use_type_invariant(self);
            assert((block.0 + 1) * bs == block.0 * bs + bs) by (nonlinear_arith);
            assert(self.data@.len() == self.data.len());
        }
        let start = block.0 * bs;
        let mut k: usize = 0;
        while k < bs
            invariant
                bs == self.spec_block_size(),
                start == block.0 * bs,
                start + bs <= self.data@.len(),
                self.data@.len() == self.data.len(),
                k <= bs,
                buff@.len() == bs,
                forall|j: int| 0 <= j < k ==> #[trigger] buff@[j] == self.data@[start + j],
            decreases bs - k,
        {
            buff.set(k, self.data[start + k]);
            k += 1;
        }
        proof {
            assert(buff@ =~= self.data@.subrange(start as int, start + bs));
        }
        Ok(())
    }
}

} // verus!
