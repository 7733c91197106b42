use vstd::prelude::*;

use super::address::{Address, MemoryKind};
use super::constants::PAGE_SIZE;
use super::page_allocator::PageAllocator;

verus! {

/// The size of the header at the start of a chunk, and of the header before each block.
pub const HEADER_SIZE: u64 = 32;

/// The fewest pages a chunk is made of.
pub const MIN_PAGE_COUNT: usize = 16;

/// The header of a block of a chunk: where it lies, the bytes after it that the block owns,
/// and how many of them are in use (0 for a hole).
#[derive(PartialEq, Eq, Structural, Clone, Copy, Debug)]
pub struct BlockHeader {
    pub header: u64,
    pub size: u32,
    pub allocated_size: u32,
}

/// A chunk of pages the heap carves blocks from, and its blocks in address order.
pub struct ChunkView {
    pub addr: u64,
    pub page_count: nat,
    pub free: int,
    pub blocks: Seq<BlockHeader>,
}

/// Where the data of a block starts.
pub open spec fn data_of(b: BlockHeader) -> int {
    b.header + HEADER_SIZE
}

/// The end of the bytes a block owns.
pub open spec fn block_end(b: BlockHeader) -> int {
    b.header + HEADER_SIZE + b.size
}

/// The end of the bytes of a block in use.
pub open spec fn data_end(b: BlockHeader) -> int {
    b.header + HEADER_SIZE + b.allocated_size
}

/// The padding that aligns the end of a block's data to 8 bytes.
pub open spec fn pad(b: BlockHeader) -> int {
    (8 - data_end(b) % 8) % 8
}

/// The room left after the data of a block in use for another block: its free bytes, less
/// a header and the padding, and 0 when they do not even hold that.
pub open spec fn split_room(b: BlockHeader) -> int {
    let u = b.size - b.allocated_size;
    if u >= HEADER_SIZE + pad(b) {
        u - HEADER_SIZE - pad(b)
    } else {
        0
    }
}

/// A block can hold `size` bytes: a hole at least that large, or a block in use with room
/// for a new block of that size after its data.
pub open spec fn fits(b: BlockHeader, size: nat) -> bool {
    if b.allocated_size == 0 {
        b.size >= size
    } else {
        split_room(b) >= size
    }
}

/// The index of the first block from `i` that can hold `size` bytes.
pub open spec fn first_fit(bs: Seq<BlockHeader>, size: nat, i: int) -> Option<int>
    decreases bs.len() - i,
{
    if i < 0 || i >= bs.len() {
        None
    } else if fits(bs[i], size) {
        Some(i)
    } else {
        first_fit(bs, size, i + 1)
    }
}

proof fn lemma_first_fit(bs: Seq<BlockHeader>, size: nat, i: int)
    ensures
        first_fit(bs, size, i) matches Some(j) ==> i <= j < bs.len() && fits(bs[j], size),
    decreases bs.len() - i,
{
    if 0 <= i < bs.len() && !fits(bs[i], size) {
        lemma_first_fit(bs, size, i + 1);
    }
}

proof fn lemma_aligned(a: u64, align: usize)
    requires
        a % 8 == 0,
        align == 1 || align == 2 || align == 4 || align == 8,
    ensures
        a % align as u64 == 0,
{
    assert(a % 8 == 0 ==> a % 4 == 0 && a % 2 == 0 && a % 1 == 0) by (bit_vector);
}

/// The block of a chunk that an allocation of `size` bytes takes; only a chunk whose free
/// counter reaches `size` is searched.
pub open spec fn chunk_fit(c: ChunkView, size: nat) -> Option<int> {
    if c.free >= size {
        first_fit(c.blocks, size, 0)
    } else {
        None
    }
}

/// The first chunk from `k` with a block for `size` bytes.
pub open spec fn first_chunk(v: Seq<ChunkView>, size: nat, k: int) -> Option<int>
    decreases v.len() - k,
{
    if k < 0 || k >= v.len() {
        None
    } else if chunk_fit(v[k], size) is Some {
        Some(k)
    } else {
        first_chunk(v, size, k + 1)
    }
}

/// The chunk after `size` bytes are taken from its block `i`, and the address handed out:
/// a hole is used as it is; a block in use keeps its data and a new block, aligned to 8
/// bytes, is made of the room after it.
pub open spec fn take_block(c: ChunkView, i: int, size: nat) -> (ChunkView, u64) {
    let b = c.blocks[i];
    if b.allocated_size == 0 {
        (
            ChunkView {
                free: c.free - size,
                blocks: c.blocks.update(i, BlockHeader { allocated_size: size as u32, ..b }),
                ..c
            },
            data_of(b) as u64,
        )
    } else {
        let h = data_end(b) + pad(b);
        let nb = BlockHeader { header: h as u64, size: split_room(b) as u32, allocated_size: size as u32 };
        (
            ChunkView {
                free: c.free - size - HEADER_SIZE,
                blocks: c.blocks.update(i, BlockHeader { size: b.allocated_size, ..b }).insert(
                    i + 1,
                    nb,
                ),
                ..c
            },
            (h + HEADER_SIZE) as u64,
        )
    }
}

/// The pages of a chunk made for an allocation of `size` bytes.
pub open spec fn chunk_pages(size: nat) -> nat {
    let n = (size + 2 * HEADER_SIZE + PAGE_SIZE - 1) / PAGE_SIZE as int;
    if n < MIN_PAGE_COUNT {
        MIN_PAGE_COUNT as nat
    } else {
        n as nat
    }
}

/// A new chunk at `addr` for an allocation of `size` bytes: a single hole.
pub open spec fn new_chunk(addr: u64, size: nat) -> ChunkView {
    let pc = chunk_pages(size);
    let free = pc * PAGE_SIZE - 2 * HEADER_SIZE;
    ChunkView {
        addr,
        page_count: pc,
        free,
        blocks: seq![BlockHeader { header: (addr + HEADER_SIZE) as u64, size: free as u32, allocated_size: 0 }],
    }
}

/// The bytes of a chunk that headers and data in use take, but for the chunk's own header.
pub open spec fn used(s: Seq<BlockHeader>) -> int
    decreases s.len(),
{
    if s.len() == 0 {
        0
    } else {
        HEADER_SIZE + s[0].allocated_size + used(s.drop_first())
    }
}

/// The blocks follow each other in address order, each aligned to 8 bytes, not past `end`,
/// and each in use for no more than it owns.
pub open spec fn chain_ok(s: Seq<BlockHeader>, end: int) -> bool {
    &&& forall|i: int| 0 <= i < s.len() ==> (#[trigger] s[i]).allocated_size <= s[i].size
    &&& forall|i: int| 0 <= i < s.len() ==> (#[trigger] s[i]).header % 8 == 0
    &&& forall|i: int| 0 <= i < s.len() - 1 ==> #[trigger] block_end(s[i]) <= s[i + 1].header
    &&& s.len() > 0 ==> block_end(s[s.len() - 1]) <= end
}

/// The end of a chunk's pages.
pub open spec fn chunk_end(c: ChunkView) -> int {
    c.addr + c.page_count * PAGE_SIZE
}

/// A chunk is well formed: its first block follows its header, its blocks are chained
/// within its pages, and its free counter is what headers and data in use leave.
pub open spec fn chunk_wf(c: ChunkView) -> bool {
    &&& c.blocks.len() >= 1
    &&& c.addr % PAGE_SIZE as u64 == 0
    &&& c.page_count >= 1
    &&& c.page_count * PAGE_SIZE <= 0x1_0000_0000
    &&& chunk_end(c) <= u64::MAX
    &&& c.blocks[0].header == c.addr + HEADER_SIZE
    &&& chain_ok(c.blocks, chunk_end(c))
    &&& c.free == c.page_count * PAGE_SIZE - HEADER_SIZE - used(c.blocks)
}

pub proof fn lemma_used_update(s: Seq<BlockHeader>, i: int, x: BlockHeader)
    requires
        0 <= i < s.len(),
    ensures
        used(s.update(i, x)) == used(s) - s[i].allocated_size + x.allocated_size,
    decreases s.len(),
{
    if i > 0 {
        lemma_used_update(s.drop_first(), i - 1, x);
        assert(s.update(i, x).drop_first() =~= s.drop_first().update(i - 1, x));
    } else {
        assert(s.update(i, x).drop_first() =~= s.drop_first());
    }
}

pub proof fn lemma_used_insert(s: Seq<BlockHeader>, i: int, x: BlockHeader)
    requires
        0 <= i <= s.len(),
    ensures
        used(s.insert(i, x)) == used(s) + HEADER_SIZE + x.allocated_size,
    decreases s.len(),
{
    if i == 0 {
        assert(s.insert(0, x).drop_first() =~= s);
    } else {
        lemma_used_insert(s.drop_first(), i - 1, x);
        assert(s.insert(i, x).drop_first() =~= s.drop_first().insert(i - 1, x));
    }
}

pub proof fn lemma_used_remove(s: Seq<BlockHeader>, i: int)
    requires
        0 <= i < s.len(),
    ensures
        used(s.remove(i)) == used(s) - HEADER_SIZE - s[i].allocated_size,
    decreases s.len(),
{
    if i == 0 {
        assert(s.remove(0) =~= s.drop_first());
    } else {
        lemma_used_remove(s.drop_first(), i - 1);
        assert(s.remove(i).drop_first() =~= s.drop_first().remove(i - 1));
    }
}

/// What headers and data in use take fits between the first block and the end.
pub proof fn lemma_used_bound(s: Seq<BlockHeader>, end: int)
    requires
        s.len() > 0,
        chain_ok(s, end),
    ensures
        used(s) <= end - s[0].header,
    decreases s.len(),
{
    let t = s.drop_first();
    assert(s[0].allocated_size <= s[0].size);
    assert(used(s) == HEADER_SIZE + s[0].allocated_size + used(t));
    if t.len() == 0 {
        assert(used(t) == 0);
        assert(block_end(s[s.len() - 1]) <= end);
    } else {
        assert(t[t.len() - 1] == s[s.len() - 1]);
        assert(block_end(s[s.len() - 1]) <= end);
        assert forall|i: int| 0 <= i < t.len() - 1 implies #[trigger] block_end(t[i]) <= t[i + 1].header by {
            assert(block_end(s[i + 1]) <= s[i + 2].header);
        }
        assert forall|i: int| 0 <= i < t.len() implies (#[trigger] t[i]).allocated_size <= t[i].size by {
            assert(s[i + 1].allocated_size <= s[i + 1].size);
        }
        assert forall|i: int| 0 <= i < t.len() implies (#[trigger] t[i]).header % 8 == 0 by {
            assert(s[i + 1].header % 8 == 0);
        }
        assert(block_end(s[0]) <= s[1].header);
        lemma_used_bound(t, end);
    }
}

/// The headers of a chain increase, and a block's bytes end before a later block's header.
pub proof fn lemma_chain_order(s: Seq<BlockHeader>, end: int, i: int, j: int)
    requires
        chain_ok(s, end),
        0 <= i < j < s.len(),
    ensures
        block_end(s[i]) <= s[j].header,
    decreases j - i,
{
    assert(block_end(s[i]) <= s[i + 1].header);
    if j > i + 1 {
        lemma_chain_order(s, end, i + 1, j);
        assert(s[i + 1].allocated_size <= s[i + 1].size);
    }
}

/// The block that `take_block` hands out.
pub open spec fn taken_index(c: ChunkView, i: int) -> int {
    if c.blocks[i].allocated_size == 0 {
        i
    } else {
        i + 1
    }
}

proof fn lemma_pad(d: int)
    requires
        d >= 0,
    ensures
        0 <= (8 - d % 8) % 8 < 8,
        (d + (8 - d % 8) % 8) % 8 == 0,
{
}

/// Taking a block that fits keeps the chunk well formed, and hands out the data, aligned to
/// 8 bytes, of a block in use for exactly the bytes asked.
pub proof fn lemma_take_block(c: ChunkView, i: int, size: nat)
    requires
        chunk_wf(c),
        0 <= i < c.blocks.len(),
        fits(c.blocks[i], size),
        0 < size <= u32::MAX,
    ensures
        chunk_wf(take_block(c, i, size).0),
        take_block(c, i, size).0.free >= 0,
        take_block(c, i, size).0.addr == c.addr,
        take_block(c, i, size).0.page_count == c.page_count,
        ({
            let (c2, a) = take_block(c, i, size);
            let k = taken_index(c, i);
            &&& 0 <= k < c2.blocks.len()
            &&& a == data_of(c2.blocks[k])
            &&& c2.blocks[k].allocated_size == size
            &&& a % 8 == 0
        }),
{
    let s = c.blocks;
    let b = s[i];
    let end = chunk_end(c);
    assert(b.allocated_size <= b.size);
    assert(b.header % 8 == 0);
    assert(block_end(b) <= end) by {
        if i < s.len() - 1 {
            assert(block_end(s[i]) <= s[i + 1].header);
            if i + 1 < s.len() - 1 {
                lemma_chain_order(s, end, i + 1, s.len() - 1);
            }
            assert(s[s.len() - 1].allocated_size <= s[s.len() - 1].size);
        }
    }
    if b.allocated_size == 0 {
        let nb = BlockHeader { allocated_size: size as u32, ..b };
        let s2 = s.update(i, nb);
        lemma_used_update(s, i, nb);
        assert forall|k: int| 0 <= k < s2.len() - 1 implies #[trigger] block_end(s2[k])
            <= s2[k + 1].header by {
            assert(block_end(s[k]) <= s[k + 1].header);
        }
        assert forall|k: int| 0 <= k < s2.len() implies (#[trigger] s2[k]).allocated_size
            <= s2[k].size by {
            assert(s[k].allocated_size <= s[k].size);
        }
        assert forall|k: int| 0 <= k < s2.len() implies (#[trigger] s2[k]).header % 8 == 0 by {
            assert(s[k].header % 8 == 0);
        }
        assert(block_end(s[s.len() - 1]) <= end);
        assert(chain_ok(s2, end));
    } else {
        lemma_pad(data_end(b));
        let p = pad(b);
        let h = data_end(b) + p;
        let room = split_room(b);
        assert(room == b.size - b.allocated_size - HEADER_SIZE - p);
        let b1 = BlockHeader { size: b.allocated_size, ..b };
        let nb = BlockHeader { header: h as u64, size: room as u32, allocated_size: size as u32 };
        let s1 = s.update(i, b1);
        let s2 = s1.insert(i + 1, nb);
        lemma_used_update(s, i, b1);
        lemma_used_insert(s1, i + 1, nb);
        assert(block_end(nb) == block_end(b));
        assert(h % 8 == 0);
        assert forall|k: int| 0 <= k < s2.len() - 1 implies #[trigger] block_end(s2[k])
            <= s2[k + 1].header by {
            if k < i {
                assert(block_end(s[k]) <= s[k + 1].header);
            } else if k == i {
            } else if k == i + 1 {
                assert(block_end(s[i]) <= s[i + 1].header);
            } else {
                assert(block_end(s[k - 1]) <= s[k].header);
            }
        }
        assert forall|k: int| 0 <= k < s2.len() implies (#[trigger] s2[k]).allocated_size
            <= s2[k].size by {
            if k < i + 1 {
                assert(s[k].allocated_size <= s[k].size);
            } else if k > i + 1 {
                assert(s[k - 1].allocated_size <= s[k - 1].size);
            }
        }
        assert forall|k: int| 0 <= k < s2.len() implies (#[trigger] s2[k]).header % 8 == 0 by {
            if k < i + 1 {
                assert(s[k].header % 8 == 0);
            } else if k > i + 1 {
                assert(s[k - 1].header % 8 == 0);
            }
        }
        if i == s.len() - 1 {
            assert(s2[s2.len() - 1] == nb);
        } else {
            assert(s2[s2.len() - 1] == s[s.len() - 1]);
        }
        assert(chain_ok(s2, end));
        assert(s2[0].header == c.addr + HEADER_SIZE);
    }
    let c2 = take_block(c, i, size).0;
    lemma_used_bound(c2.blocks, end);
}

/// The index of the first block from `i` whose data starts at `ptr`.
pub open spec fn first_data(bs: Seq<BlockHeader>, ptr: int, i: int) -> Option<int>
    decreases bs.len() - i,
{
    if i < 0 || i >= bs.len() {
        None
    } else if data_of(bs[i]) == ptr {
        Some(i)
    } else {
        first_data(bs, ptr, i + 1)
    }
}

proof fn lemma_first_data(bs: Seq<BlockHeader>, ptr: int, i: int)
    ensures
        first_data(bs, ptr, i) matches Some(j) ==> i <= j < bs.len() && data_of(bs[j]) == ptr,
    decreases bs.len() - i,
{
    if 0 <= i < bs.len() && data_of(bs[i]) != ptr {
        lemma_first_data(bs, ptr, i + 1);
    }
}

/// The first chunk from `k` with a block whose data starts at `ptr`, and that block.
pub open spec fn find_block(v: Seq<ChunkView>, ptr: int, k: int) -> Option<(int, int)>
    decreases v.len() - k,
{
    if k < 0 || k >= v.len() {
        None
    } else {
        match first_data(v[k].blocks, ptr, 0) {
            Some(i) => Some((k, i)),
            None => find_block(v, ptr, k + 1),
        }
    }
}

/// The chunk after the `size` bytes of its block `i` are given back, and whether the chunk
/// is then a single hole: the block becomes a hole, and is merged into the block before it,
/// if any.
pub open spec fn release_block(c: ChunkView, i: int, size: nat) -> (ChunkView, bool) {
    let b = c.blocks[i];
    if i > 0 {
        let p = c.blocks[i - 1];
        let p2 = BlockHeader { size: (p.size + b.size + HEADER_SIZE) as u32, ..p };
        (
            ChunkView {
                free: c.free + size + HEADER_SIZE,
                blocks: c.blocks.update(i - 1, p2).remove(i),
                ..c
            },
            p.allocated_size == 0 && i == 1 && c.blocks.len() == 2,
        )
    } else {
        (
            ChunkView {
                free: c.free + size,
                blocks: c.blocks.update(0, BlockHeader { allocated_size: 0, ..b }),
                ..c
            },
            c.blocks.len() == 1,
        )
    }
}

/// Giving a block back keeps the chunk well formed.
pub proof fn lemma_release_block(c: ChunkView, i: int, size: nat)
    requires
        chunk_wf(c),
        0 <= i < c.blocks.len(),
        c.blocks[i].allocated_size == size,
    ensures
        chunk_wf(release_block(c, i, size).0),
        release_block(c, i, size).0.free <= c.page_count * PAGE_SIZE,
{
    let s = c.blocks;
    let b = s[i];
    let end = chunk_end(c);
    if i > 0 {
        let p = s[i - 1];
        assert(block_end(p) <= b.header);
        assert(p.allocated_size <= p.size);
        assert(block_end(b) <= end) by {
            if i < s.len() - 1 {
                assert(block_end(s[i]) <= s[i + 1].header);
                if i + 1 < s.len() - 1 {
                    lemma_chain_order(s, end, i + 1, s.len() - 1);
                }
                assert(s[s.len() - 1].allocated_size <= s[s.len() - 1].size);
            }
        }
        assert(p.header >= c.addr + HEADER_SIZE) by {
            if i - 1 > 0 {
                lemma_chain_order(s, end, 0, i - 1);
                assert(s[0].allocated_size <= s[0].size);
            }
        }
        let p2 = BlockHeader { size: (p.size + b.size + HEADER_SIZE) as u32, ..p };
        assert(p.size + b.size + HEADER_SIZE <= u32::MAX);
        let s1 = s.update(i - 1, p2);
        let s2 = s1.remove(i);
        lemma_used_update(s, i - 1, p2);
        lemma_used_remove(s1, i);
        assert forall|k: int| 0 <= k < s2.len() - 1 implies #[trigger] block_end(s2[k])
            <= s2[k + 1].header by {
            if k < i - 1 {
                assert(block_end(s[k]) <= s[k + 1].header);
            } else if k == i - 1 {
                assert(block_end(s[i]) <= s[i + 1].header);
            } else {
                assert(block_end(s[k + 1]) <= s[k + 2].header);
            }
        }
        assert forall|k: int| 0 <= k < s2.len() implies (#[trigger] s2[k]).allocated_size
            <= s2[k].size by {
            if k < i {
                assert(s[k].allocated_size <= s[k].size);
            } else {
                assert(s[k + 1].allocated_size <= s[k + 1].size);
            }
        }
        assert forall|k: int| 0 <= k < s2.len() implies (#[trigger] s2[k]).header % 8 == 0 by {
            if k < i {
                assert(s[k].header % 8 == 0);
            } else {
                assert(s[k + 1].header % 8 == 0);
            }
        }
        if i == s.len() - 1 {
            assert(s2[s2.len() - 1] == p2);
        } else {
            assert(s2[s2.len() - 1] == s[s.len() - 1]);
            assert(block_end(s[s.len() - 1]) <= end);
        }
        assert(chain_ok(s2, end));
        if i - 1 == 0 {
            assert(s2[0] == p2);
        } else {
            assert(s2[0] == s[0]);
        }
    } else {
        let b2 = BlockHeader { allocated_size: 0, ..b };
        let s2 = s.update(0, b2);
        lemma_used_update(s, 0, b2);
        assert forall|k: int| 0 <= k < s2.len() - 1 implies #[trigger] block_end(s2[k])
            <= s2[k + 1].header by {
            assert(block_end(s[k]) <= s[k + 1].header);
        }
        assert forall|k: int| 0 <= k < s2.len() implies (#[trigger] s2[k]).allocated_size
            <= s2[k].size by {
            assert(s[k].allocated_size <= s[k].size);
        }
        assert forall|k: int| 0 <= k < s2.len() implies (#[trigger] s2[k]).header % 8 == 0 by {
            assert(s[k].header % 8 == 0);
        }
        assert(block_end(s[s.len() - 1]) <= end);
        assert(chain_ok(s2, end));
    }
    let c2 = release_block(c, i, size).0;
    lemma_used_bound(c2.blocks, end);
    assert(used(c2.blocks) >= 0) by {
        lemma_used_nonneg(c2.blocks);
    }
}

proof fn lemma_used_nonneg(s: Seq<BlockHeader>)
    ensures
        used(s) >= 0,
    decreases s.len(),
{
    if s.len() > 0 {
        lemma_used_nonneg(s.drop_first());
    }
}

/// The blocks of a well formed chunk own disjoint bytes within its pages: the data in use
/// of a block ends before the header of any later block, and every block ends within the
/// chunk.
pub proof fn lemma_blocks_disjoint(c: ChunkView, i: int, j: int)
    requires
        chunk_wf(c),
        0 <= i < j < c.blocks.len(),
    ensures
        data_of(c.blocks[i]) + c.blocks[i].allocated_size <= c.blocks[j].header,
        c.addr + HEADER_SIZE <= c.blocks[i].header,
        data_of(c.blocks[j]) + c.blocks[j].allocated_size <= chunk_end(c),
{
    let s = c.blocks;
    let end = chunk_end(c);
    lemma_chain_order(s, end, i, j);
    assert(s[i].allocated_size <= s[i].size);
    assert(s[j].allocated_size <= s[j].size);
    if i > 0 {
        lemma_chain_order(s, end, 0, i);
        assert(s[0].allocated_size <= s[0].size);
    }
    if j < s.len() - 1 {
        lemma_chain_order(s, end, j, s.len() - 1);
        assert(s[s.len() - 1].allocated_size <= s[s.len() - 1].size);
    }
    assert(block_end(s[s.len() - 1]) <= end);
}

/// Giving back the only allocation of a new chunk makes it a single hole again, as it was
/// made: the chunk leaves the heap.
pub proof fn lemma_alloc_then_dealloc_fresh(addr: u64, size: nat)
    requires
        0 < size <= u32::MAX - PAGE_SIZE,
        addr % PAGE_SIZE as u64 == 0,
        addr + chunk_pages(size) * PAGE_SIZE <= u64::MAX,
    ensures
        ({
            let c = new_chunk(addr, size);
            let (c2, a) = take_block(c, 0, size);
            let (c3, unused) = release_block(c2, 0, size);
            &&& a == addr + 2 * HEADER_SIZE
            &&& unused
            &&& c3 == c
        }),
{
    lemma_new_chunk(addr, size);
    let c = new_chunk(addr, size);
    let c2 = take_block(c, 0, size).0;
    let c3 = release_block(c2, 0, size).0;
    assert(c3.blocks =~= c.blocks);
}

/// A chunk of the heap; see `ChunkView`.
pub struct Chunk {
    addr: u64,
    page_count: usize,
    free: u64,
    blocks: Vec<BlockHeader>,
}

impl Chunk {
    pub closed spec fn view(&self) -> ChunkView {
        ChunkView {
            addr: self.addr,
            page_count: self.page_count as nat,
            free: self.free as int,
            blocks: self.blocks@,
        }
    }
}

/// Whether block `b`, in a well formed chunk, can hold `size` bytes.
fn block_fits(b: BlockHeader, size: u32, Ghost(end): Ghost<int>) -> (r: bool)
    requires
        b.allocated_size <= b.size,
        block_end(b) <= end <= u64::MAX,
    ensures
        r == fits(b, size as nat),
{
    if b.allocated_size == 0 {
        b.size >= size
    } else {
        let de = b.header + HEADER_SIZE + b.allocated_size as u64;
        let p = (8 - de % 8) % 8;
        let u = b.size - b.allocated_size;
        let room = u.saturating_sub((HEADER_SIZE + p) as u32);
        room >= size
    }
}

/// The first block of `c` that can hold `size` bytes.
fn find_fit(c: &Chunk, size: u32) -> (r: Option<usize>)
    requires
        chunk_wf(c@),
    ensures
        r matches Some(i) ==> first_fit(c@.blocks, size as nat, 0) == Some(i as int),
        r is None ==> first_fit(c@.blocks, size as nat, 0) is None,
{
    let ghost end = chunk_end(c@);
    let mut i: usize = 0;
    while i < c.blocks.len()
        invariant
            chunk_wf(c@),
            end == chunk_end(c@),
            i <= c.blocks.len(),
            first_fit(c@.blocks, size as nat, 0) == first_fit(c@.blocks, size as nat, i as int),
        decreases c.blocks.len() - i,
    {
        let b = c.blocks[i];
        proof {
            let s = c@.blocks;
            assert(s[i as int].allocated_size <= s[i as int].size);
            if i + 1 < s.len() {
                assert(block_end(s[i as int]) <= s[i + 1].header);
                if i + 1 < s.len() - 1 {
                    lemma_chain_order(s, end, i + 1, s.len() - 1);
                }
                assert(s[s.len() - 1].allocated_size <= s[s.len() - 1].size);
            }
        }
        if block_fits(b, size, Ghost(end)) {
            return Some(i);
        }
        i += 1;
    }
    None
}

/// The first block of `c` whose data starts at `ptr`.
fn find_data(c: &Chunk, ptr: u64) -> (r: Option<usize>)
    requires
        chunk_wf(c@),
    ensures
        r matches Some(i) ==> first_data(c@.blocks, ptr as int, 0) == Some(i as int),
        r is None ==> first_data(c@.blocks, ptr as int, 0) is None,
{
    let ghost end = chunk_end(c@);
    let mut i: usize = 0;
    while i < c.blocks.len()
        invariant
            chunk_wf(c@),
            end == chunk_end(c@),
            i <= c.blocks.len(),
            first_data(c@.blocks, ptr as int, 0) == first_data(c@.blocks, ptr as int, i as int),
        decreases c.blocks.len() - i,
    {
        let b = c.blocks[i];
        proof {
            let s = c@.blocks;
            assert(s[i as int].allocated_size <= s[i as int].size);
            if i + 1 < s.len() {
                assert(block_end(s[i as int]) <= s[i + 1].header);
                if i + 1 < s.len() - 1 {
                    lemma_chain_order(s, end, i + 1, s.len() - 1);
                }
                assert(s[s.len() - 1].allocated_size <= s[s.len() - 1].size);
            }
        }
        if b.header + HEADER_SIZE == ptr {
            return Some(i);
        }
        i += 1;
    }
    None
}

/// Give back the `size` bytes of the block `i` of `c`; see `release_block`.
fn release(c: &mut Chunk, i: usize, size: u32) -> (r: bool)
    requires
        chunk_wf(old(c)@),
        i < old(c)@.blocks.len(),
        old(c)@.blocks[i as int].allocated_size == size,
    ensures
        (final(c)@, r) == release_block(old(c)@, i as int, size as nat),
{
    proof {
        lemma_release_block(c@, i as int, size as nat);
    }
    let ghost s = c@.blocks;
    let b = c.blocks[i];
    if i > 0 {
        let p = c.blocks[i - 1];
        proof {
            let end = chunk_end(c@);
            assert(block_end(s[i - 1]) <= s[i as int].header);
            assert(block_end(b) <= end) by {
                if i < s.len() - 1 {
                    assert(block_end(s[i as int]) <= s[i + 1].header);
                    if i + 1 < s.len() - 1 {
                        lemma_chain_order(s, end, i + 1, s.len() - 1);
                    }
                    assert(s[s.len() - 1].allocated_size <= s[s.len() - 1].size);
                }
            }
            assert(p.header >= c@.addr + HEADER_SIZE) by {
                if i - 1 > 0 {
                    lemma_chain_order(s, end, 0, i - 1);
                    assert(s[0].allocated_size <= s[0].size);
                }
            }
        }
        let merged = p.size + b.size + HEADER_SIZE as u32;
        c.blocks.set(i - 1, BlockHeader { size: merged, ..p });
        c.blocks.remove(i);
        c.free = c.free + size as u64 + HEADER_SIZE;
        p.allocated_size == 0 && i == 1 && c.blocks.len() == 1
    } else {
        c.blocks.set(0, BlockHeader { allocated_size: 0, ..b });
        c.free = c.free + size as u64;
        c.blocks.len() == 1
    }
}

/// Take `size` bytes from the block `i` of `c`; see `take_block`.
fn take(c: &mut Chunk, i: usize, size: u32) -> (r: u64)
    requires
        chunk_wf(old(c)@),
        i < old(c)@.blocks.len(),
        fits(old(c)@.blocks[i as int], size as nat),
        size > 0,
    ensures
        (final(c)@, r) == take_block(old(c)@, i as int, size as nat),
{
    proof {
        lemma_take_block(c@, i as int, size as nat);
        lemma_used_bound(c@.blocks, chunk_end(c@));
    }
    let ghost end = chunk_end(c@);
    let b = c.blocks[i];
    proof {
        let s = c@.blocks;
        assert(s[i as int].allocated_size <= s[i as int].size);
        if i + 1 < s.len() {
            assert(block_end(s[i as int]) <= s[i + 1].header);
            if i + 1 < s.len() - 1 {
                lemma_chain_order(s, end, i + 1, s.len() - 1);
            }
            assert(s[s.len() - 1].allocated_size <= s[s.len() - 1].size);
        }
    }
    if b.allocated_size == 0 {
        c.blocks.set(i, BlockHeader { allocated_size: size, ..b });
        c.free = c.free - size as u64;
        b.header + HEADER_SIZE
    } else {
        let de = b.header + HEADER_SIZE + b.allocated_size as u64;
        let p = (8 - de % 8) % 8;
        let u = b.size - b.allocated_size;
        let room = u.saturating_sub((HEADER_SIZE + p) as u32);
        let h = de + p;
        c.blocks.set(i, BlockHeader { size: b.allocated_size, ..b });
        assert(i < c.blocks.len());
        c.blocks.insert(i + 1, BlockHeader { header: h, size: room, allocated_size: size });
        c.free = c.free - size as u64 - HEADER_SIZE;
        h + HEADER_SIZE
    }
}

/// A fresh chunk for an allocation of `size` bytes is well formed and can hold it.
proof fn lemma_new_chunk(addr: u64, size: nat)
    requires
        0 < size <= u32::MAX - PAGE_SIZE,
        addr % PAGE_SIZE as u64 == 0,
        addr + chunk_pages(size) * PAGE_SIZE <= u64::MAX,
    ensures
        chunk_wf(new_chunk(addr, size)),
        chunk_fit(new_chunk(addr, size), size) == Some(0int),
        new_chunk(addr, size).blocks[0].allocated_size == 0,
{
    let c = new_chunk(addr, size);
    let pc = chunk_pages(size);
    let n: int = (size + 2 * HEADER_SIZE + PAGE_SIZE - 1) / (PAGE_SIZE as int);
    assert(n * 4096 <= size + 64 + 4095 && n * 4096 >= size + 64) by (nonlinear_arith)
        requires
            n == (size + 64 + 4095) / 4096,
    ;
    assert(pc * PAGE_SIZE <= 0x1_0000_0000 && pc * PAGE_SIZE >= size + 2 * HEADER_SIZE);
    let free = pc * PAGE_SIZE - 2 * HEADER_SIZE;
    assert(free as u32 == free);
    assert(((addr + 32) as u64) == addr + 32);
    assert((addr + 32) % 8 == 0) by (nonlinear_arith)
        requires
            addr % 4096 == 0,
    ;
    assert(c.blocks[0].header % 8 == 0);
    assert(used(c.blocks.drop_first()) == 0);
    assert(chain_ok(c.blocks, chunk_end(c)));
    reveal_with_fuel(first_fit, 2);
}

/// The heap: chunks of pages from a page allocator, carved into blocks.
pub struct Allocator {
    chunks: Vec<Chunk>,
}

impl Allocator {
    /// The chunks, from the first one searched.
    pub closed spec fn view(&self) -> Seq<ChunkView> {
        self.chunks@.map_values(|c: Chunk| c@)
    }

    pub open spec fn wf(&self) -> bool {
        forall|k: int| 0 <= k < self@.len() ==> chunk_wf(#[trigger] self@[k])
    }

    /// An empty heap.
    pub fn new() -> (r: Self)
        ensures
            r@ == Seq::<ChunkView>::empty(),
            r.wf(),
    {
        let r = Allocator { chunks: Vec::new() };
        assert(r@ =~= Seq::<ChunkView>::empty());
        r
    }

    /// A chunk for an allocation of `size` bytes, from pages of `pages`; `None` when it has
    /// none left.
    fn alloc_chunk<K: MemoryKind, P: PageAllocator<K>>(pages: &mut P, size: usize) -> (r: Option<
        Chunk,
    >)
        requires
            old(pages).inv(),
            0 < size <= u32::MAX - PAGE_SIZE,
        ensures
            final(pages).inv(),
            r is Some <==> old(pages).has_room(chunk_pages(size as nat) as usize),
            r matches Some(c) ==> !old(pages).allocated(c@.addr) && final(pages).allocated(c@.addr),
            forall|x: u64| old(pages).allocated(x) ==> final(pages).allocated(x),
            r matches Some(c) ==> c@ == new_chunk(c@.addr, size as nat) && c@.addr % PAGE_SIZE as u64
                == 0 && c@.addr + chunk_pages(size as nat) * PAGE_SIZE <= u64::MAX,
    {
        let total = size as u64 + 2 * HEADER_SIZE;
        let n = if total % PAGE_SIZE as u64 == 0 {
            total / PAGE_SIZE as u64
        } else {
            total / PAGE_SIZE as u64 + 1
        };
        let page_count: usize = if n < MIN_PAGE_COUNT as u64 {
            MIN_PAGE_COUNT
        } else {
            n as usize
        };
        assert(page_count == chunk_pages(size as nat));
        let a = match pages.allocate(page_count) {
            Some(a) => a,
            None => return None,
        };
        let addr = a.addr();
        let free = page_count as u64 * PAGE_SIZE as u64 - 2 * HEADER_SIZE;
        let mut blocks: Vec<BlockHeader> = Vec::new();
        blocks.push(BlockHeader { header: addr + HEADER_SIZE, size: free as u32, allocated_size: 0 });
        let c = Chunk { addr, page_count, free, blocks };
        proof {
            lemma_new_chunk(addr, size as nat);
            assert(c@.blocks =~= new_chunk(addr, size as nat).blocks);
        }
        Some(c)
    }

    /// Allocate `size` bytes aligned to `align`: the first block, in chunk order, that can
    /// hold them is taken (see `take_block`); when none can, a new chunk is added at the end
    /// and its hole is taken. `None` when the page allocator has no pages for a new chunk.
    pub fn alloc_bytes<K: MemoryKind, P: PageAllocator<K>>(
        &mut self,
        pages: &mut P,
        size: usize,
        align: usize,
    ) -> (r: Option<u64>)
        requires
            old(self).wf(),
            old(pages).inv(),
            0 < size <= u32::MAX - PAGE_SIZE,
            align == 1 || align == 2 || align == 4 || align == 8,
        ensures
            final(self).wf(),
            final(pages).inv(),
            match first_chunk(old(self)@, size as nat, 0) {
                Some(k) => {
                    let (c2, a) = take_block(
                        old(self)@[k],
                        chunk_fit(old(self)@[k], size as nat).unwrap(),
                        size as nat,
                    );
                    &&& r == Some(a)
                    &&& final(self)@ == old(self)@.update(k, c2)
                    &&& *final(pages) == *old(pages)
                },
                None => {
                    &&& r is Some <==> old(pages).has_room(chunk_pages(size as nat) as usize)
                    &&& forall|x: u64| old(pages).allocated(x) ==> final(pages).allocated(x)
                    &&& match r {
                        Some(a) => {
                            let v = final(self)@;
                            &&& v.len() == old(self)@.len() + 1
                            &&& v.subrange(0, old(self)@.len() as int) == old(self)@
                            &&& v.last() == take_block(new_chunk(v.last().addr, size as nat), 0, size as nat).0
                            &&& a == v.last().addr + 2 * HEADER_SIZE
                            &&& !old(pages).allocated(v.last().addr)
                            &&& final(pages).allocated(v.last().addr)
                        },
                        None => final(self)@ == old(self)@,
                    }
                },
            },
            r matches Some(a) ==> a % align as u64 == 0,
    {
        let ghost old_v = self@;
        let n = self.chunks.len();
        assert(self@.len() == n);
        let mut k: usize = 0;
        while k < n
            invariant
                self@ == old_v,
                old_v == old(self)@,
                self.chunks@.len() == n,
                old_v.len() == n,
                self.wf(),
                k <= n,
                first_chunk(old_v, size as nat, 0) == first_chunk(old_v, size as nat, k as int),
                0 < size <= u32::MAX - PAGE_SIZE,
                align == 1 || align == 2 || align == 4 || align == 8,
                pages.inv(),
                *pages == *old(pages),
            decreases n - k,
        {
            assert(self@[k as int] == self.chunks@[k as int]@);
            assert(chunk_wf(self@[k as int]));
            let fit = if self.chunks[k].free >= size as u64 {
                find_fit(&self.chunks[k], size as u32)
            } else {
                None
            };
            assert(fit matches Some(i) ==> chunk_fit(old_v[k as int], size as nat) == Some(i as int));
            assert(fit is None ==> chunk_fit(old_v[k as int], size as nat) is None);
            match fit {
                Some(i) => {
                    let ghost before = self.chunks@;
                    let mut ch = self.chunks.remove(k);
                    assert(ch@ == old_v[k as int]);
                    proof {
                        lemma_first_fit(ch@.blocks, size as nat, 0);
                        lemma_take_block(ch@, i as int, size as nat);
                    }
                    let a = take(&mut ch, i, size as u32);
                    self.chunks.insert(k, ch);
                    proof {
                        assert(self@ =~= old_v.update(k as int, ch@));
                        assert forall|j: int| 0 <= j < self@.len() implies chunk_wf(#[trigger] self@[j]) by {
                            if j != k {
                                assert(self@[j] == old_v[j]);
                            }
                        }
                        assert(a % 8 == 0);
                        lemma_aligned(a, align);
                    }
                    return Some(a);
                },
                None => {},
            }
            k += 1;
        }
        let mut c = match Self::alloc_chunk(pages, size) {
            Some(c) => c,
            None => return None,
        };
        proof {
            lemma_new_chunk(c@.addr, size as nat);
            lemma_take_block(c@, 0, size as nat);
        }
        let a = take(&mut c, 0, size as u32);
        self.chunks.push(c);
        proof {
            assert(self@ =~= old_v.push(c@));
            assert forall|j: int| 0 <= j < self@.len() implies chunk_wf(#[trigger] self@[j]) by {
                if j < n {
                    assert(self@[j] == old_v[j]);
                }
            }
            assert(self@.subrange(0, n as int) =~= old_v);
            lemma_aligned(a, align);
        }
        Some(a)
    }

    /// Give back the `size` bytes at `ptr`, which an allocation of that size handed out; see
    /// `release_block`. When its chunk is then a single hole, the chunk leaves the heap (and
    /// with the first chunk, every chunk does), and its address and page count are returned
    /// for the caller to give its pages back.
    pub fn dealloc(&mut self, ptr: u64, size: usize) -> (r: Option<(u64, usize)>)
        requires
            old(self).wf(),
            size > 0,
            find_block(old(self)@, ptr as int, 0) matches Some((k, i)) && old(self)@[k].blocks[i].allocated_size
                == size,
        ensures
            final(self).wf(),
            ({
                let (k, i) = find_block(old(self)@, ptr as int, 0).unwrap();
                let c = old(self)@[k];
                let (c2, unused) = release_block(c, i, size as nat);
                if unused {
                    &&& r == Some((c.addr, c.page_count as usize))
                    &&& final(self)@ == if k == 0 {
                        Seq::<ChunkView>::empty()
                    } else {
                        old(self)@.remove(k)
                    }
                } else {
                    &&& r is None
                    &&& final(self)@ == old(self)@.update(k, c2)
                }
            }),
    {
        let ghost old_v = self@;
        let n = self.chunks.len();
        assert(self@.len() == n);
        let mut k: usize = 0;
        let mut found: Option<usize> = None;
        while k < n
            invariant_except_break
                self@ == old_v,
                old_v == old(self)@,
                self.chunks@.len() == n,
                old_v.len() == n,
                self.wf(),
                k <= n,
                find_block(old_v, ptr as int, 0) == find_block(old_v, ptr as int, k as int),
                found is None,
            ensures
                self@ == old_v,
                old_v == old(self)@,
                self.chunks@.len() == n,
                self.wf(),
                found matches Some(i) ==> k < n && find_block(old_v, ptr as int, 0) == Some((k as int, i as int))
                    && first_data(old_v[k as int].blocks, ptr as int, 0) == Some(i as int),
                found is None ==> find_block(old_v, ptr as int, 0) is None,
            decreases n - k,
        {
            assert(self@[k as int] == self.chunks@[k as int]@);
            assert(chunk_wf(self@[k as int]));
            found = find_data(&self.chunks[k], ptr);
            if found.is_some() {
                break;
            }
            k += 1;
        }
        let i = found.unwrap();
        let ghost before = self.chunks@;
        let mut ch = self.chunks.remove(k);
        assert(ch@ == old_v[k as int]);
        proof {
            lemma_first_data(ch@.blocks, ptr as int, 0);
            lemma_release_block(ch@, i as int, size as nat);
        }
        assert(size <= u32::MAX);
        let unused = release(&mut ch, i, size as u32);
        if unused {
            let res = (ch.addr, ch.page_count);
            if k == 0 {
                self.chunks = Vec::new();
                assert(self@ =~= Seq::<ChunkView>::empty());
            } else {
                assert(self@ =~= old_v.remove(k as int));
                assert forall|j: int| 0 <= j < self@.len() implies chunk_wf(#[trigger] self@[j]) by {
                    if j < k {
                        assert(self@[j] == old_v[j]);
                    } else {
                        assert(self@[j] == old_v[j + 1]);
                    }
                }
            }
            return Some(res);
        }
        self.chunks.insert(k, ch);
        proof {
            assert(self@ =~= old_v.update(k as int, ch@));
            assert forall|j: int| 0 <= j < self@.len() implies chunk_wf(#[trigger] self@[j]) by {
                if j != k {
                    assert(self@[j] == old_v[j]);
                }
            }
        }
        None
    }
}

} // verus!
