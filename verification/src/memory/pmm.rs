use vstd::prelude::*;

use super::address::{Physical, PhysicalAddress};
use super::page_allocator::PageAllocator;
use super::constants::PAGE_SIZE;
use crate::error::{Error, MemoryError};
use super::constants::MEMORY_MAP_TYPE;

verus! {

/// Whether bit `j` (0 is the most significant bit) of byte `b` is set.
pub open spec fn byte_bit_set(b: u8, j: u8) -> bool {
    b & (0x80u8 >> j) != 0
}

/// Whether page `i` is marked as used in the bitmap `bytes`.
pub open spec fn bit_used(bytes: Seq<u8>, i: int) -> bool {
    byte_bit_set(bytes[i / 8], (i % 8) as u8)
}

/// The pages described by `bytes`: `true` for used, `false` for free.
pub open spec fn bits_of(bytes: Seq<u8>) -> Seq<bool> {
    Seq::new((bytes.len() * 8) as nat, |i: int| bit_used(bytes, i))
}

/// The `count` pages starting at `start` exist and are all free in `v`.
pub open spec fn run_free(v: Seq<bool>, start: int, count: int) -> bool {
    &&& 0 <= start
    &&& start + count <= v.len()
    &&& forall|i: int| start <= i < start + count ==> !v[i]
}

/// `v` where the pages `start..start + count` are set to `val`.
pub open spec fn set_range(v: Seq<bool>, start: int, count: int, val: bool) -> Seq<bool> {
    Seq::new(v.len(), |i: int| if start <= i < start + count { val } else { v[i] })
}

/// `start` is the lowest page where `count` free pages begin.
pub open spec fn is_first_fit(v: Seq<bool>, start: int, count: int) -> bool {
    &&& run_free(v, start, count)
    &&& forall|s: int| 0 <= s < start ==> !run_free(v, s, count)
}

/// No `count` contiguous free pages exist in `v`.
pub open spec fn no_fit(v: Seq<bool>, count: int) -> bool {
    forall|s: int| !run_free(v, s, count)
}

proof fn lemma_bit_ops(b: u8, k: u8, j: u8)
    by (bit_vector)
    requires
        k < 8,
        j < 8,
    ensures
        ((b | (0x80u8 >> k)) & (0x80u8 >> j) != 0) == (j == k || b & (0x80u8 >> j) != 0),
        ((b & !(0x80u8 >> k)) & (0x80u8 >> j) != 0) == (j != k && b & (0x80u8 >> j) != 0),
{
}

proof fn lemma_set_bit(b: u8, k: u8, j: u8)
    requires
        k < 8,
        j < 8,
    ensures
        ((b | (0x80u8 >> k)) & (0x80u8 >> j) != 0) == (j == k || b & (0x80u8 >> j) != 0),
{
    lemma_bit_ops(b, k, j);
}

proof fn lemma_clear_bit(b: u8, k: u8, j: u8)
    requires
        k < 8,
        j < 8,
    ensures
        ((b & !(0x80u8 >> k)) & (0x80u8 >> j) != 0) == (j != k && b & (0x80u8 >> j) != 0),
{
    lemma_bit_ops(b, k, j);
}

proof fn lemma_whole_byte(b: u8, j: u8)
    by (bit_vector)
    requires
        b == 0xFF || b == 0,
        j < 8,
    ensures
        b == 0xFF ==> b & (0x80u8 >> j) != 0,
        b == 0 ==> b & (0x80u8 >> j) == 0,
{
}

proof fn lemma_full_byte(b: u8, j: u8)
    requires
        b == 0xFF,
        j < 8,
    ensures
        b & (0x80u8 >> j) != 0,
{
    lemma_whole_byte(b, j);
}

proof fn lemma_empty_byte(b: u8, j: u8)
    requires
        b == 0,
        j < 8,
    ensures
        b & (0x80u8 >> j) == 0,
{
    lemma_whole_byte(b, j);
}

/// UEFI memory types in which the kernel may allocate.
pub const LOADER_CODE: u32 = 1;

pub const LOADER_DATA: u32 = 2;

pub const BOOT_SERVICES_CODE: u32 = 3;

pub const BOOT_SERVICES_DATA: u32 = 4;

pub const CONVENTIONAL: u32 = 7;

/// A region of the memory map handed over by the loader.
pub struct MemoryDescriptor {
    pub ty: u32,
    pub phys_start: u64,
    pub page_count: u64,
}

pub open spec fn usable_type(ty: u32) -> bool {
    ty == CONVENTIONAL || ty == BOOT_SERVICES_CODE || ty == BOOT_SERVICES_DATA || ty
        == LOADER_CODE || ty == LOADER_DATA
}

/// The first page of the region.
pub open spec fn start_page(d: MemoryDescriptor) -> int {
    d.phys_start as int / PAGE_SIZE as int
}

/// The address just after the region.
pub open spec fn desc_end(d: MemoryDescriptor) -> int {
    d.phys_start + d.page_count * PAGE_SIZE
}

/// Every region of `map` ends inside the 64 bits address space.
pub open spec fn map_fits(map: Seq<MemoryDescriptor>) -> bool {
    forall|i: int| 0 <= i < map.len() ==> desc_end(#[trigger] map[i]) <= u64::MAX
}

/// The highest end of the usable regions of `map` (0 when there are none).
pub open spec fn max_usable_end(map: Seq<MemoryDescriptor>) -> int
    decreases map.len(),
{
    if map.len() == 0 {
        0
    } else {
        let m = max_usable_end(map.drop_last());
        let d = map.last();
        if usable_type(d.ty) && desc_end(d) > m {
            desc_end(d)
        } else {
            m
        }
    }
}

/// The highest end of the usable regions bounds the end of every usable region and is the end
/// of one of them, or 0 when none is usable: the regions that are not usable play no part.
pub proof fn lemma_max_usable_end(map: Seq<MemoryDescriptor>)
    ensures
        forall|i: int| 0 <= i < map.len() && usable_type(map[i].ty) ==> desc_end(#[trigger] map[i]) <= max_usable_end(
            map,
        ),
        max_usable_end(map) == 0 || exists|i: int|
            0 <= i < map.len() && usable_type(map[i].ty) && desc_end(#[trigger] map[i]) == max_usable_end(map),
        (forall|i: int| 0 <= i < map.len() ==> !usable_type(#[trigger] map[i].ty)) ==> max_usable_end(map) == 0,
    decreases map.len(),
{
    if map.len() > 0 {
        let pre = map.drop_last();
        lemma_max_usable_end(pre);
        assert forall|i: int| 0 <= i < map.len() && usable_type(map[i].ty) implies desc_end(#[trigger] map[i])
            <= max_usable_end(map) by {
            if i < map.len() - 1 {
                assert(map[i] == pre[i]);
            }
        }
        if max_usable_end(map) != 0 {
            if max_usable_end(map) == max_usable_end(pre) {
                let i = choose|i: int|
                    0 <= i < pre.len() && usable_type(pre[i].ty) && desc_end(#[trigger] pre[i]) == max_usable_end(pre);
                assert(map[i] == pre[i]);
            } else {
                assert(desc_end(map[map.len() - 1]) == max_usable_end(map));
            }
        }
        if forall|i: int| 0 <= i < map.len() ==> !usable_type(#[trigger] map[i].ty) {
            assert forall|i: int| 0 <= i < pre.len() implies !usable_type(#[trigger] pre[i].ty) by {
                assert(map[i] == pre[i]);
            }
            assert(!usable_type(map[map.len() - 1].ty));
        }
    }
}

/// Region `d` is usable and holds at least `n` pages.
pub open spec fn has_free_space(d: MemoryDescriptor, n: int) -> bool {
    usable_type(d.ty) && d.page_count >= n
}

/// The index of the first region at or after `i` that has `n` free pages (`map.len()` if none).
pub open spec fn first_free_desc(map: Seq<MemoryDescriptor>, n: int, i: int) -> int
    decreases map.len() - i,
{
    if i < 0 || i >= map.len() {
        map.len() as int
    } else if has_free_space(map[i], n) {
        i
    } else {
        first_free_desc(map, n, i + 1)
    }
}

/// The index of the first region at or after `i` holding the memory map (`map.len()` if none).
pub open spec fn first_memory_map_desc(map: Seq<MemoryDescriptor>, i: int) -> int
    decreases map.len() - i,
{
    if i < 0 || i >= map.len() {
        map.len() as int
    } else if map[i].ty == MEMORY_MAP_TYPE {
        i
    } else {
        first_memory_map_desc(map, i + 1)
    }
}

/// Page `i` lies in a usable region among the first `k` regions of `map`.
pub open spec fn covered(map: Seq<MemoryDescriptor>, k: int, i: int) -> bool {
    exists|j: int|
        0 <= j < k && usable_type(map[j].ty) && start_page(map[j]) <= i
            < start_page(map[j]) + map[j].page_count
}

/// The bitmap of `n` pages where exactly the pages of the usable regions are free.
pub open spec fn usable_view(map: Seq<MemoryDescriptor>, n: int) -> Seq<bool> {
    Seq::new(n as nat, |i: int| !covered(map, map.len() as int, i))
}

/// The number of pages holding the bitmap for the memory map `map`.
pub open spec fn bitmap_page_count(map: Seq<MemoryDescriptor>) -> int {
    let size = max_usable_end(map) / PAGE_SIZE as int / 8;
    size / PAGE_SIZE as int + if size % PAGE_SIZE as int != 0 {
        1int
    } else {
        0
    }
}

/// The number of pages described by the bitmap for `map`.
pub open spec fn bitmap_bits(map: Seq<MemoryDescriptor>) -> int {
    bitmap_page_count(map) * PAGE_SIZE * 8
}

/// Region `d` starts on a page boundary and its pages are described by a bitmap of `n` pages.
pub open spec fn desc_in_bitmap(d: MemoryDescriptor, n: int) -> bool {
    d.phys_start % PAGE_SIZE as u64 == 0 && start_page(d) + d.page_count <= n
}

/// `map` is a memory map from which a `PhysicalMemoryManager` can be built.
pub open spec fn memory_map_supported(map: Seq<MemoryDescriptor>) -> bool {
    let n = bitmap_bits(map);
    let f = first_free_desc(map, bitmap_page_count(map), 0);
    let m = first_memory_map_desc(map, 0);
    &&& map_fits(map)
    &&& n <= usize::MAX
    &&& n * PAGE_SIZE <= u64::MAX
    &&& f < map.len()
    &&& start_page(map[f]) + bitmap_page_count(map) <= n
    &&& m < map.len()
    &&& desc_in_bitmap(map[m], n)
    &&& forall|i: int|
        0 <= i < map.len() && usable_type(#[trigger] map[i].ty) ==> desc_in_bitmap(map[i], n)
}

/// The pages a fresh `PhysicalMemoryManager` marks as used: all but the usable regions, plus the
/// pages holding the bitmap, minus the region holding the memory map.
pub open spec fn initial_view(map: Seq<MemoryDescriptor>) -> Seq<bool> {
    let n = bitmap_bits(map);
    let f = first_free_desc(map, bitmap_page_count(map), 0);
    let m = first_memory_map_desc(map, 0);
    set_range(
        set_range(
            usable_view(map, n),
            start_page(map[f]),
            bitmap_page_count(map),
            true,
        ),
        start_page(map[m]),
        map[m].page_count as int,
        false,
    )
}

/// A run of pages `from..to` that all have the state `used`.
pub struct PageRun {
    pub used: bool,
    pub from: usize,
    pub to: usize,
}

/// `runs` are, in order, the maximal runs of equal pages of `v` that are followed by a page of
/// the other state.
#[verifier::opaque]
pub open spec fn runs_prefix(v: Seq<bool>, runs: Seq<PageRun>) -> bool {
    forall|k: int|
        0 <= k < runs.len() ==> {
            let r = #[trigger] runs[k];
            &&& r.from == (if k == 0 {
                0
            } else {
                runs[k - 1].to as int
            })
            &&& r.from < r.to < v.len()
            &&& v[r.to as int] != r.used
            &&& forall|i: int| r.from <= i < r.to ==> v[i] == r.used
        }
}

proof fn lemma_runs_push(v: Seq<bool>, runs: Seq<PageRun>, r: PageRun)
    requires
        runs_prefix(v, runs),
        r.from == (if runs.len() == 0 {
            0
        } else {
            runs.last().to as int
        }),
        r.from < r.to < v.len(),
        v[r.to as int] != r.used,
        forall|i: int| r.from <= i < r.to ==> v[i] == r.used,
    ensures
        runs_prefix(v, runs.push(r)),
{
    reveal(runs_prefix);
    let runs2 = runs.push(r);
    assert forall|k: int| 0 <= k < runs2.len() implies {
        let x = #[trigger] runs2[k];
        &&& x.from == (if k == 0 {
            0
        } else {
            runs2[k - 1].to as int
        })
        &&& x.from < x.to < v.len()
        &&& v[x.to as int] != x.used
        &&& forall|i: int| x.from <= i < x.to ==> v[i] == x.used
    } by {
        if k < runs.len() {
            assert(runs2[k] == runs[k]);
            if k > 0 {
                assert(runs2[k - 1] == runs[k - 1]);
            }
        } else {
            if k > 0 {
                assert(runs2[k - 1] == runs[k - 1]);
            }
        }
    }
}

/// `runs` lists every run of `v` but the last one.
pub open spec fn closed_runs(v: Seq<bool>, runs: Seq<PageRun>) -> bool {
    let last_from = if runs.len() == 0 {
        0
    } else {
        runs.last().to as int
    };
    &&& runs_prefix(v, runs)
    &&& forall|i: int| last_from <= i < v.len() ==> v[i] == v[last_from]
}

/// Freeing the pages an allocation took gives back the bitmap as it was before the allocation.
pub proof fn lemma_alloc_then_free_restores(v: Seq<bool>, start: int, count: int)
    requires
        run_free(v, start, count),
    ensures
        set_range(set_range(v, start, count, true), start, count, false) == v,
{
    assert(set_range(set_range(v, start, count, true), start, count, false) =~= v);
}

/// Two successive allocations hand out disjoint page ranges.
pub proof fn lemma_successive_allocs_disjoint(
    v: Seq<bool>,
    s1: int,
    c1: int,
    s2: int,
    c2: int,
)
    requires
        c1 > 0,
        c2 > 0,
        run_free(v, s1, c1),
        run_free(set_range(v, s1, c1, true), s2, c2),
    ensures
        s2 + c2 <= s1 || s1 + c1 <= s2,
{
    if !(s2 + c2 <= s1 || s1 + c1 <= s2) {
        let i = if s1 > s2 {
            s1
        } else {
            s2
        };
        assert(set_range(v, s1, c1, true)[i]);
    }
}

/// A page freed by `unalloc_pages` can be allocated again: a single free page is a first fit
/// for one page when every lower page is used.
pub proof fn lemma_freed_page_reusable(v: Seq<bool>, p: int)
    requires
        0 <= p < v.len(),
        forall|i: int| 0 <= i < p ==> v[i],
    ensures
        is_first_fit(set_range(v, p, 1, false), p, 1),
{
    let w = set_range(v, p, 1, false);
    assert forall|s: int| 0 <= s < p implies !run_free(w, s, 1) by {
        assert(w[s]);
    }
}

/// Manager of the physical pages: one bit per page, set when the page is used.
pub struct PhysicalMemoryManager {
    bitmap: Vec<u8>,
}

impl View for PhysicalMemoryManager {
    type V = Seq<bool>;

    closed spec fn view(&self) -> Seq<bool> {
        bits_of(self.bitmap@)
    }
}

impl PhysicalMemoryManager {
    /// The page count fits in `usize` and every page address fits in `u64`.
    pub closed spec fn wf(&self) -> bool {
        &&& self.bitmap.len() * 8 <= usize::MAX
        &&& self.bitmap.len() * 8 * PAGE_SIZE <= u64::MAX
    }

    proof fn lemma_view_len(&self)
        ensures
            self@.len() == self.bitmap.len() * 8,
    {
    }

    /// A manager with every page of the bitmap marked as used.
    pub fn all_used(byte_count: usize) -> (r: Self)
        requires
            byte_count * 8 <= usize::MAX,
            byte_count * 8 * PAGE_SIZE <= u64::MAX,
        ensures
            r.wf(),
            r@.len() == byte_count * 8,
            forall|i: int| 0 <= i < r@.len() ==> r@[i],
    {
        let bitmap = vec![0xFFu8; byte_count];
        let r = Self { bitmap };
        proof {
            assert forall|i: int| 0 <= i < r@.len() implies r@[i] by {
                lemma_full_byte(r.bitmap@[i / 8], (i % 8) as u8);
            }
        }
        r
    }

    /// The number of pages managed.
    pub fn page_count(&self) -> (r: usize)
        requires
            self.wf(),
        ensures
            r == self@.len(),
    {
        self.bitmap.len() * 8
    }

    pub fn set_free(&mut self, index: usize)
        requires
            old(self).wf(),
            index < old(self)@.len(),
        ensures
            final(self).wf(),
            final(self)@ == old(self)@.update(index as int, false),
    {
        let byte = index / 8;
        let bit = (index % 8) as u8;
        let old_b = self.bitmap[byte];
        self.bitmap.set(byte, old_b & !(0x80u8 >> bit));
        proof {
            let ov = bits_of(old(self).bitmap@);
            assert forall|i: int| 0 <= i < self@.len() implies self@[i] == ov.update(
                index as int,
                false,
            )[i] by {
                if i / 8 == byte as int {
                    lemma_clear_bit(old_b, bit, (i % 8) as u8);
                }
            }
            assert(self@ =~= ov.update(index as int, false));
        }
    }

    pub fn set_used(&mut self, index: usize)
        requires
            old(self).wf(),
            index < old(self)@.len(),
        ensures
            final(self).wf(),
            final(self)@ == old(self)@.update(index as int, true),
    {
        let byte = index / 8;
        let bit = (index % 8) as u8;
        let old_b = self.bitmap[byte];
        self.bitmap.set(byte, old_b | (0x80u8 >> bit));
        proof {
            let ov = bits_of(old(self).bitmap@);
            assert forall|i: int| 0 <= i < self@.len() implies self@[i] == ov.update(
                index as int,
                true,
            )[i] by {
                if i / 8 == byte as int {
                    lemma_set_bit(old_b, bit, (i % 8) as u8);
                }
            }
            assert(self@ =~= ov.update(index as int, true));
        }
    }

    pub fn set_free_range(&mut self, start: usize, length: usize)
        requires
            old(self).wf(),
            length == 0 || start + length <= old(self)@.len(),
        ensures
            final(self).wf(),
            final(self)@ == set_range(old(self)@, start as int, length as int, false),
    {
        let ghost v0 = self@;
        if length == 0 {
            assert(self@ =~= set_range(v0, start as int, 0, false));
            return;
        }
        let end = start + length;
        let mut i = start;
        while i < end
            invariant
                self.wf(),
                start <= i <= end,
                end == start + length,
                end <= v0.len(),
                self@ == set_range(v0, start as int, i - start, false),
            decreases end - i,
        {
            self.set_free(i);
            i = i + 1;
            assert(self@ =~= set_range(v0, start as int, i - start, false));
        }
    }

    pub fn set_used_range(&mut self, start: usize, length: usize)
        requires
            old(self).wf(),
            length == 0 || start + length <= old(self)@.len(),
        ensures
            final(self).wf(),
            final(self)@ == set_range(old(self)@, start as int, length as int, true),
    {
        let ghost v0 = self@;
        if length == 0 {
            assert(self@ =~= set_range(v0, start as int, 0, true));
            return;
        }
        let end = start + length;
        let mut i = start;
        while i < end
            invariant
                self.wf(),
                start <= i <= end,
                end == start + length,
                end <= v0.len(),
                self@ == set_range(v0, start as int, i - start, true),
            decreases end - i,
        {
            self.set_used(i);
            i = i + 1;
            assert(self@ =~= set_range(v0, start as int, i - start, true));
        }
    }

    pub fn is_used(&self, index: usize) -> (r: bool)
        requires
            index < self@.len(),
        ensures
            r == self@[index as int],
    {
        (self.bitmap[index / 8] & (0x80u8 >> ((index % 8) as u8))) != 0
    }

    /// Find the index of the first byte at or after `from` which contains at least one 0 bit.
    fn find_first_zero(bitmap: &Vec<u8>, from: usize) -> (r: Option<usize>)
        ensures
            match r {
                Some(b) => {
                    &&& from <= b < bitmap.len()
                    &&& bitmap@[b as int] != 0xFF
                    &&& forall|k: int| from <= k < b ==> bitmap@[k] == 0xFF
                },
                None => forall|k: int| from <= k < bitmap.len() ==> bitmap@[k] == 0xFF,
            },
    {
        let mut index = from;
        while index < bitmap.len()
            invariant
                from <= index,
                forall|k: int| from <= k < index ==> bitmap@[k] == 0xFF,
            decreases bitmap.len() - index,
        {
            if bitmap[index] != 0xFF {
                return Some(index);
            }
            index = index + 1;
        }
        None
    }

    /// Check if `count` pages are allocable from page `start`.
    ///
    /// If the alloc is possible, return `Ok` with the page where the alloc starts.
    /// Else, return `Err` with the count of pages, from `start`, which are checked to be unable
    /// to begin the alloc (up to and including the first used page).
    fn can_alloc(&self, start: usize, count: usize) -> (r: Result<usize, usize>)
        requires
            self.wf(),
            count > 0,
            start + count <= self@.len(),
        ensures
            match r {
                Ok(s) => s == start && run_free(self@, start as int, count as int),
                Err(n) => {
                    &&& 1 <= n <= count
                    &&& self@[start + n - 1]
                    &&& forall|i: int| start <= i < start + n - 1 ==> !self@[i]
                },
            },
    {
        let end = start + count;
        let mut i = start;
        while i < end
            invariant
                start <= i <= end,
                end == start + count,
                end <= self@.len(),
                forall|k: int| start <= k < i ==> !self@[k],
            decreases end - i,
        {
            if self.is_used(i) {
                return Err(i - start + 1);
            }
            i = i + 1;
        }
        Ok(start)
    }

    proof fn lemma_used_bytes(&self, from_byte: int, to_byte: int)
        requires
            0 <= from_byte <= to_byte <= self.bitmap.len(),
            forall|k: int| from_byte <= k < to_byte ==> self.bitmap@[k] == 0xFF,
        ensures
            forall|i: int| from_byte * 8 <= i < to_byte * 8 ==> self@[i],
    {
        assert forall|i: int| from_byte * 8 <= i < to_byte * 8 implies self@[i] by {
            lemma_full_byte(self.bitmap@[i / 8], (i % 8) as u8);
        }
    }

    /// Find the lowest page where `count` contiguous free pages begin.
    fn find_pages(&self, count: usize) -> (r: Result<usize, Error>)
        requires
            self.wf(),
            count > 0,
        ensures
            match r {
                Ok(s) => is_first_fit(self@, s as int, count as int),
                Err(e) => e == Error::Memory(MemoryError::OutOfPhysicalMemory) && no_fit(
                    self@,
                    count as int,
                ),
            },
    {
        let nbits = self.bitmap.len() * 8;
        let mut pos: usize = 0;
        while pos < nbits && count <= nbits - pos
            invariant
                self.wf(),
                count > 0,
                nbits == self@.len(),
                nbits == self.bitmap.len() * 8,
                pos <= nbits,
                forall|s: int| 0 <= s < pos ==> !run_free(self@, s, count as int),
            decreases nbits - pos,
        {
            match Self::find_first_zero(&self.bitmap, pos / 8) {
                None => {
                    proof {
                        self.lemma_used_bytes((pos / 8) as int, self.bitmap.len() as int);
                        assert forall|s: int| !run_free(self@, s, count as int) by {
                            if s >= pos && s < nbits {
                                assert(self@[s]);
                            }
                        }
                    }
                    return Err(Error::Memory(MemoryError::OutOfPhysicalMemory));
                },
                Some(b) => {
                    proof {
                        self.lemma_used_bytes((pos / 8) as int, b as int);
                        assert forall|s: int| 0 <= s < b * 8 implies !run_free(
                            self@,
                            s,
                            count as int,
                        ) by {
                            if s >= pos {
                                assert(self@[s]);
                            }
                        }
                    }
                    if b * 8 > pos {
                        pos = b * 8;
                    }
                },
            }
            if count > nbits - pos {
                proof {
                    assert forall|s: int| !run_free(self@, s, count as int) by {
                        if s < pos {
                        }
                    }
                }
                return Err(Error::Memory(MemoryError::OutOfPhysicalMemory));
            }
            match self.can_alloc(pos, count) {
                Ok(s) => {
                    return Ok(s);
                },
                Err(n) => {
                    proof {
                        assert forall|s: int| 0 <= s < pos + n implies !run_free(
                            self@,
                            s,
                            count as int,
                        ) by {
                            if s >= pos {
                                assert(self@[pos + n - 1]);
                            }
                        }
                    }
                    pos = pos + n;
                },
            }
        }
        proof {
            assert forall|s: int| !run_free(self@, s, count as int) by {
                if s < pos {
                }
            }
        }
        Err(Error::Memory(MemoryError::OutOfPhysicalMemory))
    }

    pub fn is_memory_type_usable(mem_type: u32) -> (r: bool)
        ensures
            r == usable_type(mem_type),
    {
        mem_type == CONVENTIONAL || mem_type == BOOT_SERVICES_CODE || mem_type
            == BOOT_SERVICES_DATA || mem_type == LOADER_CODE || mem_type == LOADER_DATA
    }

    /// The highest end address of the usable regions.
    pub fn get_max_address(memory_map: &Vec<MemoryDescriptor>) -> (r: PhysicalAddress)
        requires
            map_fits(memory_map@),
        ensures
            r@ == max_usable_end(memory_map@),
            forall|i: int|
                0 <= i < memory_map@.len() && usable_type(memory_map@[i].ty) ==> desc_end(#[trigger] memory_map@[i])
                    <= r@,
            r@ == 0 || exists|i: int|
                0 <= i < memory_map@.len() && usable_type(memory_map@[i].ty) && desc_end(#[trigger] memory_map@[i])
                    == r@,
    {
        proof {
            lemma_max_usable_end(memory_map@);
        }
        let mut max_address: u64 = 0;
        let mut i: usize = 0;
        while i < memory_map.len()
            invariant
                0 <= i <= memory_map.len(),
                map_fits(memory_map@),
                max_address == max_usable_end(memory_map@.subrange(0, i as int)),
            decreases memory_map.len() - i,
        {
            let desc = &memory_map[i];
            proof {
                assert(memory_map@.subrange(0, i + 1).drop_last() =~= memory_map@.subrange(
                    0,
                    i as int,
                ));
                assert(desc_end(memory_map@[i as int]) <= u64::MAX);
            }
            if Self::is_memory_type_usable(desc.ty) {
                let addr = desc.phys_start + desc.page_count * (PAGE_SIZE as u64);
                if addr > max_address {
                    max_address = addr;
                }
            }
            i += 1;
        }
        assert(memory_map@.subrange(0, memory_map@.len() as int) =~= memory_map@);
        PhysicalAddress::new(max_address)
    }

    /// The index of the first usable region holding at least `page_count` pages
    /// (`memory_map.len()` if none).
    fn find_free_desc(memory_map: &Vec<MemoryDescriptor>, page_count: u64) -> (r: usize)
        ensures
            r == first_free_desc(memory_map@, page_count as int, 0),
    {
        let mut i: usize = 0;
        while i < memory_map.len()
            invariant
                0 <= i <= memory_map.len(),
                first_free_desc(memory_map@, page_count as int, 0) == first_free_desc(
                    memory_map@,
                    page_count as int,
                    i as int,
                ),
            decreases memory_map.len() - i,
        {
            let desc = &memory_map[i];
            if Self::is_memory_type_usable(desc.ty) && desc.page_count >= page_count {
                return i;
            }
            i += 1;
        }
        i
    }

    /// The index of the first region holding the memory map (`memory_map.len()` if none).
    fn find_memory_map_desc(memory_map: &Vec<MemoryDescriptor>) -> (r: usize)
        ensures
            r == first_memory_map_desc(memory_map@, 0),
    {
        let mut i: usize = 0;
        while i < memory_map.len()
            invariant
                0 <= i <= memory_map.len(),
                first_memory_map_desc(memory_map@, 0) == first_memory_map_desc(
                    memory_map@,
                    i as int,
                ),
            decreases memory_map.len() - i,
        {
            if memory_map[i].ty == MEMORY_MAP_TYPE {
                return i;
            }
            i += 1;
        }
        i
    }

    /// Find free space in the memory map (used to find where to put the bitmap): the start of
    /// the first usable region holding at least `page_count` pages.
    pub fn get_free_space(memory_map: &Vec<MemoryDescriptor>, page_count: usize) -> (r: Option<
        PhysicalAddress,
    >)
        ensures
            ({
                let f = first_free_desc(memory_map@, page_count as int, 0);
                match r {
                    Some(a) => f < memory_map.len() && a@ == memory_map@[f].phys_start,
                    None => f == memory_map.len(),
                }
            }),
    {
        let f = Self::find_free_desc(memory_map, page_count as u64);
        proof {
            Self::lemma_first_free_desc_range(memory_map@, page_count as int, 0);
        }
        if f < memory_map.len() {
            Some(PhysicalAddress::new(memory_map[f].phys_start))
        } else {
            None
        }
    }

    proof fn lemma_first_free_desc_range(map: Seq<MemoryDescriptor>, n: int, i: int)
        requires
            0 <= i,
        ensures
            first_free_desc(map, n, i) == map.len() || i <= first_free_desc(map, n, i)
                < map.len(),
        decreases map.len() - i,
    {
        if i < map.len() && !has_free_space(map[i], n) {
            Self::lemma_first_free_desc_range(map, n, i + 1);
        }
    }

    proof fn lemma_covered_step(map: Seq<MemoryDescriptor>, k: int, i: int)
        requires
            0 <= k < map.len(),
        ensures
            covered(map, k + 1, i) == (covered(map, k, i) || (usable_type(map[k].ty)
                && start_page(map[k]) <= i < start_page(map[k]) + map[k].page_count)),
    {
        if usable_type(map[k].ty) && start_page(map[k]) <= i < start_page(map[k])
            + map[k].page_count {
            assert(0 <= k < k + 1 && usable_type(map[k].ty) && start_page(map[k]) <= i
                < start_page(map[k]) + map[k].page_count);
        }
        if covered(map, k, i) {
            let j = choose|j: int|
                0 <= j < k && usable_type(map[j].ty) && start_page(map[j]) <= i < start_page(
                    map[j],
                ) + map[j].page_count;
            assert(0 <= j < k + 1);
        }
    }

    /// Mark every page as used, then the pages of the usable regions as free.
    fn init_bitmap(&mut self, memory_map: &Vec<MemoryDescriptor>)
        requires
            old(self).wf(),
            forall|i: int|
                0 <= i < memory_map.len() && usable_type(#[trigger] memory_map@[i].ty)
                    ==> desc_in_bitmap(memory_map@[i], old(self)@.len() as int),
        ensures
            final(self).wf(),
            final(self)@ == usable_view(memory_map@, old(self)@.len() as int),
    {
        let byte_count = self.bitmap.len();
        *self = Self::all_used(byte_count);
        let ghost n = self@.len() as int;
        assert(self@ =~= Seq::new(n as nat, |i: int| !covered(memory_map@, 0, i)));
        let mut k: usize = 0;
        while k < memory_map.len()
            invariant
                self.wf(),
                0 <= k <= memory_map.len(),
                self@.len() == n,
                n <= usize::MAX,
                forall|i: int|
                    0 <= i < memory_map.len() && usable_type(#[trigger] memory_map@[i].ty)
                        ==> desc_in_bitmap(memory_map@[i], n),
                self@ == Seq::new(n as nat, |i: int| !covered(memory_map@, k as int, i)),
            decreases memory_map.len() - k,
        {
            let desc = &memory_map[k];
            let ghost before = self@;
            if Self::is_memory_type_usable(desc.ty) {
                assert(desc_in_bitmap(memory_map@[k as int], n));
                let start_page = (desc.phys_start / (PAGE_SIZE as u64)) as usize;
                let count = desc.page_count as usize;
                self.set_free_range(start_page, count);
            }
            proof {
                assert forall|i: int| 0 <= i < n implies self@[i] == !covered(
                    memory_map@,
                    k + 1,
                    i,
                ) by {
                    Self::lemma_covered_step(memory_map@, k as int, i);
                }
            }
            k += 1;
            assert(self@ =~= Seq::new(n as nat, |i: int| !covered(memory_map@, k as int, i)));
        }
    }

    /// Mark the region that holds the memory map as free.
    fn set_memory_map_usable(&mut self, memory_map: &Vec<MemoryDescriptor>)
        requires
            old(self).wf(),
            first_memory_map_desc(memory_map@, 0) < memory_map.len(),
            desc_in_bitmap(
                memory_map@[first_memory_map_desc(memory_map@, 0)],
                old(self)@.len() as int,
            ),
        ensures
            final(self).wf(),
            ({
                let d = memory_map@[first_memory_map_desc(memory_map@, 0)];
                final(self)@ == set_range(
                    old(self)@,
                    start_page(d),
                    d.page_count as int,
                    false,
                )
            }),
    {
        let m = Self::find_memory_map_desc(memory_map);
        let desc = &memory_map[m];
        proof {
            self.lemma_view_len();
        }
        let start_page = (desc.phys_start / (PAGE_SIZE as u64)) as usize;
        let count = desc.page_count as usize;
        self.set_free_range(start_page, count);
    }

    /// Build the manager of the memory described by `memory_map`: the bitmap covers every
    /// usable page and is placed in the first usable region large enough.
    pub fn new(memory_map: &Vec<MemoryDescriptor>) -> (r: Self)
        requires
            memory_map_supported(memory_map@),
        ensures
            r.wf(),
            r@ == initial_view(memory_map@),
    {
        let ghost map = memory_map@;
        let max_address = Self::get_max_address(memory_map);
        let bitmap_size = max_address.addr() / (PAGE_SIZE as u64) / 8;
        let page_count_u64 = bitmap_size / (PAGE_SIZE as u64) + if bitmap_size % (
        PAGE_SIZE as u64) != 0 {
            1
        } else {
            0
        };
        assert(page_count_u64 == bitmap_page_count(map));
        let bitmap_page_count = page_count_u64 as usize;
        let bitmap_ptr = Self::get_free_space(memory_map, bitmap_page_count).unwrap();
        let mut s = Self::all_used(bitmap_page_count * PAGE_SIZE);
        s.init_bitmap(memory_map);
        let ghost v1 = s@;
        proof {
            s.lemma_view_len();
        }
        s.set_used_range((bitmap_ptr.addr() / (PAGE_SIZE as u64)) as usize, bitmap_page_count);
        s.set_memory_map_usable(memory_map);
        s
    }

    /// Whether `memory_map` is one `new` can build a manager from.
    pub fn is_memory_map_supported(memory_map: &Vec<MemoryDescriptor>) -> (r: bool)
        ensures
            r == memory_map_supported(memory_map@),
    {
        let ghost map = memory_map@;
        let mut i: usize = 0;
        while i < memory_map.len()
            invariant
                0 <= i <= memory_map.len(),
                map == memory_map@,
                forall|j: int| 0 <= j < i ==> desc_end(#[trigger] map[j]) <= u64::MAX,
            decreases memory_map.len() - i,
        {
            let d = &memory_map[i];
            if d.page_count > (u64::MAX - d.phys_start) / (PAGE_SIZE as u64) {
                assert(desc_end(map[i as int]) > u64::MAX) by (nonlinear_arith)
                    requires
                        d.page_count > (u64::MAX - d.phys_start) / 4096,
                        desc_end(map[i as int]) == d.phys_start + d.page_count * 4096,
                ;
                return false;
            }
            assert(desc_end(map[i as int]) <= u64::MAX) by (nonlinear_arith)
                requires
                    d.page_count <= (u64::MAX - d.phys_start) / 4096,
                    desc_end(map[i as int]) == d.phys_start + d.page_count * 4096,
            ;
            i += 1;
        }
        let max_address = Self::get_max_address(memory_map);
        let bitmap_size = max_address.addr() / (PAGE_SIZE as u64) / 8;
        let bitmap_page_count = bitmap_size / (PAGE_SIZE as u64) + if bitmap_size % (
        PAGE_SIZE as u64) != 0 {
            1
        } else {
            0
        };
        let ghost max = max_address@;
        assert(bitmap_size <= 0x7_FFFF_FFFF_FFFF) by (nonlinear_arith)
            requires
                bitmap_size == max / 4096 / 8,
                max <= 0xFFFF_FFFF_FFFF_FFFF,
        ;
        assert(bitmap_page_count <= 0x80_0000_0000);
        let n = bitmap_page_count * (PAGE_SIZE as u64) * 8;
        if n > usize::MAX as u64 || n > u64::MAX / (PAGE_SIZE as u64) {
            return false;
        }
        let f = Self::find_free_desc(memory_map, bitmap_page_count);
        if f >= memory_map.len() {
            return false;
        }
        if memory_map[f].phys_start / (PAGE_SIZE as u64) + bitmap_page_count > n {
            return false;
        }
        let m = Self::find_memory_map_desc(memory_map);
        if m >= memory_map.len() {
            return false;
        }
        let dm = &memory_map[m];
        if !(dm.phys_start % (PAGE_SIZE as u64) == 0 && dm.phys_start / (PAGE_SIZE as u64)
            + dm.page_count <= n) {
            return false;
        }
        let mut k: usize = 0;
        while k < memory_map.len()
            invariant
                0 <= k <= memory_map.len(),
                map == memory_map@,
                map_fits(map),
                n == bitmap_bits(map),
                forall|j: int|
                    0 <= j < k && usable_type(#[trigger] map[j].ty) ==> desc_in_bitmap(
                        map[j],
                        n as int,
                    ),
            decreases memory_map.len() - k,
        {
            let d = &memory_map[k];
            if Self::is_memory_type_usable(d.ty) {
                assert(desc_end(map[k as int]) <= u64::MAX);
                if !(d.phys_start % (PAGE_SIZE as u64) == 0 && d.phys_start / (PAGE_SIZE as u64)
                    + d.page_count <= n) {
                    return false;
                }
            }
            k += 1;
        }
        true
    }

    /// The runs of pages with the same state that the debug listing of the bitmap prints: each
    /// run is closed by a change of state, so the last run (up to the end) is not listed.
    pub fn print_bitmap(&self) -> (r: Vec<PageRun>)
        requires
            self.wf(),
            self@.len() > 0,
        ensures
            closed_runs(self@, r@),
    {
        let len = self.bitmap.len() * 8;
        let ghost v = self@;
        let mut runs: Vec<PageRun> = Vec::new();
        proof {
            reveal(runs_prefix);
        }
        let mut used = self.is_used(0);
        let mut from: usize = 0;
        let mut i: usize = 0;
        while i < len
            invariant
                v == self@,
                len == v.len(),
                0 <= from <= i <= len,
                from < len,
                used == v[from as int],
                forall|k: int| from <= k < i ==> v[k] == used,
                runs_prefix(v, runs@),
                from == (if runs@.len() == 0 {
                    0
                } else {
                    runs@.last().to as int
                }),
            decreases len - i,
        {
            let u = self.is_used(i);
            if u != used {
                let run = PageRun { used, from, to: i };
                proof {
                    lemma_runs_push(v, runs@, run);
                }
                runs.push(run);
                used = u;
                from = i;
            }
            i += 1;
        }
        runs
    }

    /// Allocate `count` contiguous pages: the lowest free run is marked used and its address
    /// is returned.
    pub fn alloc_pages(&mut self, count: usize) -> (r: Result<PhysicalAddress, Error>)
        requires
            old(self).wf(),
            count > 0,
        ensures
            final(self).wf(),
            match r {
                Ok(addr) => {
                    &&& addr@ % PAGE_SIZE as u64 == 0
                    &&& is_first_fit(old(self)@, addr@ as int / PAGE_SIZE as int, count as int)
                    &&& final(self)@ == set_range(
                        old(self)@,
                        addr@ as int / PAGE_SIZE as int,
                        count as int,
                        true,
                    )
                },
                Err(e) => {
                    &&& e == Error::Memory(MemoryError::OutOfPhysicalMemory)
                    &&& no_fit(old(self)@, count as int)
                    &&& final(self)@ == old(self)@
                },
            },
    {
        let pages = self.find_pages(count)?;
        self.set_used_range(pages, count);
        proof {
            assert(pages * 4096 <= u64::MAX);
        }
        let addr = PhysicalAddress::new((pages as u64) * (PAGE_SIZE as u64));
        Ok(addr)
    }

    /// Free the `count` pages starting at `addr`.
    pub fn unalloc_pages(&mut self, addr: PhysicalAddress, count: usize)
        requires
            old(self).wf(),
            addr@ % PAGE_SIZE as u64 == 0,
            addr@ as int / PAGE_SIZE as int + count <= old(self)@.len(),
        ensures
            final(self).wf(),
            final(self)@ == set_range(old(self)@, addr@ as int / PAGE_SIZE as int, count as int, false),
    {
        let page = addr.addr() / (PAGE_SIZE as u64);
        proof {
            self.lemma_view_len();
        }
        let start = page as usize;
        self.set_free_range(start, count);
    }
}

/// Taking the first fit of `count` pages from room for `m > count` pages leaves room for
/// `m - count` pages.
proof fn lemma_first_fit_leaves(v: Seq<bool>, s: int, count: int)
    requires
        is_first_fit(v, s, count),
        count > 0,
    ensures
        forall|m: int|
            m > count && !no_fit(v, m) ==> !no_fit(#[trigger] set_range(v, s, count, true), m - count),
{
    assert forall|m: int| m > count && !no_fit(v, m) implies !no_fit(#[trigger] set_range(v, s, count, true), m - count) by {
        let w = set_range(v, s, count, true);
        let t = choose|t: int| run_free(v, t, m);
        assert(run_free(v, t, count));
        assert(s <= t);
        if s + count <= t {
            assert(run_free(w, t, m - count));
        } else {
            assert(run_free(w, s + count, m - count));
        }
    }
}

/// The page allocator of physical memory backed by a `PhysicalMemoryManager`.
pub struct PmmPageAllocator {
    pmm: PhysicalMemoryManager,
}

impl View for PmmPageAllocator {
    type V = Seq<bool>;

    closed spec fn view(&self) -> Seq<bool> {
        self.pmm@
    }
}

impl PmmPageAllocator {
    /// The allocator of the pages of `pmm`, which must lie within the 48 bits of a physical
    /// address for `inv` to hold.
    pub fn new(pmm: PhysicalMemoryManager) -> (r: Self)
        ensures
            r@ == pmm@,
            r.inv() == (pmm.wf() && pmm@.len() * PAGE_SIZE <= 0x1_0000_0000_0000),
    {
        Self { pmm }
    }
}

impl PageAllocator<Physical> for PmmPageAllocator {
    closed spec fn inv(&self) -> bool {
        self.pmm.wf() && self.pmm@.len() * PAGE_SIZE <= 0x1_0000_0000_0000
    }

    open spec fn allocated(&self, addr: u64) -> bool {
        addr % PAGE_SIZE as u64 == 0 && (addr / PAGE_SIZE as u64) < self@.len() && self@[(addr
            / PAGE_SIZE as u64) as int]
    }

    open spec fn has_room(&self, count: usize) -> bool {
        !no_fit(self@, count as int)
    }

    open spec fn can_dealloc(&self, ptr: PhysicalAddress, count: usize) -> bool {
        ptr@ % PAGE_SIZE as u64 == 0 && ptr@ as int / PAGE_SIZE as int + count <= self@.len()
    }

    proof fn lemma_room_less(&self, n: usize, m: usize) {
        let t = choose|t: int| run_free(self@, t, n as int);
        assert(run_free(self@, t, m as int));
    }

    fn allocate(&mut self, count: usize) -> (r: Option<PhysicalAddress>)
        ensures
            match r {
                Some(addr) => {
                    &&& addr@ % PAGE_SIZE as u64 == 0
                    &&& is_first_fit(old(self)@, addr@ as int / PAGE_SIZE as int, count as int)
                    &&& final(self)@ == set_range(
                        old(self)@,
                        addr@ as int / PAGE_SIZE as int,
                        count as int,
                        true,
                    )
                },
                None => no_fit(old(self)@, count as int) && final(self)@ == old(self)@,
            },
    {
        proof {
            self.pmm.lemma_view_len();
        }
        match self.pmm.alloc_pages(count) {
            Ok(addr) => {
                proof {
                    let start = addr@ as int / PAGE_SIZE as int;
                    let len = old(self)@.len() as int;
                    assert(start + count <= len);
                    assert(addr@ == start * PAGE_SIZE);
                    assert(len * PAGE_SIZE <= u64::MAX);
                    assert((start + count) * PAGE_SIZE <= len * PAGE_SIZE) by (nonlinear_arith)
                        requires
                            start + count <= len,
                    ;
                    assert(addr@ + count * PAGE_SIZE == (start + count) * PAGE_SIZE) by (nonlinear_arith)
                        requires
                            addr@ == start * PAGE_SIZE,
                    ;
                    assert(addr@ + count * PAGE_SIZE <= 0x1_0000_0000_0000);
                    assert(addr@ / 4096 == start);
                    assert(!old(self)@[start]);
                    assert(run_free(old(self)@, start, count as int));
                    lemma_first_fit_leaves(old(self)@, start, count as int);
                    assert forall|m: usize| m > count && #[trigger] old(self).has_room(m) implies self.has_room(
                        (m - count) as usize,
                    ) by {
                        assert(!no_fit(set_range(old(self)@, start, count as int, true), m - count));
                    }
                }
                Some(addr)
            },
            Err(_) => {
                proof {
                    assert forall|m: usize| m > count && #[trigger] old(self).has_room(m) implies self.has_room(
                        (m - count) as usize,
                    ) by {
                        old(self).lemma_room_less(m, (m - count) as usize);
                    }
                }
                None
            },
        }
    }

    fn can_deallocate(&self, ptr: &PhysicalAddress, count: usize) -> (r: bool) {
        let n = self.pmm.page_count();
        let a = ptr.copy().addr();
        a % PAGE_SIZE as u64 == 0 && count <= n && (a / PAGE_SIZE as u64) <= (n - count) as u64
    }

    fn deallocate(&mut self, ptr: PhysicalAddress, count: usize)
        ensures
            final(self)@ == set_range(
                old(self)@,
                ptr@ as int / PAGE_SIZE as int,
                count as int,
                false,
            ),
    {
        self.pmm.unalloc_pages(ptr, count);
        proof {
            let s = ptr@ as int / PAGE_SIZE as int;
            assert forall|y: u64|
                #[trigger] old(self).allocated(y) && (y < ptr@ || y >= ptr@ + count * PAGE_SIZE)
                    implies self.allocated(y) by {
                let j = y as int / PAGE_SIZE as int;
                assert(ptr@ == s * 4096);
                assert(y == j * 4096);
                if y < ptr@ {
                    assert(j < s) by (nonlinear_arith)
                        requires
                            y == j * 4096,
                            ptr@ == s * 4096,
                            y < ptr@,
                    ;
                } else {
                    assert(j >= s + count) by (nonlinear_arith)
                        requires
                            y == j * 4096,
                            ptr@ == s * 4096,
                            y >= ptr@ + count * 4096,
                    ;
                }
                assert(y / PAGE_SIZE as u64 == j);
            }
            assert forall|y: u64| ptr@ <= y < ptr@ + count * PAGE_SIZE implies !#[trigger] self.allocated(y) by {
                if y % 4096 == 0 {
                    let j = y as int / PAGE_SIZE as int;
                    assert(ptr@ == s * 4096);
                    assert(y == j * 4096);
                    assert(s <= j < s + count) by (nonlinear_arith)
                        requires
                            y == j * 4096,
                            ptr@ == s * 4096,
                            ptr@ <= y < ptr@ + count * 4096,
                    ;
                    assert(y / PAGE_SIZE as u64 == j);
                }
            }
            assert forall|y: u64| #[trigger] self.allocated(y) implies old(self).allocated(y) by {
                assert(self@[(y / PAGE_SIZE as u64) as int]);
            }
        }
    }
}

} // verus!
