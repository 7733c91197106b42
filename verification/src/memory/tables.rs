use vstd::prelude::*;

use super::address::{Physical, PhysicalAddress, VirtualAddress};
use super::constants::{INVALID_VIRT_ADDRESS_END, INVALID_VIRT_ADDRESS_START};
use super::vmm::{MapOptions, MapSize};
use super::vmm::MapFlags;
use super::constants::PAGE_SIZE;
use super::mmu::{
    default_lower_attributes, lemma_descriptor_roundtrip, leaf_descriptor_bits, lower_attributes_from_flags,
    table_descriptor_bits, TableEntry, UpperDescriptorAttributes, ADDRESS_MASK,
};
use super::page_allocator::{lemma_room_after, lemma_room_left, lemma_took_more, lemma_took_none, lemma_took_trans, took_at_most, PageAllocator};
use super::free_space::{
    in_use_at, leaf_present, lemma_page_index, lemma_scan_l1, none_missed, page_addr, page_in_use, window, window_used,
};
use super::frame::{lemma_zero_not_present, lemma_new_table_walk, lemma_reach_path, lemma_walk_frame, lemma_walk_reach, reach, same_slot};
use crate::error::{Error, MemoryError};

verus! {

/// The number of entries of a translation table.
pub const ENTRIES: usize = 512;

/// The translation tables, each held in a page of physical memory: the address of each
/// table's page, its level (0 to 3), and the entries of every table, 512 per table, table
/// after table.
pub struct TablesView {
    pub addrs: Seq<u64>,
    pub levels: Seq<u8>,
    pub entries: Seq<u64>,
}

/// The index of the first table from `k` whose page is at `a`.
pub open spec fn find_from(addrs: Seq<u64>, a: u64, k: int) -> Option<int>
    decreases addrs.len() - k,
{
    if k < 0 || k >= addrs.len() {
        None
    } else if addrs[k] == a {
        Some(k)
    } else {
        find_from(addrs, a, k + 1)
    }
}

/// The table whose page is at `a`.
pub open spec fn find_table(v: TablesView, a: u64) -> Option<int> {
    find_from(v.addrs, a, 0)
}

/// The entry `i` of the table `k`.
pub open spec fn entry(v: TablesView, k: int, i: int) -> u64 {
    v.entries[ENTRIES * k + i]
}

pub open spec fn present(e: u64) -> bool {
    e & 1 != 0
}

/// A block (at levels 1 and 2) rather than a table or page descriptor.
pub open spec fn is_block(e: u64) -> bool {
    e & 2 == 0
}

pub open spec fn target(e: u64) -> u64 {
    e & ADDRESS_MASK
}

/// The entry `e` of a table of level `l` points at a table of the next level.
pub open spec fn points_to_table(l: u8, e: u64) -> bool {
    l < 3 && present(e) && !is_block(e)
}

/// The tables are well formed: one page each, at distinct addresses, of a level up to 3; an
/// entry pointing at a table points at one of them, of the next level.
pub open spec fn tables_wf(v: TablesView) -> bool {
    &&& v.levels.len() == v.addrs.len()
    &&& v.entries.len() == ENTRIES * v.addrs.len()
    &&& forall|k1: int, k2: int|
        0 <= k1 < k2 < v.addrs.len() ==> #[trigger] v.addrs[k1] != #[trigger] v.addrs[k2]
    &&& forall|k: int| 0 <= k < v.levels.len() ==> #[trigger] v.levels[k] <= 3
    &&& forall|k: int, i: int|
        0 <= k < v.addrs.len() && 0 <= i < ENTRIES && #[trigger] points_to_table(
            v.levels[k],
            entry(v, k, i),
        ) ==> match find_table(v, target(entry(v, k, i))) {
            Some(k2) => v.levels[k2] == v.levels[k] + 1,
            None => false,
        }
    &&& unique_parents(v)
}

/// No two entries point at the same table.
pub open spec fn unique_parents(v: TablesView) -> bool {
    forall|k1: int, i1: int, k2: int, i2: int|
        0 <= k1 < v.addrs.len() && 0 <= i1 < ENTRIES && 0 <= k2 < v.addrs.len() && 0 <= i2 < ENTRIES
            && (k1 != k2 || i1 != i2) && #[trigger] points_to_table(v.levels[k1], entry(v, k1, i1))
            && #[trigger] points_to_table(v.levels[k2], entry(v, k2, i2)) ==> target(entry(v, k1, i1))
            != target(entry(v, k2, i2))
}

/// The index of `va` in a table of level `l`.
pub open spec fn va_index(va: u64, l: u8) -> int {
    ((va >> ((39 - 9 * l) as u64)) & 0x1FF) as int
}

/// Where `va` goes through the table `k` and the ones it leads to: the physical address of
/// a page (level 3) or of a block of 1 GB (level 1) or 2 MB (level 2), plus the offset of
/// `va` in it; `None` where an entry on the way is not present or not valid.
pub open spec fn walk(v: TablesView, k: int, va: u64) -> Option<int>
    decreases 4 - v.levels[k],
{
    if k < 0 || k >= v.addrs.len() || v.levels[k] > 3 {
        None
    } else {
        let l = v.levels[k];
        let e = entry(v, k, va_index(va, l));
        if !present(e) {
            None
        } else if l == 3 {
            if is_block(e) {
                None
            } else {
                Some(target(e) + (va & 0xFFF))
            }
        } else if is_block(e) {
            if l == 1 {
                Some(target(e) + (va & 0x3FFF_FFFF))
            } else if l == 2 {
                Some(target(e) + (va & 0x1F_FFFF))
            } else {
                None
            }
        } else {
            match find_table(v, target(e)) {
                Some(k2) => if v.levels[k2] == l + 1 {
                    walk(v, k2, va)
                } else {
                    None
                },
                None => None,
            }
        }
    }
}

pub proof fn lemma_find_from(addrs: Seq<u64>, a: u64, k: int)
    requires
        k >= 0,
    ensures
        find_from(addrs, a, k) matches Some(j) ==> k <= j < addrs.len() && addrs[j] == a,
        find_from(addrs, a, k) is None ==> forall|j: int| k <= j < addrs.len() ==> addrs[j] != a,
    decreases addrs.len() - k,
{
    if 0 <= k < addrs.len() && addrs[k] != a {
        lemma_find_from(addrs, a, k + 1);
    }
}

/// With distinct addresses, the table at `a` is the one whose address is `a`.
pub proof fn lemma_find_unique(v: TablesView, k: int)
    requires
        tables_wf(v),
        0 <= k < v.addrs.len(),
    ensures
        find_table(v, v.addrs[k]) == Some(k),
{
    lemma_find_from(v.addrs, v.addrs[k], 0);
    match find_table(v, v.addrs[k]) {
        Some(j) => {
            if j != k {
                if j < k {
                    assert(v.addrs[j] != v.addrs[k]);
                } else {
                    assert(v.addrs[k] != v.addrs[j]);
                }
            }
        },
        None => {},
    }
}

/// Adding a table at a new address leaves where the other addresses are, and finds it last.
pub proof fn lemma_find_push(addrs: Seq<u64>, a: u64, x: u64, k: int)
    requires
        0 <= k <= addrs.len(),
        find_from(addrs, a, k) is None,
    ensures
        find_from(addrs.push(a), x, k) == if x == a && find_from(addrs, x, k) is None {
            Some(addrs.len() as int)
        } else {
            find_from(addrs, x, k)
        },
    decreases addrs.len() - k,
{
    let p = addrs.push(a);
    if k < addrs.len() {
        assert(p[k] == addrs[k]);
        lemma_find_push(addrs, a, x, k + 1);
    } else {
        assert(p[k] == a);
        assert(find_from(p, x, k + 1) is None);
    }
}

/// The tables with the entry `i` of the table `k` set to `e`.
pub open spec fn set_entry(v: TablesView, k: int, i: int, e: u64) -> TablesView {
    TablesView { entries: v.entries.update(ENTRIES * k + i, e), ..v }
}

/// The tables with a new, empty table of level `l` at `a`.
pub open spec fn add_table(v: TablesView, a: u64, l: u8) -> TablesView {
    TablesView {
        addrs: v.addrs.push(a),
        levels: v.levels.push(l),
        entries: v.entries + Seq::new(ENTRIES as nat, |i: int| 0u64),
    }
}

/// Setting an entry that points at a table of the next level, or at no table, keeps the
/// tables well formed.
pub proof fn lemma_set_entry_wf(v: TablesView, k: int, i: int, e: u64)
    requires
        tables_wf(v),
        0 <= k < v.addrs.len(),
        0 <= i < ENTRIES,
        points_to_table(v.levels[k], e) ==> match find_table(v, target(e)) {
            Some(k2) => v.levels[k2] == v.levels[k] + 1,
            None => false,
        },
        points_to_table(v.levels[k], e) ==> forall|k2: int, i2: int|
            0 <= k2 < v.addrs.len() && 0 <= i2 < ENTRIES && (k2 != k || i2 != i) && #[trigger] points_to_table(
                v.levels[k2],
                entry(v, k2, i2),
            ) ==> target(entry(v, k2, i2)) != target(e),
    ensures
        tables_wf(set_entry(v, k, i, e)),
        forall|k2: int, i2: int|
            0 <= k2 < v.addrs.len() && 0 <= i2 < ENTRIES && (k2 != k || i2 != i) ==> #[trigger] entry(
                set_entry(v, k, i, e),
                k2,
                i2,
            ) == entry(v, k2, i2),
        entry(set_entry(v, k, i, e), k, i) == e,
{
    let w = set_entry(v, k, i, e);
    assert forall|k2: int, i2: int|
        0 <= k2 < w.addrs.len() && 0 <= i2 < ENTRIES && #[trigger] points_to_table(
            w.levels[k2],
            entry(w, k2, i2),
        ) implies match find_table(w, target(entry(w, k2, i2))) {
        Some(k3) => w.levels[k3] == w.levels[k2] + 1,
        None => false,
    } by {
        if k2 != k || i2 != i {
            assert(ENTRIES * k2 + i2 != ENTRIES * k + i);
            assert(entry(w, k2, i2) == entry(v, k2, i2));
        }
    }
    assert forall|k2: int, i2: int|
        0 <= k2 < v.addrs.len() && 0 <= i2 < ENTRIES && (k2 != k || i2 != i) implies #[trigger] entry(
        w,
        k2,
        i2,
    ) == entry(v, k2, i2) by {
        assert(ENTRIES * k2 + i2 != ENTRIES * k + i);
    }
    assert forall|k1: int, i1: int, k2: int, i2: int|
        0 <= k1 < w.addrs.len() && 0 <= i1 < ENTRIES && 0 <= k2 < w.addrs.len() && 0 <= i2 < ENTRIES
            && (k1 != k2 || i1 != i2) && #[trigger] points_to_table(w.levels[k1], entry(w, k1, i1))
            && #[trigger] points_to_table(w.levels[k2], entry(w, k2, i2)) implies target(entry(w, k1, i1))
        != target(entry(w, k2, i2)) by {
        if k1 != k || i1 != i {
            assert(ENTRIES * k1 + i1 != ENTRIES * k + i);
        }
        if k2 != k || i2 != i {
            assert(ENTRIES * k2 + i2 != ENTRIES * k + i);
        }
    }
}

/// Adding an empty table at a new address keeps the tables well formed, the entries of the
/// other tables, and where each address is found.
pub proof fn lemma_add_table_wf(v: TablesView, a: u64, l: u8)
    requires
        tables_wf(v),
        find_table(v, a) is None,
        l <= 3,
    ensures
        tables_wf(add_table(v, a, l)),
        forall|x: u64| #[trigger] find_table(add_table(v, a, l), x) == if x == a {
            Some(v.addrs.len() as int)
        } else {
            find_table(v, x)
        },
        forall|k: int, i: int|
            0 <= k < v.addrs.len() && 0 <= i < ENTRIES ==> #[trigger] entry(add_table(v, a, l), k, i)
                == entry(v, k, i),
        forall|i: int| 0 <= i < ENTRIES ==> #[trigger] entry(add_table(v, a, l), v.addrs.len() as int, i) == 0,
{
    let w = add_table(v, a, l);
    let n = v.addrs.len() as int;
    lemma_find_from(v.addrs, a, 0);
    assert forall|x: u64| #[trigger] find_table(w, x) == if x == a {
        Some(n)
    } else {
        find_table(v, x)
    } by {
        lemma_find_push(v.addrs, a, x, 0);
    }
    assert forall|k: int, i: int| 0 <= k < n && 0 <= i < ENTRIES implies #[trigger] entry(w, k, i)
        == entry(v, k, i) by {
        assert(ENTRIES * k + i < ENTRIES * n);
    }
    assert forall|i: int| 0 <= i < ENTRIES implies #[trigger] entry(w, n, i) == 0 by {
        assert(ENTRIES * n + i >= v.entries.len());
    }
    assert forall|k1: int, k2: int| 0 <= k1 < k2 < w.addrs.len() implies #[trigger] w.addrs[k1]
        != #[trigger] w.addrs[k2] by {
        if k2 == n {
            assert(v.addrs[k1] != a);
        }
    }
    assert forall|k: int, i: int|
        0 <= k < w.addrs.len() && 0 <= i < ENTRIES && #[trigger] points_to_table(
            w.levels[k],
            entry(w, k, i),
        ) implies match find_table(w, target(entry(w, k, i))) {
        Some(k3) => w.levels[k3] == w.levels[k] + 1,
        None => false,
    } by {
        if k < n {
            assert(entry(w, k, i) == entry(v, k, i));
            let t = target(entry(v, k, i));
            assert(w.levels[k] == v.levels[k]);
            assert(points_to_table(v.levels[k], entry(v, k, i)));
            assert(find_table(v, t) is Some);
            if t == a {
                assert(false);
            }
            assert(find_table(w, t) == find_table(v, t));
            let k3 = find_table(v, t).unwrap();
            lemma_find_from(v.addrs, t, 0);
            assert(w.levels[k3] == v.levels[k3]);
        } else {
            assert(entry(w, k, i) == 0);
            lemma_zero_not_present();
        }
    }
    lemma_zero_not_present();
    assert forall|k1: int, i1: int, k2: int, i2: int|
        0 <= k1 < w.addrs.len() && 0 <= i1 < ENTRIES && 0 <= k2 < w.addrs.len() && 0 <= i2 < ENTRIES
            && (k1 != k2 || i1 != i2) && #[trigger] points_to_table(w.levels[k1], entry(w, k1, i1))
            && #[trigger] points_to_table(w.levels[k2], entry(w, k2, i2)) implies target(entry(w, k1, i1))
        != target(entry(w, k2, i2)) by {
        if k1 == n {
            assert(entry(w, k1, i1) == 0);
        }
        if k2 == n {
            assert(entry(w, k2, i2) == 0);
        }
        if k1 < n && k2 < n {
            assert(entry(w, k1, i1) == entry(v, k1, i1));
            assert(entry(w, k2, i2) == entry(v, k2, i2));
            assert(w.levels[k1] == v.levels[k1] && w.levels[k2] == v.levels[k2]);
        }
    }
}

/// `w` keeps the tables of `v`, with their addresses and levels, and maybe more.
pub open spec fn grows(v: TablesView, w: TablesView) -> bool {
    &&& v.addrs.len() <= w.addrs.len()
    &&& forall|k: int| 0 <= k < v.addrs.len() ==> #[trigger] w.addrs[k] == v.addrs[k]
    &&& forall|k: int| 0 <= k < v.addrs.len() ==> #[trigger] w.levels[k] == v.levels[k]
}

/// The entries of the tables of `v` are the same in `w`, but for the entry `i` of the table `k`.
pub open spec fn same_entries_except(v: TablesView, w: TablesView, k: int, i: int) -> bool {
    forall|k2: int, i2: int|
        0 <= k2 < v.addrs.len() && 0 <= i2 < ENTRIES && (k2 != k || i2 != i) ==> #[trigger] entry(
            w,
            k2,
            i2,
        ) == entry(v, k2, i2)
}

pub proof fn lemma_grows_find(v: TablesView, w: TablesView, x: u64, m: int)
    requires
        grows(v, w),
        0 <= m <= v.addrs.len(),
        find_from(v.addrs, x, m) is Some,
    ensures
        find_from(w.addrs, x, m) == find_from(v.addrs, x, m),
    decreases v.addrs.len() - m,
{
    if m < v.addrs.len() && v.addrs[m] != x {
        lemma_grows_find(v, w, x, m + 1);
    }
}

/// The pages of the tables are handed out by `pages`.
pub open spec fn owned<P: PageAllocator<Physical>>(v: TablesView, pages: P) -> bool {
    forall|k: int| 0 <= k < v.addrs.len() ==> pages.allocated(#[trigger] v.addrs[k])
}

/// Every page handed out by `p0` is handed out by `p1`.
pub open spec fn allocations_kept<P: PageAllocator<Physical>>(p0: P, p1: P) -> bool {
    forall|y: u64| #[trigger] p0.allocated(y) ==> p1.allocated(y)
}

/// The translation tables.
pub struct PageTables {
    addrs: Vec<u64>,
    levels: Vec<u8>,
    entries: Vec<u64>,
}

impl PageTables {
    pub closed spec fn view(&self) -> TablesView {
        TablesView { addrs: self.addrs@, levels: self.levels@, entries: self.entries@ }
    }

    /// No table.
    pub fn new() -> (r: Self)
        ensures
            r@.addrs.len() == 0,
            tables_wf(r@),
    {
        PageTables { addrs: Vec::new(), levels: Vec::new(), entries: Vec::new() }
    }

    /// The table whose page is at `a`, if any.
    pub fn find(&self, a: u64) -> (r: Option<usize>)
        ensures
            r matches Some(k) ==> find_table(self@, a) == Some(k as int),
            r is None ==> find_table(self@, a) is None,
    {
        let mut k: usize = 0;
        while k < self.addrs.len()
            invariant
                k <= self.addrs@.len(),
                find_table(self@, a) == find_from(self.addrs@, a, k as int),
            decreases self.addrs@.len() - k,
        {
            if self.addrs[k] == a {
                return Some(k);
            }
            k += 1;
        }
        None
    }

    /// The entry `i` of the table `k`.
    pub fn get(&self, k: usize, i: usize) -> (r: u64)
        requires
            tables_wf(self@),
            k < self@.addrs.len(),
            i < ENTRIES,
        ensures
            r == entry(self@, k as int, i as int),
    {
        let n = self.entries.len();
        assert(ENTRIES * k + i < n);
        self.entries[ENTRIES * k + i]
    }

    /// The level of the table `k`.
    pub fn level(&self, k: usize) -> (r: u8)
        requires
            tables_wf(self@),
            k < self@.addrs.len(),
        ensures
            r == self@.levels[k as int],
    {
        self.levels[k]
    }

    /// Set the entry `i` of the table `k` to `e`.
    pub fn set(&mut self, k: usize, i: usize, e: u64)
        requires
            tables_wf(old(self)@),
            k < old(self)@.addrs.len(),
            i < ENTRIES,
        ensures
            final(self)@ == set_entry(old(self)@, k as int, i as int, e),
    {
        let n = self.entries.len();
        assert(ENTRIES * k + i < n);
        self.entries.set(ENTRIES * k + i, e);
    }

    /// Add an empty table of level `l` in the page at `a`; returns its index.
    pub fn add(&mut self, a: u64, l: u8) -> (r: usize)
        requires
            tables_wf(old(self)@),
            find_table(old(self)@, a) is None,
            l <= 3,
        ensures
            final(self)@ == add_table(old(self)@, a, l),
            r == old(self)@.addrs.len(),
    {
        let r = self.addrs.len();
        self.addrs.push(a);
        self.levels.push(l);
        let ghost before = self.entries@;
        let mut i: usize = 0;
        while i < ENTRIES
            invariant
                i <= ENTRIES,
                self.entries@ == before + Seq::new(i as nat, |j: int| 0u64),
                before == old(self)@.entries,
                self.addrs@ == old(self)@.addrs.push(a),
                self.levels@ == old(self)@.levels.push(l),
            decreases ENTRIES - i,
        {
            self.entries.push(0);
            proof {
                assert(self.entries@ =~= before + Seq::new((i + 1) as nat, |j: int| 0u64));
            }
            i += 1;
        }
        r
    }

    /// Whether the page of a table starts in `lo..hi`.
    pub fn has_table_in(&self, lo: u64, hi: u64) -> (r: bool)
        ensures
            r == exists|k: int| 0 <= k < self@.addrs.len() && lo <= #[trigger] self@.addrs[k] < hi,
    {
        let mut k: usize = 0;
        while k < self.addrs.len()
            invariant
                k <= self.addrs@.len(),
                forall|j: int| 0 <= j < k ==> !(lo <= #[trigger] self@.addrs[j] < hi),
            decreases self.addrs@.len() - k,
        {
            if lo <= self.addrs[k] && self.addrs[k] < hi {
                assert(lo <= self@.addrs[k as int] < hi);
                return true;
            }
            k += 1;
        }
        false
    }

    /// The address of the page of the table `k`.
    pub fn addr(&self, k: usize) -> (r: u64)
        requires
            tables_wf(self@),
            k < self@.addrs.len(),
        ensures
            r == self@.addrs[k as int],
    {
        self.addrs[k]
    }
}

/// The table the entry `i` of the table `k` points at, made if the entry is not present: an
/// empty table of the next level in a page from `pages`, which the entry then points at.
/// `AlreadyMapped` if the entry is a block; `OutOfPhysicalMemory` if no page can be had (or
/// only one outside the 48 bits a descriptor holds).
pub fn next_table<P: PageAllocator<Physical>>(
    tables: &mut PageTables,
    k: usize,
    i: usize,
    pages: &mut P,
) -> (r: Result<usize, Error>)
    requires
        tables_wf(old(tables)@),
        owned(old(tables)@, *old(pages)),
        old(pages).inv(),
        k < old(tables)@.addrs.len(),
        i < ENTRIES,
        old(tables)@.levels[k as int] < 3,
    ensures
        tables_wf(final(tables)@),
        owned(final(tables)@, *final(pages)),
        final(pages).inv(),
        allocations_kept(*old(pages), *final(pages)),
        grows(old(tables)@, final(tables)@),
        same_entries_except(old(tables)@, final(tables)@, k as int, i as int),
        ({
            let v = old(tables)@;
            let w = final(tables)@;
            let e = entry(v, k as int, i as int);
            if present(e) {
                &&& w == v
                &&& *final(pages) == *old(pages)
                &&& is_block(e) ==> r == Err::<usize, Error>(Error::Memory(MemoryError::AlreadyMapped))
                &&& !is_block(e) ==> r == Ok::<usize, Error>(find_table(v, target(e)).unwrap() as usize)
            } else {
                match r {
                    Ok(k2) => {
                        &&& k2 == v.addrs.len()
                        &&& w == set_entry(
                            add_table(v, w.addrs[k2 as int], (v.levels[k as int] + 1) as u8),
                            k as int,
                            i as int,
                            table_descriptor_bits(w.addrs[k2 as int]),
                        )
                        &&& w.addrs[k2 as int] % PAGE_SIZE as u64 == 0
                        &&& w.addrs[k2 as int] & ADDRESS_MASK == w.addrs[k2 as int]
                    },
                    Err(e) => e == Error::Memory(MemoryError::OutOfPhysicalMemory) && w == v,
                }
            }
        }),
        r matches Ok(k2) ==> k2 < final(tables)@.addrs.len() && final(tables)@.levels[k2 as int]
            == old(tables)@.levels[k as int] + 1 && points_to_table(
            old(tables)@.levels[k as int],
            entry(final(tables)@, k as int, i as int),
        ) && find_table(final(tables)@, target(entry(final(tables)@, k as int, i as int))) == Some(
            k2 as int,
        ),
        took_at_most(*old(pages), *final(pages), 1),
        r matches Err(e) && e == Error::Memory(MemoryError::OutOfPhysicalMemory) ==> !old(pages).has_room(1),
        r matches Err(e) && e == Error::Memory(MemoryError::AlreadyMapped) ==> present(
            entry(old(tables)@, k as int, i as int),
        ) && is_block(entry(old(tables)@, k as int, i as int)),
        !present(entry(old(tables)@, k as int, i as int)) ==> (r matches Ok(k2) ==> fresh_table(
            final(tables)@,
            k2 as int,
        )),
{
    let ghost v = tables@;
    let e = tables.get(k, i);
    let l = tables.level(k);
    proof {
        lemma_took_none(*pages);
        lemma_took_more(*pages, *pages, 0, 1);
    }
    if e & 1 != 0 {
        if e & 2 == 0 {
            return Err(Error::Memory(MemoryError::AlreadyMapped));
        }
        let t = e & ADDRESS_MASK;
        proof {
            assert(points_to_table(l, e));
        }
        let k2 = tables.find(t).unwrap();
        proof {
            lemma_find_from(v.addrs, t, 0);
        }
        return Ok(k2);
    }
    let page = match pages.allocate(1) {
        Some(p) => p,
        None => return Err(Error::Memory(MemoryError::OutOfPhysicalMemory)),
    };
    let a = page.addr();
    proof {
        lemma_page_in_mask(a);
    }
    if a & ADDRESS_MASK != a {
        return Err(Error::Memory(MemoryError::OutOfPhysicalMemory));
    }
    proof {
        lemma_find_from(v.addrs, a, 0);
        if find_table(v, a) is Some {
            let j = find_table(v, a).unwrap();
            assert(old(pages).allocated(v.addrs[j]));
        }
    }
    let k2 = tables.add(a, l + 1);
    proof {
        lemma_add_table_wf(v, a, (l + 1) as u8);
    }
    let d = 3u64 | (a & ADDRESS_MASK);
    let ghost w1 = tables@;
    proof {
        lemma_page_in_mask(a);
        assert(find_table(w1, a) == Some(k2 as int));
        assert(w1.levels[k2 as int] == l + 1);
        lemma_set_entry_wf(w1, k as int, i as int, d);
    }
    tables.set(k, i, d);
    proof {
        let w = tables@;
        assert forall|j: int| 0 <= j < w.addrs.len() implies final(pages).allocated(#[trigger] w.addrs[j]) by {
            if j < v.addrs.len() {
                assert(old(pages).allocated(v.addrs[j]));
            }
        }
        assert forall|k3: int, i3: int|
            0 <= k3 < v.addrs.len() && 0 <= i3 < ENTRIES && (k3 != k || i3 != i) implies #[trigger] entry(
            w,
            k3,
            i3,
        ) == entry(v, k3, i3) by {
            assert(entry(w1, k3, i3) == entry(v, k3, i3));
        }
        assert(entry(w, k as int, i as int) == d);
        assert(find_table(w, a) == Some(k2 as int));
        assert forall|j: int| 0 <= j < ENTRIES implies #[trigger] entry(w, k2 as int, j) == 0 by {
            assert(entry(w, k2 as int, j) == entry(w1, k2 as int, j));
        }
    }
    Ok(k2)
}

/// `va` is mapped in `sp` to an address within the 48 bits of a physical address.
pub open spec fn low_mapped(v: TablesView, sp: VirtualAddressSpace, va: u64) -> bool {
    translate(v, sp, va) matches Some(p) && p < 0x1_0000_0000_0000
}

/// Every address outside the slot of `from` at level `lv` that `v` maps within the 48 bits of a
/// physical address is mapped the same in `w`.
pub open spec fn keeps_low(v: TablesView, w: TablesView, sp: VirtualAddressSpace, from: u64, lv: int) -> bool {
    forall|x: u64|
        !same_slot(sp, x, from, lv) && low_mapped(v, sp, x) ==> #[trigger] translate(w, sp, x) == translate(v, sp, x)
}

/// Every address that `v0` maps within the 48 bits of a physical address is mapped the same in
/// `v`.
pub open spec fn low_same(v0: TablesView, v: TablesView, sp: VirtualAddressSpace) -> bool {
    forall|x: u64| low_mapped(v0, sp, x) ==> #[trigger] translate(v, sp, x) == translate(v0, sp, x)
}

/// `low_same` is kept by a change that keeps every translation.
proof fn lemma_low_same_same(v0: TablesView, v1: TablesView, v2: TablesView, sp: VirtualAddressSpace)
    requires
        low_same(v0, v1, sp),
        forall|x: u64| #[trigger] translate(v2, sp, x) == translate(v1, sp, x),
    ensures
        low_same(v0, v2, sp),
{
    assert forall|x: u64| low_mapped(v0, sp, x) implies #[trigger] translate(v2, sp, x) == translate(v0, sp, x) by {
        assert(translate(v1, sp, x) == translate(v0, sp, x));
    }
}

/// `low_same` is kept by a change that keeps the translations within the 48 bits.
proof fn lemma_low_same_low(v0: TablesView, v1: TablesView, v2: TablesView, sp: VirtualAddressSpace)
    requires
        low_same(v0, v1, sp),
        forall|x: u64| low_mapped(v1, sp, x) ==> #[trigger] translate(v2, sp, x) == translate(v1, sp, x),
    ensures
        low_same(v0, v2, sp),
{
    assert forall|x: u64| low_mapped(v0, sp, x) implies #[trigger] translate(v2, sp, x) == translate(v0, sp, x) by {
        assert(translate(v1, sp, x) == translate(v0, sp, x));
        assert(low_mapped(v1, sp, x));
    }
}

/// A last change that keeps the other slots than that of `from` gives `keeps_low`.
proof fn lemma_low_same_leaf(
    v0: TablesView,
    before: TablesView,
    w: TablesView,
    sp: VirtualAddressSpace,
    from: u64,
    lv: int,
)
    requires
        low_same(v0, before, sp),
        keeps_other_slots(before, w, sp, from, lv),
    ensures
        keeps_low(v0, w, sp, from, lv),
{
    assert forall|x: u64| !same_slot(sp, x, from, lv) && low_mapped(v0, sp, x) implies #[trigger] translate(
        w,
        sp,
        x,
    ) == translate(v0, sp, x) by {
        assert(translate(before, sp, x) == translate(v0, sp, x));
        assert(translate(w, sp, x) == translate(before, sp, x));
    }
}

/// Splitting the block entry `i` of the table `k` into a table of the next level (see
/// `remap_block`) keeps where every address of a space is mapped, for a block that ends within
/// the 48 bits a descriptor holds.
pub proof fn lemma_split_keeps_translation(v: TablesView, k: int, i: int, a: u64, sp: VirtualAddressSpace, va: u64)
    requires
        tables_wf(v),
        0 <= k < v.addrs.len(),
        0 <= i < ENTRIES,
        v.levels[k] == 1 || v.levels[k] == 2,
        present(entry(v, k, i)),
        is_block(entry(v, k, i)),
        target(entry(v, k, i)) + entry_span(v.levels[k]) <= 0x1_0000_0000_0000 || low_mapped(v, sp, va),
        find_table(v, a) is None,
        a & ADDRESS_MASK == a,
        space_wf(v, sp),
    ensures
        translate(
            set_entry(
                add_filled(v, a, (v.levels[k] + 1) as u8, split_entries(entry(v, k, i), v.levels[k])),
                k,
                i,
                table_descriptor_bits(a),
            ),
            sp,
            va,
        ) == translate(v, sp, va),
{
    let e = entry(v, k, i);
    let l = v.levels[k];
    let es = split_entries(e, l);
    let n = v.addrs.len() as int;
    let u = add_filled(v, a, (l + 1) as u8, es);
    let d = table_descriptor_bits(a);
    let w = set_entry(u, k, i, d);
    assert forall|k2: int, i2: int|
        0 <= k2 < v.addrs.len() && 0 <= i2 < ENTRIES && (k2 != k || i2 != i) implies #[trigger] entry(
        w,
        k2,
        i2,
    ) == entry(v, k2, i2) by {
        assert(ENTRIES * k2 + i2 != ENTRIES * k + i);
        assert(ENTRIES * k2 + i2 < ENTRIES * n);
    }
    assert(grows(v, w));
    let kr = find_table(v, sp.root).unwrap();
    lemma_find_from(v.addrs, sp.root, 0);
    lemma_grows_find(v, w, sp.root, 0);
    lemma_index_bound(va, l);
    if reach(v, kr, va, k) && va_index(va, l) == i {
        lemma_walk_reach(v, w, kr, va, k, i);
        lemma_descriptor_roundtrip(a, 0, 0, true);
        assert(entry(w, k, i) == d);
        assert(TableEntry { bits: d }.spec_present());
        assert(points_to_table(l, d));
        assert(target(d) == a);
        lemma_find_push(v.addrs, a, a, 0);
        assert(find_table(w, a) == Some(n));
        let j = va_index(va, (l + 1) as u8);
        lemma_index_bound(va, (l + 1) as u8);
        assert(ENTRIES * n + j != ENTRIES * k + i);
        assert(translate(v, sp, va) == walk(v, k, va));
        assert(entry(w, n, j) == es[j]);
        let t = target(e);
        let lo = ((e >> 2u64) & 0x3FF) as u16;
        let up = ((e >> 52u64) & 0xFFF) as u16;
        let span2 = entry_span((l + 1) as u8);
        lemma_leaf_bits((t + j * span2) as u64, lo, up, l + 1 == 3);
        if l == 1 {
            let jj = (va >> 21u64) & 0x1FF;
            assert(j == jj as int);
            assert((((t + jj * 0x20_0000) as u64) & ADDRESS_MASK) + (va & 0x1F_FFFF) == t + (va
                & 0x3FFF_FFFF)) by (bit_vector)
                requires
                    t == e & 0x0000_FFFF_FFFF_F000u64,
                    t + 0x4000_0000 <= 0x1_0000_0000_0000u64 || t + (va & 0x3FFF_FFFF) < 0x1_0000_0000_0000u64,
                    jj == (va >> 21u64) & 0x1FF,
            ;
        } else {
            let jj = (va >> 12u64) & 0x1FF;
            assert(j == jj as int);
            assert((((t + jj * 0x1000) as u64) & ADDRESS_MASK) + (va & 0xFFF) == t + (va & 0x1F_FFFF))
                by (bit_vector)
                requires
                    t == e & 0x0000_FFFF_FFFF_F000u64,
                    t + 0x20_0000 <= 0x1_0000_0000_0000u64 || t + (va & 0x1F_FFFF) < 0x1_0000_0000_0000u64,
                    jj == (va >> 12u64) & 0x1FF,
            ;
        }
        assert(walk(w, n, va) == walk(v, k, va));
    } else {
        lemma_walk_frame(v, w, kr, va, k, i);
    }
}

/// An address space: the page of its first table, and whether it is the low one (whose first
/// table is of level 1) or the high one (level 0).
#[derive(Clone, Copy, Debug)]
pub struct VirtualAddressSpace {
    pub root: u64,
    pub is_low: bool,
}

/// The first table of `sp` is one of the tables, of the level it should be.
pub open spec fn space_wf(v: TablesView, sp: VirtualAddressSpace) -> bool {
    match find_table(v, sp.root) {
        Some(k) => v.levels[k] == if sp.is_low {
            1u8
        } else {
            0u8
        },
        None => false,
    }
}

/// Where `va` is mapped in `sp` (see `walk`).
pub open spec fn translate(v: TablesView, sp: VirtualAddressSpace, va: u64) -> Option<int> {
    match find_table(v, sp.root) {
        Some(k) => walk(v, k, va),
        None => None,
    }
}

/// The index of `va` in a table of level `l`, computed.
pub fn index_of(va: u64, l: u8) -> (r: usize)
    requires
        l <= 3,
    ensures
        r == va_index(va, l),
        r < ENTRIES,
{
    let shift: u64 = (39 - 9 * l) as u64;
    let r = (va >> shift) & 0x1FF;
    proof {
        lemma_index_bound(va, l);
    }
    r as usize
}

/// The size of what an entry of a table of level `l` maps: 1 GB at level 1, 2 MB at level
/// 2, 4 KB at level 3.
pub open spec fn entry_span(l: u8) -> u64 {
    if l == 1 {
        0x4000_0000
    } else if l == 2 {
        0x20_0000
    } else {
        0x1000
    }
}

/// The entries of the table that replaces the block entry `e` of a table of level `l`: 512
/// blocks (or pages, at level 3) of the next level, one after the other from the block's
/// address, with the block's attributes.
pub open spec fn split_entries(e: u64, l: u8) -> Seq<u64> {
    Seq::new(
        ENTRIES as nat,
        |j: int|
            leaf_descriptor_bits(
                (target(e) + j * entry_span((l + 1) as u8)) as u64,
                ((e >> 2u64) & 0x3FF) as u16,
                ((e >> 52u64) & 0xFFF) as u16,
                l + 1 == 3,
            ),
    )
}

/// The tables with a new table of level `l` at `a`, whose entries are `es`.
pub open spec fn add_filled(v: TablesView, a: u64, l: u8, es: Seq<u64>) -> TablesView {
    TablesView { addrs: v.addrs.push(a), levels: v.levels.push(l), entries: v.entries + es }
}

/// Replace the block entry `i` of the table `k` (of level 1 or 2) by a table of the next
/// level, in a page from `pages`, that maps the same memory with the same attributes (see
/// `split_entries`). `OutOfPhysicalMemory` if no page can be had (or only one outside the 48
/// bits a descriptor holds).
pub fn remap_block<P: PageAllocator<Physical>>(
    tables: &mut PageTables,
    k: usize,
    i: usize,
    pages: &mut P,
) -> (r: Result<(), Error>)
    requires
        tables_wf(old(tables)@),
        owned(old(tables)@, *old(pages)),
        old(pages).inv(),
        k < old(tables)@.addrs.len(),
        i < ENTRIES,
        old(tables)@.levels[k as int] == 1 || old(tables)@.levels[k as int] == 2,
        present(entry(old(tables)@, k as int, i as int)),
        is_block(entry(old(tables)@, k as int, i as int)),
    ensures
        tables_wf(final(tables)@),
        owned(final(tables)@, *final(pages)),
        final(pages).inv(),
        allocations_kept(*old(pages), *final(pages)),
        grows(old(tables)@, final(tables)@),
        same_entries_except(old(tables)@, final(tables)@, k as int, i as int),
        ({
            let v = old(tables)@;
            let w = final(tables)@;
            let e = entry(v, k as int, i as int);
            let l = v.levels[k as int];
            match r {
                Ok(_) => {
                    let a = w.addrs[v.addrs.len() as int];
                    &&& w.addrs.len() == v.addrs.len() + 1
                    &&& a % PAGE_SIZE as u64 == 0
                    &&& w == set_entry(
                        add_filled(v, a, (l + 1) as u8, split_entries(e, l)),
                        k as int,
                        i as int,
                        table_descriptor_bits(a),
                    )
                    &&& target(e) + entry_span(l) <= 0x1_0000_0000_0000 ==> forall|
                        sp: VirtualAddressSpace,
                        va: u64,
                    |
                        space_wf(v, sp) ==> #[trigger] translate(w, sp, va) == translate(v, sp, va)
                },
                Err(err) => err == Error::Memory(MemoryError::OutOfPhysicalMemory) && w == v,
            }
        }),
        took_at_most(*old(pages), *final(pages), 1),
        r is Err ==> !old(pages).has_room(1),
        r is Ok ==> present(entry(final(tables)@, k as int, i as int)) && !is_block(
            entry(final(tables)@, k as int, i as int),
        ),
        r is Ok ==> forall|sp: VirtualAddressSpace, va: u64|
            space_wf(old(tables)@, sp) && low_mapped(old(tables)@, sp, va) ==> #[trigger] translate(
                final(tables)@,
                sp,
                va,
            ) == translate(old(tables)@, sp, va),
{
    let ghost v = tables@;
    let e = tables.get(k, i);
    let l = tables.level(k);
    let page = match pages.allocate(1) {
        Some(p) => p,
        None => return Err(Error::Memory(MemoryError::OutOfPhysicalMemory)),
    };
    let a = page.addr();
    proof {
        lemma_page_in_mask(a);
    }
    if a & ADDRESS_MASK != a {
        return Err(Error::Memory(MemoryError::OutOfPhysicalMemory));
    }
    proof {
        lemma_find_from(v.addrs, a, 0);
        if find_table(v, a) is Some {
            let j = find_table(v, a).unwrap();
            assert(old(pages).allocated(v.addrs[j]));
        }
    }
    let k2 = tables.add(a, l + 1);
    proof {
        lemma_add_table_wf(v, a, (l + 1) as u8);
    }
    let old_entry = TableEntry { bits: e };
    let lower = old_entry.lower_attributes();
    let upper = old_entry.upper_attributes();
    let span: u64 = if l == 1 { 0x20_0000 } else { 0x1000 };
    let mut to: u64 = e & ADDRESS_MASK;
    let ghost es = split_entries(e, l);
    let ghost n = v.entries.len();
    assert(to <= ADDRESS_MASK) by (bit_vector)
        requires
            to == e & ADDRESS_MASK,
    ;
    let mut j: usize = 0;
    while j < ENTRIES
        invariant
            j <= ENTRIES,
            tables_wf(tables@),
            k2 == v.addrs.len(),
            n == v.entries.len(),
            tables@.addrs == v.addrs.push(a),
            tables@.levels == v.levels.push((l + 1) as u8),
            tables@.entries.len() == n + ENTRIES,
            forall|x: int| 0 <= x < n ==> #[trigger] tables@.entries[x] == v.entries[x],
            forall|x: int| 0 <= x < j ==> #[trigger] tables@.entries[n + x] == es[x],
            forall|x: int| j <= x < ENTRIES ==> #[trigger] tables@.entries[n + x] == 0,
            j < ENTRIES ==> to == target(e) + j * span,
            span == entry_span((l + 1) as u8),
            target(e) <= ADDRESS_MASK,
            l == 1 || l == 2,
            lower.0 == ((e >> 2u64) & 0x3FF) as u16,
            upper.0 == ((e >> 52u64) & 0xFFF) as u16,
            es == split_entries(e, l),
        decreases ENTRIES - j,
    {
        let d = if l == 1 {
            TableEntry::create_block_descriptor(PhysicalAddress::new(to), lower, upper)
        } else {
            TableEntry::create_page_descriptor(PhysicalAddress::new(to), lower, upper)
        };
        proof {
            assert(d.bits == es[j as int]);
            let dl = (l + 1) as u8;
            if l == 1 {
                let db = d.bits;
                let lo = lower.0;
                let up = upper.0;
                assert(db & 2 == 0) by (bit_vector)
                    requires
                        db == 1u64 | 0u64 | (((lo & 0x3FFu16) as u64) << 2u64) | (to & ADDRESS_MASK)
                            | (((up & 0xFFFu16) as u64) << 52u64),
                ;
            }
            assert(!points_to_table(dl, d.bits));
            lemma_set_entry_wf(tables@, k2 as int, j as int, d.bits);
        }
        let ghost before = tables@;
        tables.set(k2, j, d.bits);
        proof {
            assert forall|x: int| 0 <= x < n implies #[trigger] tables@.entries[x] == v.entries[x] by {
                assert(ENTRIES * k2 + j != x);
            }
            assert forall|x: int| 0 <= x < j + 1 implies #[trigger] tables@.entries[n + x] == es[x] by {
                if x < j {
                    assert(before.entries[n + x] == es[x]);
                }
            }
            assert forall|x: int| j + 1 <= x < ENTRIES implies #[trigger] tables@.entries[n + x] == 0 by {
                assert(before.entries[n + x] == 0);
            }
        }
        if j + 1 < ENTRIES {
            assert(to + span <= ADDRESS_MASK + 511 * 0x20_0000);
            to = to + span;
        }
        j += 1;
    }
    let ghost w1 = tables@;
    proof {
        assert forall|x: int| n <= x < n + ENTRIES implies w1.entries[x] == es[x - n] by {
            assert(w1.entries[n + (x - n)] == es[x - n]);
        }
        assert(w1.entries =~= v.entries + es);
        assert(w1 == add_filled(v, a, (l + 1) as u8, es));
    }
    let d = 3u64 | (a & ADDRESS_MASK);
    proof {
        lemma_page_in_mask(a);
        lemma_find_from(w1.addrs, a, 0);
        assert(find_table(w1, a) == Some(k2 as int)) by {
            lemma_find_push(v.addrs, a, a, 0);
        }
        lemma_find_from(v.addrs, a, 0);
        assert forall|k3: int, i3: int|
            0 <= k3 < w1.addrs.len() && 0 <= i3 < ENTRIES && (k3 != k || i3 != i) && #[trigger] points_to_table(
                w1.levels[k3],
                entry(w1, k3, i3),
            ) implies target(entry(w1, k3, i3)) != target(d) by {
            if k3 < v.addrs.len() {
                assert(ENTRIES * k3 + i3 < n);
                assert(entry(w1, k3, i3) == entry(v, k3, i3));
                assert(w1.levels[k3] == v.levels[k3]);
                let t = target(entry(v, k3, i3));
                assert(find_table(v, t) is Some);
            } else {
                assert(k3 == k2);
                assert(entry(w1, k3, i3) == w1.entries[n + i3]);
                let x = es[i3];
                lemma_leaf_bits(
                    (target(e) + i3 * entry_span((l + 1) as u8)) as u64,
                    ((e >> 2u64) & 0x3FF) as u16,
                    ((e >> 52u64) & 0xFFF) as u16,
                    l + 1 == 3,
                );
                assert(!points_to_table((l + 1) as u8, x));
            }
        }
        lemma_set_entry_wf(w1, k as int, i as int, d);
    }
    tables.set(k, i, d);
    proof {
        let w = tables@;
        assert forall|x: int| 0 <= x < w.addrs.len() implies final(pages).allocated(#[trigger] w.addrs[x]) by {
            if x < v.addrs.len() {
                assert(old(pages).allocated(v.addrs[x]));
            }
        }
        assert forall|k3: int, i3: int|
            0 <= k3 < v.addrs.len() && 0 <= i3 < ENTRIES && (k3 != k || i3 != i) implies #[trigger] entry(
            w,
            k3,
            i3,
        ) == entry(v, k3, i3) by {
            assert(ENTRIES * k3 + i3 < n);
            assert(w1.entries[ENTRIES * k3 + i3] == v.entries[ENTRIES * k3 + i3]);
            assert(entry(w, k3, i3) == entry(w1, k3, i3));
        }
        assert(w.addrs[v.addrs.len() as int] == a);
    }
    proof {
        let w = tables@;
        assert forall|sp: VirtualAddressSpace, va: u64|
            target(e) + entry_span(l) <= 0x1_0000_0000_0000 && space_wf(v, sp) implies #[trigger] translate(
            w,
            sp,
            va,
        ) == translate(v, sp, va) by {
            lemma_split_keeps_translation(v, k as int, i as int, a, sp, va);
        }
        assert forall|sp: VirtualAddressSpace, va: u64|
            space_wf(v, sp) && low_mapped(v, sp, va) implies #[trigger] translate(w, sp, va) == translate(
            v,
            sp,
            va,
        ) by {
            lemma_split_keeps_translation(v, k as int, i as int, a, sp, va);
        }
    }
    Ok(())
}

/// The bits of the page descriptor of a 4 KB mapping of `to`: attribute index 1, inner
/// shareable, accessed.
pub open spec fn page_4k_bits(to: u64) -> u64 {
    leaf_descriptor_bits(to, 0x1C1, 0, true)
}

proof fn lemma_leaf_bits(to: u64, lower: u16, upper: u16, is_page: bool)
    ensures
        present(leaf_descriptor_bits(to, lower, upper, is_page)),
        is_block(leaf_descriptor_bits(to, lower, upper, is_page)) == !is_page,
        target(leaf_descriptor_bits(to, lower, upper, is_page)) == to & ADDRESS_MASK,
{
    let p: u64 = if is_page {
        2u64
    } else {
        0u64
    };
    let b = 1u64 | p | (((lower & 0x3FFu16) as u64) << 2u64) | (to & ADDRESS_MASK) | (((upper
        & 0xFFFu16) as u64) << 52u64);
    assert(b & 1 != 0 && (b & 2 == 0) == (p == 0) && b & ADDRESS_MASK == to & ADDRESS_MASK) by (bit_vector)
        requires
            b == 1u64 | p | (((lower & 0x3FFu16) as u64) << 2u64) | (to & ADDRESS_MASK) | (((upper
                & 0xFFFu16) as u64) << 52u64),
            p == 0 || p == 2,
    ;
}

/// The level of the first table of `sp`.
pub open spec fn top_level(sp: VirtualAddressSpace) -> int {
    if sp.is_low {
        1
    } else {
        0
    }
}

/// From the table `k` on, the way to `va` down to the level `lv` meets a present entry of that
/// level, or a present page or block entry above it: the slot of `va` at `lv` is taken.
pub open spec fn taken_from(v: TablesView, k: int, va: u64, lv: int) -> bool
    decreases 4 - v.levels[k],
{
    if k < 0 || k >= v.addrs.len() || v.levels[k] > 3 {
        false
    } else {
        let l = v.levels[k];
        let e = entry(v, k, va_index(va, l));
        if !present(e) {
            false
        } else if l >= lv || l == 3 || is_block(e) {
            true
        } else {
            match find_table(v, target(e)) {
                Some(k2) => if v.levels[k2] == l + 1 {
                    taken_from(v, k2, va, lv)
                } else {
                    false
                },
                None => false,
            }
        }
    }
}

/// A change that keeps the tables and all their entries but one leaves whether a slot is taken
/// as it was, for the addresses whose way does not read that entry.
proof fn lemma_taken_frame(v: TablesView, w: TablesView, k: int, va: u64, lv: int, kt: int, it: int)
    requires
        tables_wf(v),
        grows(v, w),
        same_entries_except(v, w, kt, it),
        0 <= k < v.addrs.len(),
        !(reach(v, k, va, kt) && va_index(va, v.levels[kt]) == it),
    ensures
        taken_from(w, k, va, lv) == taken_from(v, k, va, lv),
    decreases 4 - v.levels[k],
{
    let l = v.levels[k];
    assert(w.levels[k] == l);
    let i = va_index(va, l);
    lemma_index_bound(va, l);
    if k == kt {
        assert(i != it);
    }
    assert(entry(w, k, i) == entry(v, k, i));
    let e = entry(v, k, i);
    if points_to_table(l, e) {
        let k2 = find_table(v, target(e)).unwrap();
        lemma_find_from(v.addrs, target(e), 0);
        lemma_grows_find(v, w, target(e), 0);
        assert(w.levels[k2] == v.levels[k2]);
        lemma_taken_frame(v, w, k2, va, lv, kt, it);
    }
}

/// Along a way that comes to the table `kt` of a level up to `lv`, whether the slot is taken
/// is decided from `kt`, before and after a change of an entry of `kt`.
proof fn lemma_taken_reach(v: TablesView, w: TablesView, k: int, va: u64, lv: int, kt: int, it: int)
    requires
        tables_wf(v),
        grows(v, w),
        same_entries_except(v, w, kt, it),
        reach(v, k, va, kt),
        v.levels[kt] <= lv,
    ensures
        taken_from(v, k, va, lv) == taken_from(v, kt, va, lv),
        taken_from(w, k, va, lv) == taken_from(w, kt, va, lv),
    decreases 4 - v.levels[k],
{
    if k != kt {
        let l = v.levels[k];
        let i = va_index(va, l);
        lemma_index_bound(va, l);
        assert(w.levels[k] == l);
        assert(entry(w, k, i) == entry(v, k, i));
        let e = entry(v, k, i);
        let k2 = find_table(v, target(e)).unwrap();
        lemma_find_from(v.addrs, target(e), 0);
        lemma_grows_find(v, w, target(e), 0);
        assert(w.levels[k2] == v.levels[k2]);
        assert(v.levels[k] < v.levels[kt]) by {
            lemma_reach_level(v, k, va, kt);
        }
        lemma_taken_reach(v, w, k2, va, lv, kt, it);
    }
}

/// A way goes down the levels.
proof fn lemma_reach_level(v: TablesView, k: int, va: u64, kt: int)
    requires
        tables_wf(v),
        reach(v, k, va, kt),
    ensures
        v.levels[k] <= v.levels[kt],
        k != kt ==> v.levels[k] < v.levels[kt],
    decreases 4 - v.levels[k],
{
    if k != kt {
        let l = v.levels[k];
        let e = entry(v, k, va_index(va, l));
        let k2 = find_table(v, target(e)).unwrap();
        lemma_reach_level(v, k2, va, kt);
    }
}

/// Whether a slot of a level `l` is taken is kept for every address but those whose slot of
/// level `l`, or of the level `lv` where `l` is deeper, is the slot of `va`.
pub open spec fn keeps_taken(v: TablesView, w: TablesView, sp: VirtualAddressSpace, va: u64, lv: int) -> bool {
    forall|x: u64, l: int|
        !same_slot(sp, x, va, if l < lv { l } else { lv }) ==> #[trigger] slot_taken(w, sp, x, l)
            == slot_taken(v, sp, x, l)
}

/// A step down the way of `va` at the level `j`, above `lv`, that changes whether a slot is
/// taken only for the slots through the entry of `va` at `j`, of a level up to `j`, keeps what
/// `keeps_taken` says.
proof fn lemma_keeps_taken_step(
    v0: TablesView,
    v1: TablesView,
    v2: TablesView,
    sp: VirtualAddressSpace,
    va: u64,
    j: int,
    lv: int,
)
    requires
        keeps_taken(v0, v1, sp, va, lv),
        forall|x: u64, l: int|
            !(same_slot(sp, x, va, j) && l <= j) ==> #[trigger] slot_taken(v2, sp, x, l) == slot_taken(v1, sp, x, l),
        j < lv,
    ensures
        keeps_taken(v0, v2, sp, va, lv),
{
    assert forall|x: u64, l: int| !same_slot(sp, x, va, if l < lv { l } else { lv }) implies #[trigger] slot_taken(
        v2,
        sp,
        x,
        l,
    ) == slot_taken(v0, sp, x, l) by {
        assert(slot_taken(v1, sp, x, l) == slot_taken(v0, sp, x, l));
        if same_slot(sp, x, va, j) && l <= j {
            assert(same_slot(sp, x, va, l));
        }
        assert(slot_taken(v2, sp, x, l) == slot_taken(v1, sp, x, l));
    }
}

/// Setting the entry of `va` in the table of level `lv` on its way keeps what `keeps_taken`
/// says.
proof fn lemma_keeps_taken_leaf(
    v0: TablesView,
    before: TablesView,
    w: TablesView,
    sp: VirtualAddressSpace,
    va: u64,
    ks: Seq<int>,
    lv: int,
    d: u64,
)
    requires
        keeps_taken(v0, before, sp, va, lv),
        tables_wf(before),
        path_to(before, sp, va, ks, lv),
        w == set_entry(before, ks[lv], va_index(va, lv as u8), d),
    ensures
        keeps_taken(v0, w, sp, va, lv),
{
    let kt = ks[lv];
    let i = va_index(va, lv as u8);
    let top = top_level(sp);
    lemma_index_bound(va, lv as u8);
    assert(0 <= kt < before.addrs.len() && before.levels[kt] == lv);
    assert forall|k2: int, i2: int|
        0 <= k2 < before.addrs.len() && 0 <= i2 < ENTRIES && (k2 != kt || i2 != i) implies #[trigger] entry(
        w,
        k2,
        i2,
    ) == entry(before, k2, i2) by {
        assert(ENTRIES * k2 + i2 != ENTRIES * kt + i);
    }
    assert(same_entries_except(before, w, kt, i));
    assert(grows(before, w));
    assert(find_table(w, sp.root) == find_table(before, sp.root));
    assert forall|x: u64, l: int| !same_slot(sp, x, va, if l < lv { l } else { lv }) implies #[trigger] slot_taken(
        w,
        sp,
        x,
        l,
    ) == slot_taken(v0, sp, x, l) by {
        assert(slot_taken(before, sp, x, l) == slot_taken(v0, sp, x, l));
        if reach(before, ks[top], x, kt) && va_index(x, before.levels[kt]) == i {
            lemma_reach_path(before, sp, x, va, ks, lv);
            assert(same_slot(sp, x, va, lv));
        }
        lemma_taken_frame(before, w, ks[top], x, l, kt, i);
    }
}

/// The slot of `va` at the level `lv` is taken in `sp` (see `taken_from`).
pub open spec fn slot_taken(v: TablesView, sp: VirtualAddressSpace, va: u64, lv: int) -> bool {
    match find_table(v, sp.root) {
        Some(k) => taken_from(v, k, va, lv),
        None => false,
    }
}

/// The entry of the first table of the high space `sp` on the way to `va` is a present block,
/// which no remap can split.
pub open spec fn top_blocked(v: TablesView, sp: VirtualAddressSpace, va: u64) -> bool {
    &&& !sp.is_low
    &&& match find_table(v, sp.root) {
        Some(k) => present(entry(v, k, va_index(va, 0))) && is_block(entry(v, k, va_index(va, 0))),
        None => false,
    }
}

/// An address that is mapped does not meet a block in the first table of its space.
pub proof fn lemma_mapped_not_top_blocked(v: TablesView, sp: VirtualAddressSpace, x: u64)
    requires
        space_wf(v, sp),
        translate(v, sp, x) is Some,
    ensures
        !top_blocked(v, sp, x),
{
    lemma_index_bound(x, 0);
}

/// A page whose slot of level 3 is free does not meet a block in the first table of its space.
pub proof fn lemma_free_not_top_blocked(v: TablesView, sp: VirtualAddressSpace, x: u64)
    requires
        space_wf(v, sp),
        !slot_taken(v, sp, x, 3),
    ensures
        !top_blocked(v, sp, x),
{
    lemma_index_bound(x, 0);
    lemma_find_from(v.addrs, sp.root, 0);
    if !sp.is_low {
        let k = find_table(v, sp.root).unwrap();
        assert(v.levels[k] == 0);
        assert(taken_from(v, k, x, 3) == slot_taken(v, sp, x, 3));
    }
}

/// Every entry of the table `k` is empty.
pub open spec fn fresh_table(v: TablesView, k: int) -> bool {
    forall|j: int| 0 <= j < ENTRIES ==> #[trigger] entry(v, k, j) == 0
}

/// Along a path, whether the slot is taken is decided from any table of the path above it.
proof fn lemma_taken_path(v: TablesView, sp: VirtualAddressSpace, va: u64, ks: Seq<int>, l: int, lv: int)
    requires
        path_to(v, sp, va, ks, l),
        l <= lv <= 3,
    ensures
        slot_taken(v, sp, va, lv) == taken_from(v, ks[l], va, lv),
    decreases l,
{
    let top = top_level(sp);
    if l > top {
        assert(path_to(v, sp, va, ks, l - 1));
        lemma_taken_path(v, sp, va, ks, l - 1, lv);
        let e = entry(v, ks[l - 1], va_index(va, (l - 1) as u8));
        assert(points_to_table((l - 1) as u8, e) && find_table(v, target(e)) == Some(ks[l]));
        assert(v.levels[ks[l - 1]] == l - 1);
        assert(v.levels[ks[l]] == l);
        assert(taken_from(v, ks[l - 1], va, lv) == taken_from(v, ks[l], va, lv));
    }
}

/// Why a step down the path of `va` to the slot at level `lv` fails: `AlreadyMapped` at a
/// present block on the way, which the tables `v0` hold too unless the table of the step is a
/// new one (then it has no present entry), and which is the first table's unless `force`;
/// `OutOfPhysicalMemory` when no page is left after at most `n` pages were taken of `p0`.
proof fn lemma_step_fails<P: PageAllocator<Physical>>(
    v0: TablesView,
    v: TablesView,
    p0: P,
    p: P,
    sp: VirtualAddressSpace,
    va: u64,
    ks: Seq<int>,
    l: int,
    lv: int,
    n: nat,
    budget: usize,
    e: Error,
    force: bool,
)
    requires
        tables_wf(v),
        path_to(v, sp, va, ks, l),
        l <= lv <= 3,
        !force ==> v == v0 || fresh_table(v, ks[l]),
        force && l >= 1 ==> !(present(entry(v, ks[l], va_index(va, l as u8))) && is_block(
            entry(v, ks[l], va_index(va, l as u8)),
        )),
        force ==> l >= 1 || v == v0,
        force && l == lv ==> e != Error::Memory(MemoryError::AlreadyMapped),
        e == Error::Memory(MemoryError::AlreadyMapped) ==> present(entry(v, ks[l], va_index(va, l as u8)))
            && (is_block(entry(v, ks[l], va_index(va, l as u8))) || l == lv),
        e == Error::Memory(MemoryError::OutOfPhysicalMemory) ==> !p.has_room(1),
        e == Error::Memory(MemoryError::AlreadyMapped) || e == Error::Memory(MemoryError::OutOfPhysicalMemory),
        took_at_most(p0, p, n),
        n < budget,
    ensures
        e == Error::Memory(MemoryError::AlreadyMapped) ==> slot_taken(v0, sp, va, lv) && (!force || top_blocked(
            v0,
            sp,
            va,
        )),
        e == Error::Memory(MemoryError::OutOfPhysicalMemory) ==> !p0.has_room(budget),
{
    let i = va_index(va, l as u8);
    if e == Error::Memory(MemoryError::AlreadyMapped) {
        if !force && v != v0 {
            assert(entry(v, ks[l], i) == 0) by {
                lemma_index_bound(va, l as u8);
            }
            lemma_zero_not_present();
        }
        assert(v == v0);
        lemma_taken_path(v0, sp, va, ks, l, lv);
        assert(v0.levels[ks[l]] == l);
        lemma_index_bound(va, l as u8);
        assert(taken_from(v0, ks[l], va, lv));
    } else {
        if p0.has_room(budget) {
            lemma_room_left(p0, p, n, budget);
        }
    }
}

/// A page handed out below 2^48 fits in a descriptor, and the descriptor of a table there is
/// present and no block.
proof fn lemma_page_in_mask(a: u64)
    requires
        a % 4096 == 0,
        a + 4096 <= 0x1_0000_0000_0000,
    ensures
        a & ADDRESS_MASK == a,
        (3u64 | (a & ADDRESS_MASK)) & 1 != 0,
        (3u64 | (a & ADDRESS_MASK)) & 2 != 0,
        (3u64 | (a & ADDRESS_MASK)) & ADDRESS_MASK == a,
{
    assert(a & 0x0000_FFFF_FFFF_F000u64 == a && (3u64 | (a & 0x0000_FFFF_FFFF_F000u64)) & 1 != 0 && (3u64
        | (a & 0x0000_FFFF_FFFF_F000u64)) & 2 != 0 && (3u64 | (a & 0x0000_FFFF_FFFF_F000u64))
        & 0x0000_FFFF_FFFF_F000u64 == a) by (bit_vector)
        requires
            a % 4096 == 0,
            a < 0x1_0000_0000_0000,
    ;
}

/// `ks[l]` is the table of level `l` that `va` goes through in `sp`, for the levels from the
/// top one to `lv`: the first table at the top, else the one the entry for `va` of the table
/// above points at.
pub open spec fn path_to(v: TablesView, sp: VirtualAddressSpace, va: u64, ks: Seq<int>, lv: int) -> bool {
    let top = top_level(sp);
    &&& ks.len() == 4
    &&& top <= lv <= 3
    &&& find_table(v, sp.root) == Some(ks[top])
    &&& forall|l: int|
        top <= l <= lv ==> 0 <= #[trigger] ks[l] < v.addrs.len() && v.levels[ks[l]] == l
    &&& forall|l: int|
        top <= l < lv ==> {
            let e = entry(v, #[trigger] ks[l], va_index(va, l as u8));
            &&& points_to_table(l as u8, e)
            &&& find_table(v, target(e)) == Some(ks[l + 1])
        }
}

/// A change of the tables that only adds tables and sets an entry of the last table of a
/// path keeps the path.
proof fn lemma_path_keep(
    v: TablesView,
    w: TablesView,
    sp: VirtualAddressSpace,
    va: u64,
    ks: Seq<int>,
    lv: int,
    i: int,
)
    requires
        tables_wf(v),
        path_to(v, sp, va, ks, lv),
        grows(v, w),
        same_entries_except(v, w, ks[lv], i),
    ensures
        path_to(w, sp, va, ks, lv),
{
    let top = top_level(sp);
    lemma_grows_find(v, w, sp.root, 0);
    assert forall|l: int| top <= l <= lv implies 0 <= #[trigger] ks[l] < w.addrs.len() && w.levels[ks[l]]
        == l by {
        assert(0 <= ks[l] < v.addrs.len());
    }
    assert forall|l: int| top <= l < lv implies {
        let e = entry(w, #[trigger] ks[l], va_index(va, l as u8));
        &&& points_to_table(l as u8, e)
        &&& find_table(w, target(e)) == Some(ks[l + 1])
    } by {
        assert(0 <= ks[l] < v.addrs.len() && v.levels[ks[l]] == l);
        assert(v.levels[ks[lv]] == lv);
        assert(ks[l] != ks[lv]);
        let i2 = va_index(va, l as u8);
        assert(0 <= i2 < ENTRIES) by {
            lemma_index_bound(va, l as u8);
        }
        assert(entry(w, ks[l], i2) == entry(v, ks[l], i2));
        let e = entry(v, ks[l], i2);
        lemma_grows_find(v, w, target(e), 0);
    }
}

/// Along a path to a table of level `lv`, `va` is mapped where that table leads it.
proof fn lemma_walk_path(v: TablesView, sp: VirtualAddressSpace, va: u64, ks: Seq<int>, lv: int)
    requires
        path_to(v, sp, va, ks, lv),
        lv >= 1,
    ensures
        translate(v, sp, va) == walk(v, ks[lv], va),
{
    let top = top_level(sp);
    assert(0 <= ks[lv] < v.addrs.len() && v.levels[ks[lv]] == lv);
    if lv >= 3 {
        let e2 = entry(v, ks[2], va_index(va, 2));
        assert(points_to_table(2, e2) && find_table(v, target(e2)) == Some(ks[3]));
        assert(v.levels[ks[2]] == 2);
        assert(walk(v, ks[2], va) == walk(v, ks[3], va));
    }
    if lv >= 2 {
        let e1 = entry(v, ks[1], va_index(va, 1));
        assert(points_to_table(1, e1) && find_table(v, target(e1)) == Some(ks[2]));
        assert(v.levels[ks[1]] == 1);
        assert(v.levels[ks[2]] == 2);
        assert(walk(v, ks[1], va) == walk(v, ks[2], va));
    }
    if !sp.is_low {
        assert(v.levels[ks[0]] == 0);
        assert(v.levels[ks[1]] == 1);
        let e0 = entry(v, ks[0], va_index(va, 0));
        assert(points_to_table(0, e0) && find_table(v, target(e0)) == Some(ks[1]));
        assert(walk(v, ks[0], va) == walk(v, ks[1], va));
    }
}

/// A path of `b` is a path of every address that goes through the same entries above its last
/// table.
proof fn lemma_path_same_slot(v: TablesView, sp: VirtualAddressSpace, a: u64, b: u64, ks: Seq<int>, lv: int)
    requires
        path_to(v, sp, b, ks, lv),
        same_slot(sp, a, b, lv - 1),
    ensures
        path_to(v, sp, a, ks, lv),
{
    let top = top_level(sp);
    assert forall|l: int| top <= l < lv implies {
        let e = entry(v, #[trigger] ks[l], va_index(a, l as u8));
        &&& points_to_table(l as u8, e)
        &&& find_table(v, target(e)) == Some(ks[l + 1])
    } by {
        assert(va_index(a, l as u8) == va_index(b, l as u8));
    }
}

/// Setting the entry of the table of level `lv` on the path of `va` changes where the addresses
/// that go through that entry are mapped, and no other: those are mapped where that table
/// leads them, before and after.
proof fn lemma_set_on_path(
    v: TablesView,
    w: TablesView,
    sp: VirtualAddressSpace,
    va: u64,
    ks: Seq<int>,
    lv: int,
    d: u64,
)
    requires
        tables_wf(v),
        path_to(v, sp, va, ks, lv),
        lv >= 1,
        w == set_entry(v, ks[lv], va_index(va, lv as u8), d),
    ensures
        forall|x: u64|
            !same_slot(sp, x, va, lv) ==> #[trigger] translate(w, sp, x) == translate(v, sp, x),
        forall|x: u64|
            same_slot(sp, x, va, lv) ==> #[trigger] translate(w, sp, x) == walk(w, ks[lv], x)
                && translate(v, sp, x) == walk(v, ks[lv], x),
{
    let kt = ks[lv];
    let i = va_index(va, lv as u8);
    let top = top_level(sp);
    lemma_index_bound(va, lv as u8);
    assert(0 <= kt < v.addrs.len() && v.levels[kt] == lv);
    assert forall|k2: int, i2: int|
        0 <= k2 < v.addrs.len() && 0 <= i2 < ENTRIES && (k2 != kt || i2 != i) implies #[trigger] entry(
        w,
        k2,
        i2,
    ) == entry(v, k2, i2) by {
        assert(ENTRIES * k2 + i2 != ENTRIES * kt + i);
    }
    assert(same_entries_except(v, w, kt, i));
    assert(grows(v, w));
    assert(find_table(w, sp.root) == find_table(v, sp.root));
    assert forall|x: u64| !same_slot(sp, x, va, lv) implies #[trigger] translate(w, sp, x) == translate(
        v,
        sp,
        x,
    ) by {
        if reach(v, ks[top], x, kt) && va_index(x, v.levels[kt]) == i {
            lemma_reach_path(v, sp, x, va, ks, lv);
        }
        lemma_walk_frame(v, w, ks[top], x, kt, i);
    }
    assert forall|x: u64| same_slot(sp, x, va, lv) implies #[trigger] translate(w, sp, x) == walk(
        w,
        kt,
        x,
    ) && translate(v, sp, x) == walk(v, kt, x) by {
        lemma_path_same_slot(v, sp, x, va, ks, lv);
        lemma_walk_path(v, sp, x, ks, lv);
        lemma_path_keep(v, w, sp, x, ks, lv, i);
        lemma_walk_path(w, sp, x, ks, lv);
    }
}

/// Setting the entry of the table of level `lv` on the path of `va` to a leaf (a page at level
/// 3, else a block) mapping `to` maps every address that goes through that entry to `to` plus
/// its offset, and leaves the others.
proof fn lemma_set_leaf(
    v: TablesView,
    w: TablesView,
    sp: VirtualAddressSpace,
    va: u64,
    ks: Seq<int>,
    lv: int,
    d: u64,
    to: u64,
)
    requires
        tables_wf(v),
        path_to(v, sp, va, ks, lv),
        1 <= lv <= 3,
        w == set_entry(v, ks[lv], va_index(va, lv as u8), d),
        present(d),
        is_block(d) == (lv < 3),
        target(d) == target(to),
    ensures
        maps_slot(w, sp, va, to, lv),
        keeps_other_slots(v, w, sp, va, lv),
        !present(entry(v, ks[lv], va_index(va, lv as u8))) ==> slot_unmapped(v, sp, va, lv),
{
    let kt = ks[lv];
    let i = va_index(va, lv as u8);
    lemma_index_bound(va, lv as u8);
    lemma_set_on_path(v, w, sp, va, ks, lv, d);
    assert(v.levels[kt] == lv);
    assert(entry(w, kt, i) == d);
    assert forall|x: u64| same_slot(sp, x, va, lv) implies #[trigger] translate(w, sp, x) == Some(
        (target(to) + offset_in(x, lv)) as int,
    ) by {
        assert(va_index(x, lv as u8) == i);
        assert(translate(w, sp, x) == walk(w, kt, x));
    }
    if !present(entry(v, kt, i)) {
        assert forall|x: u64| same_slot(sp, x, va, lv) implies #[trigger] translate(v, sp, x) is None by {
            assert(va_index(x, lv as u8) == i);
            assert(translate(w, sp, x) == walk(w, kt, x));
            assert(translate(v, sp, x) == walk(v, kt, x));
        }
    }
}

/// What holds of the slot of `from` and of the other slots after a change of `before` holds of
/// them since `v`, where `before` maps every address as `v`.
proof fn lemma_chain_slots(
    v: TablesView,
    before: TablesView,
    w: TablesView,
    sp: VirtualAddressSpace,
    from: u64,
    lv: int,
)
    requires
        same_translation(v, before, sp),
        keeps_other_slots(before, w, sp, from, lv),
    ensures
        keeps_other_slots(v, w, sp, from, lv),
        slot_unmapped(before, sp, from, lv) ==> slot_unmapped(v, sp, from, lv),
{
    assert forall|x: u64| !same_slot(sp, x, from, lv) implies #[trigger] translate(w, sp, x) == translate(
        v,
        sp,
        x,
    ) by {
        assert(translate(before, sp, x) == translate(v, sp, x));
    }
    if slot_unmapped(before, sp, from, lv) {
        assert forall|x: u64| same_slot(sp, x, from, lv) implies #[trigger] translate(v, sp, x) is None by {
            assert(translate(before, sp, x) == translate(v, sp, x));
        }
    }
}

/// Bits of two addresses in one span of `s` bytes that starts at `vaddr`, and of a physical
/// span of the same size at `paddr`.
#[verifier::rlimit(100)]
proof fn lemma_span_bits(vaddr: u64, x: u64, paddr: u64, s: u64)
    by (bit_vector)
    requires
        (s == 0x1000 && vaddr % 0x1000 == 0) || (s == 0x20_0000 && vaddr % 0x20_0000 == 0) || (s
            == 0x4000_0000 && vaddr % 0x4000_0000 == 0),
        vaddr <= x,
        x < vaddr + s,
    ensures
        (x >> 39u64) & 0x1FF == (vaddr >> 39u64) & 0x1FF,
        (x >> 30u64) & 0x1FF == (vaddr >> 30u64) & 0x1FF,
        s <= 0x20_0000 ==> (x >> 21u64) & 0x1FF == (vaddr >> 21u64) & 0x1FF,
        s == 0x1000 ==> (x >> 12u64) & 0x1FF == (vaddr >> 12u64) & 0x1FF,
        x & ((s - 1) as u64) == x - vaddr,
        ((s == 0x1000 && paddr % 0x1000 == 0) || (s == 0x20_0000 && paddr % 0x20_0000 == 0) || (s
            == 0x4000_0000 && paddr % 0x4000_0000 == 0)) && x % 0x1000 == 0 && paddr + s
            <= 0xFFFF_FFFF_FFFF_FFFFu64 ==> (paddr & 0x0000_FFFF_FFFF_F000u64) + (x - vaddr) == ((paddr
            + (x - vaddr)) as u64) & 0x0000_FFFF_FFFF_F000u64,
{
}

/// The addresses of an entry's span that starts at `vaddr` go through the entries of `vaddr`.
proof fn lemma_chunk_slot(sp: VirtualAddressSpace, vaddr: u64, x: u64, lv: int)
    requires
        1 <= lv <= 3,
        vaddr % entry_span(lv as u8) == 0,
        vaddr <= x < vaddr + entry_span(lv as u8),
    ensures
        same_slot(sp, x, vaddr, lv),
{
    lemma_span_bits(vaddr, x, 0, entry_span(lv as u8));
    assert(va_index(x, 0) == ((x >> 39u64) & 0x1FF) as int);
    assert(va_index(x, 1) == ((x >> 30u64) & 0x1FF) as int);
    assert(va_index(x, 2) == ((x >> 21u64) & 0x1FF) as int);
    assert(va_index(x, 3) == ((x >> 12u64) & 0x1FF) as int);
    assert(va_index(vaddr, 0) == ((vaddr >> 39u64) & 0x1FF) as int);
    assert(va_index(vaddr, 1) == ((vaddr >> 30u64) & 0x1FF) as int);
    assert(va_index(vaddr, 2) == ((vaddr >> 21u64) & 0x1FF) as int);
    assert(va_index(vaddr, 3) == ((vaddr >> 12u64) & 0x1FF) as int);
}

/// A page at `x` in an entry's span that starts at `vaddr` and maps `paddr` is mapped to the
/// page as far from `paddr` as `x` is from `vaddr`.
pub proof fn lemma_chunk_phys(paddr: u64, vaddr: u64, x: u64, lv: int)
    requires
        1 <= lv <= 3,
        paddr % entry_span(lv as u8) == 0,
        vaddr % entry_span(lv as u8) == 0,
        vaddr <= x < vaddr + entry_span(lv as u8),
        x % 0x1000 == 0,
        paddr + entry_span(lv as u8) <= u64::MAX,
    ensures
        target(paddr) + offset_in(x, lv) == target((paddr + (x - vaddr)) as u64),
{
    let sp = entry_span(lv as u8);
    lemma_span_bits(vaddr, x, paddr, sp);
    assert(offset_in(x, lv) == x & ((sp - 1) as u64));
}

/// Mapping the next span of `map` (an entry of level `lv` at `vaddr`, to `paddr`) where nothing
/// was mapped extends the pages mapped from `from` to the end of the span, and keeps what was
/// mapped.
proof fn lemma_map_chunk(
    v0: TablesView,
    before: TablesView,
    w: TablesView,
    sp: VirtualAddressSpace,
    from: u64,
    to: u64,
    vaddr: u64,
    paddr: u64,
    lv: int,
)
    requires
        1 <= lv <= 3,
        vaddr % entry_span(lv as u8) == 0,
        paddr % entry_span(lv as u8) == 0,
        paddr + entry_span(lv as u8) <= u64::MAX,
        from <= vaddr,
        paddr == to + (vaddr - from),
        keeps_mapped(v0, before, sp),
        maps_pages(before, sp, from, to, vaddr as int),
        pages_unmapped(v0, sp, from, vaddr as int),
        maps_slot(w, sp, vaddr, paddr, lv),
        keeps_other_slots(before, w, sp, vaddr, lv),
        slot_unmapped(before, sp, vaddr, lv),
    ensures
        keeps_mapped(v0, w, sp),
        maps_pages(w, sp, from, to, vaddr + entry_span(lv as u8)),
        pages_unmapped(v0, sp, from, vaddr + entry_span(lv as u8)),
{
    let end = vaddr + entry_span(lv as u8);
    assert forall|x: u64| translate(v0, sp, x) is Some implies #[trigger] translate(w, sp, x)
        == translate(v0, sp, x) by {
        assert(translate(before, sp, x) == translate(v0, sp, x));
        if same_slot(sp, x, vaddr, lv) {
            assert(translate(before, sp, x) is None);
        }
    }
    assert forall|x: u64| from <= x < end && x % 0x1000 == 0 implies #[trigger] translate(w, sp, x)
        == Some(target((to + (x - from)) as u64) as int) by {
        if x < vaddr {
            assert(translate(before, sp, x) is Some);
            if same_slot(sp, x, vaddr, lv) {
                assert(translate(before, sp, x) is None);
            }
        } else {
            lemma_chunk_slot(sp, vaddr, x, lv);
            lemma_chunk_phys(paddr, vaddr, x, lv);
        }
    }
    assert forall|x: u64| from <= x < end && x % 0x1000 == 0 implies #[trigger] translate(v0, sp, x)
        is None by {
        if x >= vaddr {
            lemma_chunk_slot(sp, vaddr, x, lv);
            assert(translate(before, sp, x) is None);
            if translate(v0, sp, x) is Some {
                assert(translate(before, sp, x) == translate(v0, sp, x));
            }
        }
    }
}

/// Mapping the next span of `map` (an entry of level `lv` at `vaddr`) in a way that keeps
/// whether the other slots are taken keeps the pages after it free.
proof fn lemma_free_chunk(
    before: TablesView,
    w: TablesView,
    sp: VirtualAddressSpace,
    vaddr: u64,
    lv: int,
    end: int,
)
    requires
        1 <= lv <= 3,
        vaddr % entry_span(lv as u8) == 0,
        vaddr + entry_span(lv as u8) <= end,
        in_half(sp, vaddr as int, end),
        forall|x: u64| vaddr <= x < end && x % 0x1000 == 0 ==> !#[trigger] slot_taken(before, sp, x, 3),
        keeps_taken(before, w, sp, vaddr, lv),
    ensures
        forall|x: u64|
            vaddr + entry_span(lv as u8) <= x < end && x % 0x1000 == 0 ==> !#[trigger] slot_taken(w, sp, x, 3),
{
    let span = entry_span(lv as u8);
    assert forall|x: u64| vaddr + span <= x < end && x % 0x1000 == 0 implies !#[trigger] slot_taken(w, sp, x, 3) by {
        lemma_later_slot(sp, x, vaddr, lv, 3);
        assert(!slot_taken(before, sp, x, 3));
        assert(slot_taken(w, sp, x, 3) == slot_taken(before, sp, x, 3));
    }
}

/// What a descriptor points at lies within the 48 bits of a physical address.
proof fn lemma_target_bound(e: u64)
    ensures
        target(e) < 0x1_0000_0000_0000,
{
    assert(e & 0x0000_FFFF_FFFF_F000u64 < 0x1_0000_0000_0000u64) by (bit_vector);
}

/// Mapping the next span of `map` (an entry of level `lv` at `vaddr`, to `paddr`) in a way that
/// keeps what is mapped within the 48 bits elsewhere extends the pages mapped from `from` to the
/// end of the span.
proof fn lemma_low_chunk(
    before: TablesView,
    w: TablesView,
    sp: VirtualAddressSpace,
    from: u64,
    to: u64,
    vaddr: u64,
    paddr: u64,
    lv: int,
    end: int,
)
    requires
        1 <= lv <= 3,
        vaddr % entry_span(lv as u8) == 0,
        vaddr % 0x1000 == 0,
        paddr % entry_span(lv as u8) == 0,
        paddr + entry_span(lv as u8) <= u64::MAX,
        from <= vaddr,
        paddr == to + (vaddr - from),
        vaddr + entry_span(lv as u8) <= end,
        in_half(sp, from as int, end),
        maps_pages(before, sp, from, to, vaddr as int),
        maps_slot(w, sp, vaddr, paddr, lv),
        keeps_low(before, w, sp, vaddr, lv),
    ensures
        maps_pages(w, sp, from, to, vaddr + entry_span(lv as u8)),
{
    let span = entry_span(lv as u8);
    assert forall|x: u64| from <= x < vaddr + span && x % 0x1000 == 0 implies #[trigger] translate(w, sp, x)
        == Some(target((to + (x - from)) as u64) as int) by {
        if x < vaddr {
            lemma_later_slot(sp, vaddr, x, 3, lv);
            assert(!same_slot(sp, x, vaddr, lv));
            assert(translate(before, sp, x) == Some(target((to + (x - from)) as u64) as int));
            lemma_target_bound((to + (x - from)) as u64);
            assert(low_mapped(before, sp, x));
        } else {
            lemma_chunk_slot(sp, vaddr, x, lv);
            lemma_chunk_phys(paddr, vaddr, x, lv);
        }
    }
}

pub proof fn lemma_removes_trans(u: TablesView, v: TablesView, w: TablesView, sp: VirtualAddressSpace)
    requires
        only_removes(u, v, sp),
        only_removes(v, w, sp),
    ensures
        only_removes(u, w, sp),
{
    assert forall|x: u64| #[trigger] translate(w, sp, x) is Some implies translate(w, sp, x) == translate(
        u,
        sp,
        x,
    ) by {
        assert(translate(v, sp, x) is Some);
    }
}

/// The physical page that the 4 KB page entry of `va` in `sp` points at, if that entry is
/// present.
pub open spec fn page_frame(v: TablesView, sp: VirtualAddressSpace, va: u64) -> Option<u64> {
    match table_at(v, sp, va, 3) {
        Ok(k) => if present(entry(v, k, va_index(va, 3))) {
            Some(target(entry(v, k, va_index(va, 3))))
        } else {
            None
        },
        Err(_) => None,
    }
}

/// The table of level `lv` on the way to `va` is found again after a change of an entry of a
/// level 3 table, which no way reads above level 3.
pub proof fn lemma_table_at_frame(
    v: TablesView,
    w: TablesView,
    sp: VirtualAddressSpace,
    va: u64,
    lv: int,
    kc: int,
    ic: int,
)
    requires
        tables_wf(v),
        space_wf(v, sp),
        w.addrs == v.addrs,
        w.levels == v.levels,
        same_entries_except(v, w, kc, ic),
        w == v || (0 <= kc < v.addrs.len() && v.levels[kc] == 3),
        lv <= 3,
    ensures
        table_at(w, sp, va, lv) == table_at(v, sp, va, lv),
        table_at(v, sp, va, lv) matches Ok(k) ==> 0 <= k < v.addrs.len() && v.levels[k] == if lv <= top_level(sp) {
            top_level(sp)
        } else {
            lv
        },
    decreases lv,
{
    lemma_find_from(v.addrs, sp.root, 0);
    if lv > top_level(sp) {
        lemma_table_at_frame(v, w, sp, va, lv - 1, kc, ic);
        if let Ok(k) = table_at(v, sp, va, lv - 1) {
            let i = va_index(va, (lv - 1) as u8);
            lemma_index_bound(va, (lv - 1) as u8);
            if w != v {
                assert(k != kc);
            }
            assert(entry(w, k, i) == entry(v, k, i));
            let e = entry(v, k, i);
            lemma_find_from(v.addrs, target(e), 0);
            if present(e) && !is_block(e) {
                assert(points_to_table(v.levels[k], e));
            }
        }
    }
}

/// The walk to a table stops only at an entry not present or at a block.
pub proof fn lemma_table_at_errors(v: TablesView, sp: VirtualAddressSpace, va: u64, lv: int)
    ensures
        table_at(v, sp, va, lv) matches Err(x) ==> x == MemoryError::NotMapped || x
            == MemoryError::AlreadyMapped,
    decreases lv,
{
    if lv > top_level(sp) {
        lemma_table_at_errors(v, sp, va, lv - 1);
    }
}

/// Tables that grow keep every space well formed.
pub proof fn lemma_grows_space(v: TablesView, w: TablesView, sp: VirtualAddressSpace)
    requires
        grows(v, w),
        space_wf(v, sp),
    ensures
        space_wf(w, sp),
{
    lemma_find_from(v.addrs, sp.root, 0);
    lemma_grows_find(v, w, sp.root, 0);
}

/// The bits of a range `s..e` of 1 GB blocks in one level 0 entry, of the low space (`h` 0)
/// or the high one.
proof fn lemma_range_bits(s: u64, e: u64, em1: u64, h: u64)
    by (bit_vector)
    requires
        s % 0x4000_0000 == 0,
        e % 0x4000_0000 == 0,
        s < e,
        em1 == e - 1,
        e - s <= 0x80_0000_0000,
        (s >> 39u64) & 0x1FF == (em1 >> 39u64) & 0x1FF,
        (h == 0 && e <= 0x80_0000_0000) || (h == 0xFFFF_0000_0000_0000 && s >= h),
    ensures
        s == ((s >> 39u64) & 0x1FF) * 0x80_0000_0000 + ((s >> 30u64) & 0x1FF) * 0x4000_0000 + h,
        e == ((s >> 39u64) & 0x1FF) * 0x80_0000_0000 + ((em1 >> 30u64) & 0x1FF) * 0x4000_0000
            + 0x4000_0000 + h,
        (s >> 30u64) & 0x1FF <= (em1 >> 30u64) & 0x1FF,
        h == 0 ==> (s >> 39u64) & 0x1FF == 0,
{
}

pub proof fn lemma_kept_trans<P: PageAllocator<Physical>>(p0: P, p1: P, p2: P)
    requires
        allocations_kept(p0, p1),
        allocations_kept(p1, p2),
    ensures
        allocations_kept(p0, p2),
{
    assert forall|y: u64| #[trigger] p0.allocated(y) implies p2.allocated(y) by {
        assert(p1.allocated(y));
    }
}

pub proof fn lemma_grows_trans(u: TablesView, v: TablesView, w: TablesView)
    requires
        grows(u, v),
        grows(v, w),
    ensures
        grows(u, w),
{
    assert forall|k: int| 0 <= k < u.addrs.len() implies #[trigger] w.addrs[k] == u.addrs[k]
        && w.levels[k] == u.levels[k] by {
        assert(v.addrs[k] == u.addrs[k] && v.levels[k] == u.levels[k]);
    }
}

/// A step of `map` that failed leaves the tables grown from `v0`, and, where it changed no
/// translation, the mappings of `v0` in place.
pub proof fn lemma_stop_chain(v0: TablesView, before: TablesView, w: TablesView, sp: VirtualAddressSpace, keep: bool)
    requires
        grows(v0, before),
        grows(before, w),
        keep ==> keeps_mapped(v0, before, sp),
        keep ==> same_translation(before, w, sp),
    ensures
        grows(v0, w),
        keep ==> keeps_mapped(v0, w, sp),
{
    lemma_grows_trans(v0, before, w);
    if keep {
        assert forall|x: u64| translate(v0, sp, x) is Some implies #[trigger] translate(w, sp, x)
            == translate(v0, sp, x) by {
            assert(translate(before, sp, x) == translate(v0, sp, x));
        }
    }
}

pub proof fn lemma_index_bound(va: u64, l: u8)
    requires
        l <= 3,
    ensures
        0 <= va_index(va, l) < ENTRIES,
{
    let sh = (39 - 9 * l) as u64;
    assert((va >> sh) & 0x1FF < 512) by (bit_vector);
}

/// The first table of `sp`, and the path of `va` started at it.
fn start_path(tables: &PageTables, sp: VirtualAddressSpace, Ghost(va): Ghost<u64>) -> (r: (usize, Ghost<Seq<int>>))
    requires
        tables_wf(tables@),
        space_wf(tables@, sp),
    ensures
        path_to(tables@, sp, va, r.1@, top_level(sp)),
        r.1@[top_level(sp)] == r.0,
{
    let k0 = tables.find(sp.root).unwrap();
    let ghost ks = seq![k0 as int, k0 as int, k0 as int, k0 as int];
    proof {
        lemma_find_from(tables@.addrs, sp.root, 0);
    }
    (k0, Ghost(ks))
}

/// Go one level down the path of `va`, from its table `k` of level `lv`, making the next table
/// if it is missing (see `next_table`).
fn step_down<P: PageAllocator<Physical>>(
    tables: &mut PageTables,
    sp: VirtualAddressSpace,
    va: u64,
    k: usize,
    Ghost(ks): Ghost<Seq<int>>,
    Ghost(lv): Ghost<int>,
    pages: &mut P,
) -> (r: Result<(usize, Ghost<Seq<int>>), Error>)
    requires
        tables_wf(old(tables)@),
        owned(old(tables)@, *old(pages)),
        old(pages).inv(),
        path_to(old(tables)@, sp, va, ks, lv),
        ks[lv] == k,
        lv < 3,
    ensures
        tables_wf(final(tables)@),
        owned(final(tables)@, *final(pages)),
        final(pages).inv(),
        allocations_kept(*old(pages), *final(pages)),
        grows(old(tables)@, final(tables)@),
        same_entries_except(old(tables)@, final(tables)@, k as int, va_index(va, lv as u8)),
        ({
            let e = entry(old(tables)@, k as int, va_index(va, lv as u8));
            &&& present(e) ==> final(tables)@ == old(tables)@ && *final(pages) == *old(pages)
            &&& present(e) && is_block(e) ==> r == Err::<(usize, Ghost<Seq<int>>), Error>(
                Error::Memory(MemoryError::AlreadyMapped),
            )
            &&& present(e) && !is_block(e) ==> r is Ok
        }),
        forall|x: u64| #[trigger] translate(final(tables)@, sp, x) == translate(old(tables)@, sp, x),
        forall|x: u64, l: int|
            !(same_slot(sp, x, va, lv) && l <= lv) ==> #[trigger] slot_taken(final(tables)@, sp, x, l)
                == slot_taken(old(tables)@, sp, x, l),
        took_at_most(*old(pages), *final(pages), 1),
        r matches Err(e) && e == Error::Memory(MemoryError::OutOfPhysicalMemory) ==> !old(pages).has_room(1),
        r matches Err(e) && e == Error::Memory(MemoryError::AlreadyMapped) ==> present(
            entry(old(tables)@, k as int, va_index(va, lv as u8)),
        ) && is_block(entry(old(tables)@, k as int, va_index(va, lv as u8))),
        !present(entry(old(tables)@, k as int, va_index(va, lv as u8))) ==> (r matches Ok((k2, _)) ==> fresh_table(
            final(tables)@,
            k2 as int,
        )),
        match r {
            Ok((k2, g)) => path_to(final(tables)@, sp, va, g@, lv + 1) && g@[lv + 1] == k2,
            Err(e) => (e == Error::Memory(MemoryError::AlreadyMapped) || e == Error::Memory(
                MemoryError::OutOfPhysicalMemory,
            )) && final(tables)@ == old(tables)@,
        },
{
    let ghost v = tables@;
    let l = tables.level(k);
    assert(l == lv);
    let i = index_of(va, l);
    let k2 = next_table(tables, k, i, pages)?;
    let ghost ks2 = ks.update(lv + 1, k2 as int);
    proof {
        let w = tables@;
        let kr = ks[top_level(sp)];
        lemma_grows_find(v, w, sp.root, 0);
        if !present(entry(v, k as int, i as int)) {
            let n = v.addrs.len() as int;
            let a = w.addrs[n];
            lemma_find_from(v.addrs, a, 0);
            if find_table(v, a) is Some {
                let j = find_table(v, a).unwrap();
                assert(w.addrs[j] == a);
                assert(w.addrs[j] != w.addrs[n]);
            }
            assert forall|x: u64| #[trigger] translate(w, sp, x) == translate(v, sp, x) by {
                lemma_new_table_walk(v, k as int, i as int, a, kr, x);
            }
        }
        lemma_path_keep(v, w, sp, va, ks, lv, i as int);
        let top = top_level(sp);
        assert forall|l: int| top <= l <= lv + 1 implies 0 <= #[trigger] ks2[l] < w.addrs.len()
            && w.levels[ks2[l]] == l by {
            if l <= lv {
                assert(ks2[l] == ks[l]);
            }
        }
        assert forall|l: int| top <= l < lv + 1 implies {
            let e = entry(w, #[trigger] ks2[l], va_index(va, l as u8));
            &&& points_to_table(l as u8, e)
            &&& find_table(w, target(e)) == Some(ks2[l + 1])
        } by {
            if l < lv {
                assert(ks2[l] == ks[l] && ks2[l + 1] == ks[l + 1]);
            } else {
                assert(ks2[l] == k && ks2[l + 1] == k2);
            }
        }
        assert(find_table(w, sp.root) == Some(ks2[top]));
        if !present(entry(v, k as int, i as int)) {
            let kr = ks[top];
            assert(fresh_table(w, k2 as int));
            assert forall|x: u64, l: int| !(same_slot(sp, x, va, lv) && l <= lv) implies #[trigger] slot_taken(
                w,
                sp,
                x,
                l,
            ) == slot_taken(v, sp, x, l) by {
                assert(find_table(w, sp.root) == Some(kr));
                if reach(v, kr, x, k as int) && va_index(x, lv as u8) == i {
                    lemma_reach_path(v, sp, x, va, ks, lv);
                    lemma_taken_reach(v, w, kr, x, l, k as int, i as int);
                    let j = va_index(x, (lv + 1) as u8);
                    lemma_index_bound(x, (lv + 1) as u8);
                    lemma_zero_not_present();
                    assert(entry(w, k2 as int, j) == 0);
                    assert(taken_from(w, k2 as int, x, l) == false);
                    assert(entry(w, k as int, i as int) == entry(w, ks2[lv], va_index(va, lv as u8)));
                } else {
                    lemma_taken_frame(v, w, kr, x, l, k as int, i as int);
                }
            }
        }
    }
    Ok((k2, Ghost(ks2)))
}

/// The offset of `x` in what an entry of a table of level `lv` maps.
pub open spec fn offset_in(x: u64, lv: int) -> u64 {
    if lv == 1 {
        x & 0x3FFF_FFFF
    } else if lv == 2 {
        x & 0x1F_FFFF
    } else {
        x & 0xFFF
    }
}

/// Every address that goes through the same entries as `from` down to level `lv` is mapped to
/// `to` (its bits 47:12) plus its offset there.
pub open spec fn maps_slot(v: TablesView, sp: VirtualAddressSpace, from: u64, to: u64, lv: int) -> bool {
    forall|x: u64|
        same_slot(sp, x, from, lv) ==> #[trigger] translate(v, sp, x) == Some(
            (target(to) + offset_in(x, lv)) as int,
        )
}

/// No address that goes through the same entries as `from` down to level `lv` is mapped.
pub open spec fn slot_unmapped(v: TablesView, sp: VirtualAddressSpace, from: u64, lv: int) -> bool {
    forall|x: u64| same_slot(sp, x, from, lv) ==> #[trigger] translate(v, sp, x) is None
}

/// The addresses that do not go through the same entries as `from` down to level `lv` are
/// mapped in `w` as in `v`.
pub open spec fn keeps_other_slots(v: TablesView, w: TablesView, sp: VirtualAddressSpace, from: u64, lv: int) -> bool {
    forall|x: u64| !same_slot(sp, x, from, lv) ==> #[trigger] translate(w, sp, x) == translate(v, sp, x)
}

/// Every address is mapped in `w` as in `v`.
pub open spec fn same_translation(v: TablesView, w: TablesView, sp: VirtualAddressSpace) -> bool {
    forall|x: u64| #[trigger] translate(w, sp, x) == translate(v, sp, x)
}

/// Every page from `from` up to `end` is mapped to the page as far from `to` (its bits 47:12).
pub open spec fn maps_pages(v: TablesView, sp: VirtualAddressSpace, from: u64, to: u64, end: int) -> bool {
    forall|x: u64|
        from <= x < end && x % 0x1000 == 0 ==> #[trigger] translate(v, sp, x) == Some(
            target((to + (x - from)) as u64) as int,
        )
}

/// No page from `from` up to `end` is mapped.
pub open spec fn pages_unmapped(v: TablesView, sp: VirtualAddressSpace, from: u64, end: int) -> bool {
    forall|x: u64| from <= x < end && x % 0x1000 == 0 ==> #[trigger] translate(v, sp, x) is None
}

/// The level of the span that `map` maps next at `vaddr` (to `paddr`), with `remaining` bytes
/// left: a 1 GB block where both addresses are on 1 GB and 1 GB is left, else a 2 MB block
/// likewise, else a 4 KB page.
pub open spec fn chunk_level(vaddr: int, paddr: int, remaining: int) -> int {
    if remaining >= 0x4000_0000 && vaddr % 0x4000_0000 == 0 && paddr % 0x4000_0000 == 0 {
        1
    } else if remaining >= 0x20_0000 && vaddr % 0x20_0000 == 0 && paddr % 0x20_0000 == 0 {
        2
    } else {
        3
    }
}

/// The size of the span of level `lv`, as an integer.
pub open spec fn span_of(lv: int) -> int {
    if lv == 1 {
        0x4000_0000
    } else if lv == 2 {
        0x20_0000
    } else {
        0x1000
    }
}

/// The slot of each span that `map` maps from `vaddr` (to `paddr`) up to `end` is free (see
/// `chunk_level` and `slot_taken`).
pub open spec fn spans_free(v: TablesView, sp: VirtualAddressSpace, vaddr: int, paddr: int, end: int) -> bool
    decreases (if vaddr < end { end - vaddr } else { 0 }),
{
    if vaddr >= end {
        true
    } else {
        let lv = chunk_level(vaddr, paddr, end - vaddr);
        &&& !slot_taken(v, sp, vaddr as u64, lv)
        &&& spans_free(v, sp, vaddr + span_of(lv), paddr + span_of(lv), end)
    }
}

/// The range from `va` to `end` lies in one half of the address space, the low one for a low
/// space.
pub open spec fn in_half(sp: VirtualAddressSpace, va: int, end: int) -> bool {
    ||| end <= INVALID_VIRT_ADDRESS_START
    ||| (!sp.is_low && va >= INVALID_VIRT_ADDRESS_END && end <= 0x1_0000_0000_0000_0000)
}

/// Addresses in one half of the address space with different 1 GB numbers differ in an index
/// of level 0 or 1 (of level 1 in the low half).
proof fn lemma_bits_1g(x: u64, va: u64, low: bool)
    by (bit_vector)
    requires
        x / 0x4000_0000 != va / 0x4000_0000,
        va < x,
        low ==> x < 0x80_0000_0000,
        !low ==> (x < 0x80_0000_0000 || va >= 0xFFFF_0000_0000_0000),
    ensures
        (!low && (x >> 39u64) & 0x1FF != (va >> 39u64) & 0x1FF) || (x >> 30u64) & 0x1FF != (va >> 30u64) & 0x1FF,
{
}

/// As `lemma_bits_1g`, for 2 MB numbers and the indices down to level 2.
proof fn lemma_bits_2m(x: u64, va: u64, low: bool)
    by (bit_vector)
    requires
        x / 0x20_0000 != va / 0x20_0000,
        va < x,
        low ==> x < 0x80_0000_0000,
        !low ==> (x < 0x80_0000_0000 || va >= 0xFFFF_0000_0000_0000),
    ensures
        (!low && (x >> 39u64) & 0x1FF != (va >> 39u64) & 0x1FF) || (x >> 30u64) & 0x1FF != (va >> 30u64) & 0x1FF
            || (x >> 21u64) & 0x1FF != (va >> 21u64) & 0x1FF,
{
}

/// As `lemma_bits_1g`, for page numbers and the indices down to level 3.
proof fn lemma_bits_4k(x: u64, va: u64, low: bool)
    by (bit_vector)
    requires
        x / 0x1000 != va / 0x1000,
        va < x,
        low ==> x < 0x80_0000_0000,
        !low ==> (x < 0x80_0000_0000 || va >= 0xFFFF_0000_0000_0000),
    ensures
        (!low && (x >> 39u64) & 0x1FF != (va >> 39u64) & 0x1FF) || (x >> 30u64) & 0x1FF != (va >> 30u64) & 0x1FF
            || (x >> 21u64) & 0x1FF != (va >> 21u64) & 0x1FF || (x >> 12u64) & 0x1FF != (va >> 12u64) & 0x1FF,
{
}

/// Past an aligned span, or up to an aligned address, the quotient by the span differs.
proof fn lemma_div_apart(x: int, va: int, s: int)
    requires
        s > 0,
        0 <= va,
        (va % s == 0 && va + s <= x) || (x % s == 0 && va < x),
    ensures
        x / s != va / s,
{
    vstd::arithmetic::div_mod::lemma_fundamental_div_mod(x, s);
    vstd::arithmetic::div_mod::lemma_fundamental_div_mod(va, s);
    if x / s == va / s {
        assert(x - va == x % s - va % s);
    }
}

/// An address on a page, 2 MB or 1 GB boundary has no offset in it.
proof fn lemma_aligned_offsets(va: u64)
    by (bit_vector)
    ensures
        va % 4096 == 0 ==> va & 0xFFF == 0,
        va % 0x20_0000 == 0 ==> va & 0x1F_FFFF == 0,
        va % 0x4000_0000 == 0 ==> va & 0x3FFF_FFFF == 0,
{
}

/// The sum of two page-aligned numbers is page aligned.
proof fn lemma_add_aligned(a: int, b: int)
    by (nonlinear_arith)
    requires
        a % 0x1000 == 0,
        b % 0x1000 == 0,
    ensures
        (a + b) % 0x1000 == 0,
{
}

/// A span that `map` maps after the span of level `lv` at `va` does not go through the slot of
/// `va` (down to the level of the smaller span).
pub proof fn lemma_later_slot(sp: VirtualAddressSpace, x: u64, va: u64, lv: int, l: int)
    requires
        1 <= lv <= 3,
        1 <= l <= 3,
        va % entry_span(lv as u8) == 0,
        x % entry_span(l as u8) == 0,
        va + entry_span(lv as u8) <= x,
        in_half(sp, va as int, x + 1),
    ensures
        !same_slot(sp, x, va, if l < lv { l } else { lv }),
{
    let m = if l < lv { l } else { lv };
    let s = entry_span(m as u8);
    assert(entry_span(lv as u8) > 0);
    lemma_div_apart(x as int, va as int, s as int);
    if m == 1 {
        lemma_bits_1g(x, va, sp.is_low);
    } else if m == 2 {
        lemma_bits_2m(x, va, sp.is_low);
    } else {
        lemma_bits_4k(x, va, sp.is_low);
    }
    assert(va_index(x, 0) == ((x >> 39u64) & 0x1FF) as int);
    assert(va_index(x, 1) == ((x >> 30u64) & 0x1FF) as int);
    assert(va_index(x, 2) == ((x >> 21u64) & 0x1FF) as int);
    assert(va_index(x, 3) == ((x >> 12u64) & 0x1FF) as int);
    assert(va_index(va, 0) == ((va >> 39u64) & 0x1FF) as int);
    assert(va_index(va, 1) == ((va >> 30u64) & 0x1FF) as int);
    assert(va_index(va, 2) == ((va >> 21u64) & 0x1FF) as int);
    assert(va_index(va, 3) == ((va >> 12u64) & 0x1FF) as int);
}

/// Mapping the span of level `lv` at `va` without taking other slots keeps the spans after it
/// free.
proof fn lemma_spans_kept(
    v: TablesView,
    w: TablesView,
    sp: VirtualAddressSpace,
    va: u64,
    lv: int,
    vaddr: int,
    paddr: int,
    end: int,
)
    requires
        keeps_taken(v, w, sp, va, lv),
        spans_free(v, sp, vaddr, paddr, end),
        1 <= lv <= 3,
        va % entry_span(lv as u8) == 0,
        va + entry_span(lv as u8) <= vaddr,
        vaddr % 0x1000 == 0,
        in_half(sp, va as int, end),
    ensures
        spans_free(w, sp, vaddr, paddr, end),
    decreases (if vaddr < end { end - vaddr } else { 0 }),
{
    if vaddr < end {
        let l = chunk_level(vaddr, paddr, end - vaddr);
        let s = span_of(l);
        lemma_later_slot(sp, vaddr as u64, va, lv, l);
        assert(slot_taken(w, sp, vaddr as u64, l) == slot_taken(v, sp, vaddr as u64, l));
        assert((vaddr + s) % 0x1000 == 0);
        lemma_spans_kept(v, w, sp, va, lv, vaddr + s, paddr + s, end);
    }
}

/// No page from `from` up to `end` is in use: the way to it ends at no present page or block
/// entry.
pub open spec fn pages_free(v: TablesView, sp: VirtualAddressSpace, from: u64, end: int) -> bool {
    forall|x: u64| from <= x < end && x % 0x1000 == 0 ==> !#[trigger] in_use_at(v, sp, x)
}

/// A page is in use exactly where its slot of level 3 is taken.
pub proof fn lemma_in_use_taken(v: TablesView, k: int, va: u64)
    ensures
        leaf_present(v, k, va) == taken_from(v, k, va, 3),
    decreases 4 - v.levels[k],
{
    if 0 <= k < v.addrs.len() && v.levels[k] <= 3 {
        let l = v.levels[k];
        let e = entry(v, k, va_index(va, l));
        if present(e) && !(l == 3 || is_block(e)) {
            match find_table(v, target(e)) {
                Some(k2) => {
                    if v.levels[k2] == l + 1 {
                        lemma_in_use_taken(v, k2, va);
                    }
                },
                None => {},
            }
        }
    }
}

/// What is mapped in `v` is mapped the same in `w`.
pub open spec fn keeps_mapped(v: TablesView, w: TablesView, sp: VirtualAddressSpace) -> bool {
    forall|x: u64| translate(v, sp, x) is Some ==> #[trigger] translate(w, sp, x) == translate(v, sp, x)
}

/// Whatever is mapped in `w` is mapped the same in `v`: `w` only took mappings away.
pub open spec fn only_removes(v: TablesView, w: TablesView, sp: VirtualAddressSpace) -> bool {
    forall|x: u64| #[trigger] translate(w, sp, x) is Some ==> translate(w, sp, x) == translate(v, sp, x)
}

/// Map the 4 KB page at `from` to the physical page at `to` in `sp`, making the missing
/// tables on the way; with `force_remap` a block on the way is first split (see
/// `remap_block`) and a page already mapped is mapped again. The mapping has the default
/// attributes (attribute index 1, inner shareable, accessed), whatever the other `flags`.
/// `AlreadyMapped` if a block holds the page (without `force_remap`) or the page is mapped;
/// `OutOfPhysicalMemory` if a table cannot be made. Tables made before an error stay.
#[verifier::rlimit(60)]
pub fn map_4k<P: PageAllocator<Physical>>(
    tables: &mut PageTables,
    sp: VirtualAddressSpace,
    from: VirtualAddress,
    to: PhysicalAddress,
    flags: MapFlags,
    pages: &mut P,
) -> (r: Result<(), Error>)
    requires
        tables_wf(old(tables)@),
        space_wf(old(tables)@, sp),
        owned(old(tables)@, *old(pages)),
        old(pages).inv(),
        from@ % PAGE_SIZE as u64 == 0,
        to@ % PAGE_SIZE as u64 == 0,
    ensures
        tables_wf(final(tables)@),
        space_wf(final(tables)@, sp),
        owned(final(tables)@, *final(pages)),
        final(pages).inv(),
        allocations_kept(*old(pages), *final(pages)),
        grows(old(tables)@, final(tables)@),
        r is Ok ==> translate(final(tables)@, sp, from@) == Some((to@ & ADDRESS_MASK) as int),
        r is Ok ==> maps_slot(final(tables)@, sp, from@, to@, 3),
        flags.0 & 0x80 == 0 && translate(old(tables)@, sp, from@) is Some ==> r == Err::<(), Error>(
            Error::Memory(MemoryError::AlreadyMapped),
        ),
        flags.0 & 0x80 == 0 ==> keeps_other_slots(old(tables)@, final(tables)@, sp, from@, 3),
        flags.0 & 0x80 == 0 && r is Ok ==> slot_unmapped(old(tables)@, sp, from@, 3),
        flags.0 & 0x80 == 0 && r is Err ==> same_translation(old(tables)@, final(tables)@, sp),
        r matches Err(e) ==> e == Error::Memory(MemoryError::AlreadyMapped) || e == Error::Memory(
            MemoryError::OutOfPhysicalMemory,
        ),
        took_at_most(*old(pages), *final(pages), 5),
        r matches Err(e) && e == Error::Memory(MemoryError::AlreadyMapped) ==> slot_taken(old(tables)@, sp, from@, 3)
            && (flags.0 & 0x80 == 0 || top_blocked(old(tables)@, sp, from@)),
        r matches Err(e) && e == Error::Memory(MemoryError::OutOfPhysicalMemory) ==> !old(pages).has_room(5),
        (if flags.0 & 0x80 == 0 {
            !slot_taken(old(tables)@, sp, from@, 3)
        } else {
            !top_blocked(old(tables)@, sp, from@)
        }) && old(pages).has_room(5) ==> r is Ok,
        flags.0 & 0x80 == 0 && r is Ok ==> keeps_taken(old(tables)@, final(tables)@, sp, from@, 3),
        r is Ok ==> keeps_low(old(tables)@, final(tables)@, sp, from@, 3),
        !slot_taken(old(tables)@, sp, from@, 3) && r is Ok ==> keeps_other_slots(old(tables)@, final(tables)@, sp, from@, 3)
            && keeps_taken(old(tables)@, final(tables)@, sp, from@, 3),
{
    let ghost v0 = tables@;
    let ghost p0 = *pages;
    proof {
        lemma_took_none(p0);
    }
    let va = from.addr();
    let force = flags.force_remap();
    let ghost mapped = !force && translate(v0, sp, va) is Some;
    let ghost keep = !force || !slot_taken(v0, sp, va, 3);
    let (k0, Ghost(ks0)) = start_path(tables, sp, Ghost(va));
    proof {
        lemma_index_bound(va, 0);
        lemma_index_bound(va, 1);
        lemma_index_bound(va, 2);
        lemma_index_bound(va, 3);
    }
    let (k1, Ghost(ks1)) = if sp.is_low {
        (k0, Ghost(ks0))
    } else {
        proof {
            if mapped {
                let e0 = entry(v0, k0 as int, va_index(va, 0));
                assert(walk(v0, k0 as int, va) is Some);
                assert(present(e0) && !is_block(e0));
            }
        }
        match step_down(tables, sp, va, k0, Ghost(ks0), Ghost(0), pages) {
            Ok(x) => {
                proof {
                    lemma_keeps_taken_step(v0, v0, tables@, sp, va, 0, 3);
                    lemma_low_same_same(v0, v0, tables@, sp);
                }
                x
            },
            Err(e) => {
                proof {
                    lemma_step_fails(v0, v0, p0, p0, sp, va, ks0, 0, 3, 0, 5, e, force);
                    lemma_took_more(p0, *pages, 1, 5);
                }
                return Err(e);
            },
        }
    };
    proof {
        if sp.is_low {
            lemma_took_more(p0, *pages, 0, 1);
            assert(keeps_taken(v0, tables@, sp, va, 3));
            assert(low_same(v0, tables@, sp));
        }
        if keep && !sp.is_low && present(entry(v0, k0 as int, va_index(va, 0))) {
            assert(tables@ == v0);
        }
    }
    proof {
        if keep {
            assert(same_translation(v0, tables@, sp));
        }
        if mapped {
            assert(tables@ == v0);
            if !sp.is_low {
                let e0 = entry(v0, k0 as int, va_index(va, 0));
                assert(walk(v0, k0 as int, va) == walk(v0, k1 as int, va));
            }
            assert(walk(v0, k1 as int, va) is Some);
        }
    }
    // level 1
    let i1 = index_of(va, 1);
    let e1 = tables.get(k1, i1);
    if force && e1 & 1 != 0 && e1 & 2 == 0 {
        proof {
            if keep {
                if !sp.is_low && !present(entry(v0, k0 as int, va_index(va, 0))) {
                    lemma_zero_not_present();
                    assert(entry(tables@, k1 as int, i1 as int) == 0);
                }
                assert(tables@ == v0);
                lemma_taken_path(v0, sp, va, ks1, 1, 3);
            }
        }
        let ghost before = tables@;
        let ghost pb = *pages;
        match remap_block(tables, k1, i1, pages) {
            Ok(()) => {},
            Err(e) => {
                proof {
                    if p0.has_room(5) {
                        lemma_room_left(p0, pb, 1, 5);
                    }
                    lemma_took_trans(p0, pb, *pages, 1, 1);
                    lemma_took_more(p0, *pages, 2, 5);
                }
                return Err(e);
            },
        }
        proof {
            assert(space_wf(before, sp));
            lemma_low_same_low(v0, before, tables@, sp);
            lemma_path_keep(before, tables@, sp, va, ks1, 1, i1 as int);
            lemma_took_trans(p0, pb, *pages, 1, 1);
        }
    } else {
        proof {
            lemma_took_more(p0, *pages, 1, 2);
        }
    }
    proof {
        if mapped {
            assert(present(e1));
        }
    }
    let ghost vb = tables@;
    let ghost pb = *pages;
    proof {
        if keep && vb != v0 {
            assert(fresh_table(vb, ks1[1]));
        }
    }
    let (k2, Ghost(ks2)) = match step_down(tables, sp, va, k1, Ghost(ks1), Ghost(1), pages) {
        Ok(x) => {
            proof {
                if keep {
                    lemma_keeps_taken_step(v0, vb, tables@, sp, va, 1, 3);
                }
                lemma_low_same_same(v0, vb, tables@, sp);
            }
            x
        },
        Err(e) => {
            proof {
                lemma_step_fails(v0, vb, p0, pb, sp, va, ks1, 1, 3, 2, 5, e, force);
                lemma_took_trans(p0, pb, *pages, 2, 1);
                lemma_took_more(p0, *pages, 3, 5);
            }
            return Err(e);
        },
    };
    proof {
        lemma_took_trans(p0, pb, *pages, 2, 1);
        if keep && present(entry(vb, ks1[1], va_index(va, 1))) {
            if vb != v0 {
                lemma_zero_not_present();
                assert(entry(vb, ks1[1], va_index(va, 1)) == 0);
            }
            assert(tables@ == v0);
        }
    }
    proof {
        if keep {
            assert(same_translation(v0, tables@, sp));
        }
        if mapped {
            assert(tables@ == v0);
            assert(walk(v0, k1 as int, va) == walk(v0, k2 as int, va));
        }
    }
    // level 2
    let i2 = index_of(va, 2);
    let e2 = tables.get(k2, i2);
    if force && e2 & 1 != 0 && e2 & 2 == 0 {
        proof {
            if keep {
                if tables@ != v0 {
                    lemma_zero_not_present();
                    assert(entry(tables@, k2 as int, i2 as int) == 0);
                }
                lemma_taken_path(v0, sp, va, ks2, 2, 3);
            }
        }
        let ghost before = tables@;
        let ghost pb = *pages;
        match remap_block(tables, k2, i2, pages) {
            Ok(()) => {},
            Err(e) => {
                proof {
                    if p0.has_room(5) {
                        lemma_room_left(p0, pb, 3, 5);
                    }
                    lemma_took_trans(p0, pb, *pages, 3, 1);
                    lemma_took_more(p0, *pages, 4, 5);
                }
                return Err(e);
            },
        }
        proof {
            assert(space_wf(before, sp));
            lemma_low_same_low(v0, before, tables@, sp);
            lemma_path_keep(before, tables@, sp, va, ks2, 2, i2 as int);
            lemma_took_trans(p0, pb, *pages, 3, 1);
        }
    } else {
        proof {
            lemma_took_more(p0, *pages, 3, 4);
        }
    }
    proof {
        if mapped {
            assert(present(e2));
        }
    }
    let ghost vb = tables@;
    let ghost pb = *pages;
    proof {
        if keep && vb != v0 {
            assert(fresh_table(vb, ks2[2]));
        }
    }
    let (k3, Ghost(ks3)) = match step_down(tables, sp, va, k2, Ghost(ks2), Ghost(2), pages) {
        Ok(x) => {
            proof {
                if keep {
                    lemma_keeps_taken_step(v0, vb, tables@, sp, va, 2, 3);
                }
                lemma_low_same_same(v0, vb, tables@, sp);
            }
            x
        },
        Err(e) => {
            proof {
                lemma_step_fails(v0, vb, p0, pb, sp, va, ks2, 2, 3, 4, 5, e, force);
                lemma_took_trans(p0, pb, *pages, 4, 1);
                lemma_took_more(p0, *pages, 5, 5);
            }
            return Err(e);
        },
    };
    proof {
        lemma_took_trans(p0, pb, *pages, 4, 1);
        if keep && present(entry(vb, ks2[2], va_index(va, 2))) {
            if vb != v0 {
                lemma_zero_not_present();
                assert(entry(vb, ks2[2], va_index(va, 2)) == 0);
            }
            assert(tables@ == v0);
        }
    }
    proof {
        if keep {
            assert(same_translation(v0, tables@, sp));
        }
        if mapped {
            assert(tables@ == v0);
            assert(walk(v0, k2 as int, va) == walk(v0, k3 as int, va));
        }
    }
    // level 3
    let i3 = index_of(va, 3);
    let e3 = tables.get(k3, i3);
    if e3 & 1 != 0 && !force {
        proof {
            if tables@ != v0 {
                lemma_zero_not_present();
                assert(entry(tables@, ks3[3], va_index(va, 3)) == 0);
            }
            lemma_taken_path(v0, sp, va, ks3, 3, 3);
            lemma_took_more(p0, *pages, 5, 5);
        }
        return Err(Error::Memory(MemoryError::AlreadyMapped));
    }
    proof {
        if mapped {
            assert(walk(v0, k3 as int, va) is Some);
            assert(present(e3));
        }
    }
    let d = TableEntry::create_page_descriptor(to, default_lower_attributes(), UpperDescriptorAttributes::new()).bits;
    let ghost before = tables@;
    proof {
        lemma_leaf_bits(to@, 0x1C1, 0, true);
        assert(d == page_4k_bits(to@));
        lemma_set_entry_wf(before, k3 as int, i3 as int, d);
    }
    tables.set(k3, i3, d);
    proof {
        let w = tables@;
        lemma_set_leaf(before, w, sp, va, ks3, 3, d, to@);
        lemma_low_same_leaf(v0, before, w, sp, va, 3);
        if keep {
            lemma_chain_slots(v0, before, w, sp, va, 3);
            lemma_keeps_taken_leaf(v0, before, w, sp, va, ks3, 3, d);
        }
        lemma_set_entry_wf(before, k3 as int, i3 as int, d);
        assert(grows(before, w));
        lemma_path_keep(before, w, sp, va, ks3, 3, i3 as int);
        lemma_walk_path(w, sp, va, ks3, 3);
        assert(entry(w, k3 as int, i3 as int) == d);
        lemma_aligned_offsets(va);
        assert(walk(w, k3 as int, va) == Some((to@ & ADDRESS_MASK) as int));
        lemma_grows_find(v0, w, sp.root, 0);
        assert forall|x: int| 0 <= x < w.addrs.len() implies final(pages).allocated(#[trigger] w.addrs[x]) by {
            assert(before.addrs[x] == w.addrs[x]);
        }
        assert(grows(v0, w));
    }
    proof {
        lemma_took_more(p0, *pages, 5, 5);
    }
    Ok(())
}


/// Map the 2 MB block at `from` to the physical memory at `to` in `sp`, as `map_4k` does one
/// level up: with `force_remap` a 1 GB block on the way is split, and a mapped entry is mapped
/// again. The block has the default attributes, whatever the other `flags`.
pub fn map_2m<P: PageAllocator<Physical>>(
    tables: &mut PageTables,
    sp: VirtualAddressSpace,
    from: VirtualAddress,
    to: PhysicalAddress,
    flags: MapFlags,
    pages: &mut P,
) -> (r: Result<(), Error>)
    requires
        tables_wf(old(tables)@),
        space_wf(old(tables)@, sp),
        owned(old(tables)@, *old(pages)),
        old(pages).inv(),
        from@ % 0x20_0000 == 0,
        to@ % 0x20_0000 == 0,
    ensures
        tables_wf(final(tables)@),
        space_wf(final(tables)@, sp),
        owned(final(tables)@, *final(pages)),
        final(pages).inv(),
        allocations_kept(*old(pages), *final(pages)),
        grows(old(tables)@, final(tables)@),
        r is Ok ==> translate(final(tables)@, sp, from@) == Some((to@ & ADDRESS_MASK) as int),
        r is Ok ==> maps_slot(final(tables)@, sp, from@, to@, 2),
        flags.0 & 0x80 == 0 && translate(old(tables)@, sp, from@) is Some ==> r == Err::<(), Error>(
            Error::Memory(MemoryError::AlreadyMapped),
        ),
        flags.0 & 0x80 == 0 ==> keeps_other_slots(old(tables)@, final(tables)@, sp, from@, 2),
        flags.0 & 0x80 == 0 && r is Ok ==> slot_unmapped(old(tables)@, sp, from@, 2),
        flags.0 & 0x80 == 0 && r is Err ==> same_translation(old(tables)@, final(tables)@, sp),
        r matches Err(e) ==> e == Error::Memory(MemoryError::AlreadyMapped) || e == Error::Memory(
            MemoryError::OutOfPhysicalMemory,
        ),
        took_at_most(*old(pages), *final(pages), 3),
        r matches Err(e) && e == Error::Memory(MemoryError::AlreadyMapped) ==> slot_taken(old(tables)@, sp, from@, 2)
            && (flags.0 & 0x80 == 0 || top_blocked(old(tables)@, sp, from@)),
        r matches Err(e) && e == Error::Memory(MemoryError::OutOfPhysicalMemory) ==> !old(pages).has_room(3),
        (if flags.0 & 0x80 == 0 {
            !slot_taken(old(tables)@, sp, from@, 2)
        } else {
            !top_blocked(old(tables)@, sp, from@)
        }) && old(pages).has_room(3) ==> r is Ok,
        flags.0 & 0x80 == 0 && r is Ok ==> keeps_taken(old(tables)@, final(tables)@, sp, from@, 2),
        r is Ok ==> keeps_low(old(tables)@, final(tables)@, sp, from@, 2),
        !slot_taken(old(tables)@, sp, from@, 3) && r is Ok ==> keeps_other_slots(old(tables)@, final(tables)@, sp, from@, 2)
            && keeps_taken(old(tables)@, final(tables)@, sp, from@, 2),
{
    let ghost v0 = tables@;
    let ghost p0 = *pages;
    proof {
        lemma_took_none(p0);
    }
    let va = from.addr();
    let force = flags.force_remap();
    let ghost mapped = !force && translate(v0, sp, va) is Some;
    let ghost keep = !force || !slot_taken(v0, sp, va, 3);
    let (k0, Ghost(ks0)) = start_path(tables, sp, Ghost(va));
    proof {
        lemma_index_bound(va, 0);
        lemma_index_bound(va, 1);
        lemma_index_bound(va, 2);
    }
    let (k1, Ghost(ks1)) = if sp.is_low {
        (k0, Ghost(ks0))
    } else {
        proof {
            if mapped {
                let e0 = entry(v0, k0 as int, va_index(va, 0));
                assert(walk(v0, k0 as int, va) is Some);
                assert(present(e0) && !is_block(e0));
            }
        }
        match step_down(tables, sp, va, k0, Ghost(ks0), Ghost(0), pages) {
            Ok(x) => {
                proof {
                    lemma_keeps_taken_step(v0, v0, tables@, sp, va, 0, 2);
                    lemma_low_same_same(v0, v0, tables@, sp);
                }
                x
            },
            Err(e) => {
                proof {
                    lemma_step_fails(v0, v0, p0, p0, sp, va, ks0, 0, 2, 0, 3, e, force);
                    lemma_took_more(p0, *pages, 1, 3);
                }
                return Err(e);
            },
        }
    };
    proof {
        if sp.is_low {
            lemma_took_more(p0, *pages, 0, 1);
            assert(keeps_taken(v0, tables@, sp, va, 2));
            assert(low_same(v0, tables@, sp));
        }
        if keep && !sp.is_low && present(entry(v0, k0 as int, va_index(va, 0))) {
            assert(tables@ == v0);
        }
    }
    proof {
        if keep {
            assert(same_translation(v0, tables@, sp));
        }
        if mapped {
            assert(tables@ == v0);
            if !sp.is_low {
                assert(walk(v0, k0 as int, va) == walk(v0, k1 as int, va));
            }
            assert(walk(v0, k1 as int, va) is Some);
        }
    }
    let i1 = index_of(va, 1);
    let e1 = tables.get(k1, i1);
    if force && e1 & 1 != 0 && e1 & 2 == 0 {
        proof {
            if keep {
                if !sp.is_low && !present(entry(v0, k0 as int, va_index(va, 0))) {
                    lemma_zero_not_present();
                    assert(entry(tables@, k1 as int, i1 as int) == 0);
                }
                assert(tables@ == v0);
                lemma_taken_path(v0, sp, va, ks1, 1, 3);
            }
        }
        let ghost before = tables@;
        let ghost pb = *pages;
        match remap_block(tables, k1, i1, pages) {
            Ok(()) => {},
            Err(e) => {
                proof {
                    if p0.has_room(3) {
                        lemma_room_left(p0, pb, 1, 3);
                    }
                    lemma_took_trans(p0, pb, *pages, 1, 1);
                    lemma_took_more(p0, *pages, 2, 3);
                }
                return Err(e);
            },
        }
        proof {
            assert(space_wf(before, sp));
            lemma_low_same_low(v0, before, tables@, sp);
            lemma_path_keep(before, tables@, sp, va, ks1, 1, i1 as int);
            lemma_took_trans(p0, pb, *pages, 1, 1);
        }
    } else {
        proof {
            lemma_took_more(p0, *pages, 1, 2);
        }
    }
    proof {
        if mapped {
            assert(present(e1));
        }
    }
    let ghost vb = tables@;
    let ghost pb = *pages;
    proof {
        if keep && vb != v0 {
            assert(fresh_table(vb, ks1[1]));
        }
    }
    let (k2, Ghost(ks2)) = match step_down(tables, sp, va, k1, Ghost(ks1), Ghost(1), pages) {
        Ok(x) => {
            proof {
                if keep {
                    lemma_keeps_taken_step(v0, vb, tables@, sp, va, 1, 2);
                }
                lemma_low_same_same(v0, vb, tables@, sp);
            }
            x
        },
        Err(e) => {
            proof {
                lemma_step_fails(v0, vb, p0, pb, sp, va, ks1, 1, 2, 2, 3, e, force);
                lemma_took_trans(p0, pb, *pages, 2, 1);
                lemma_took_more(p0, *pages, 3, 3);
            }
            return Err(e);
        },
    };
    proof {
        lemma_took_trans(p0, pb, *pages, 2, 1);
        if keep && present(entry(vb, ks1[1], va_index(va, 1))) {
            if vb != v0 {
                lemma_zero_not_present();
                assert(entry(vb, ks1[1], va_index(va, 1)) == 0);
            }
            assert(tables@ == v0);
        }
    }
    proof {
        if keep {
            assert(same_translation(v0, tables@, sp));
        }
        if mapped {
            assert(tables@ == v0);
            assert(walk(v0, k1 as int, va) == walk(v0, k2 as int, va));
        }
    }
    let i2 = index_of(va, 2);
    let e2 = tables.get(k2, i2);
    if e2 & 1 != 0 && !force {
        proof {
            if tables@ != v0 {
                lemma_zero_not_present();
                assert(entry(tables@, ks2[2], va_index(va, 2)) == 0);
            }
            lemma_taken_path(v0, sp, va, ks2, 2, 2);
            lemma_took_more(p0, *pages, 3, 3);
        }
        return Err(Error::Memory(MemoryError::AlreadyMapped));
    }
    proof {
        if mapped {
            assert(walk(v0, k2 as int, va) is Some);
            assert(present(e2));
        }
    }
    let d = TableEntry::create_block_descriptor(to, default_lower_attributes(), UpperDescriptorAttributes::new()).bits;
    let ghost before = tables@;
    proof {
        lemma_leaf_bits(to@, 0x1C1, 0, false);
        lemma_set_entry_wf(before, k2 as int, i2 as int, d);
    }
    tables.set(k2, i2, d);
    proof {
        let w = tables@;
        lemma_set_leaf(before, w, sp, va, ks2, 2, d, to@);
        lemma_low_same_leaf(v0, before, w, sp, va, 2);
        if keep {
            lemma_chain_slots(v0, before, w, sp, va, 2);
            lemma_keeps_taken_leaf(v0, before, w, sp, va, ks2, 2, d);
        }
        lemma_set_entry_wf(before, k2 as int, i2 as int, d);
        lemma_path_keep(before, w, sp, va, ks2, 2, i2 as int);
        lemma_walk_path(w, sp, va, ks2, 2);
        assert(entry(w, k2 as int, i2 as int) == d);
        lemma_aligned_offsets(va);
        assert(walk(w, k2 as int, va) == Some((to@ & ADDRESS_MASK) as int));
        lemma_grows_find(v0, w, sp.root, 0);
        assert forall|x: int| 0 <= x < w.addrs.len() implies final(pages).allocated(#[trigger] w.addrs[x]) by {
            assert(before.addrs[x] == w.addrs[x]);
        }
    }
    proof {
        lemma_took_more(p0, *pages, 3, 3);
    }
    Ok(())
}


/// Map the 1 GB block at `from` to the physical memory at `to` in `sp`: the entry of the level
/// 1 table is set to a block with the attributes of `flags` (see
/// `lower_attributes_from_flags`). `AlreadyMapped` if it is present, unless `force_remap`.
pub fn map_1g<P: PageAllocator<Physical>>(
    tables: &mut PageTables,
    sp: VirtualAddressSpace,
    from: VirtualAddress,
    to: PhysicalAddress,
    flags: MapFlags,
    pages: &mut P,
) -> (r: Result<(), Error>)
    requires
        tables_wf(old(tables)@),
        space_wf(old(tables)@, sp),
        owned(old(tables)@, *old(pages)),
        old(pages).inv(),
        from@ % 0x4000_0000 == 0,
        to@ % 0x4000_0000 == 0,
    ensures
        tables_wf(final(tables)@),
        space_wf(final(tables)@, sp),
        owned(final(tables)@, *final(pages)),
        final(pages).inv(),
        allocations_kept(*old(pages), *final(pages)),
        grows(old(tables)@, final(tables)@),
        r is Ok ==> translate(final(tables)@, sp, from@) == Some((to@ & ADDRESS_MASK) as int),
        r is Ok ==> maps_slot(final(tables)@, sp, from@, to@, 1),
        flags.0 & 0x80 == 0 && translate(old(tables)@, sp, from@) is Some ==> r == Err::<(), Error>(
            Error::Memory(MemoryError::AlreadyMapped),
        ),
        flags.0 & 0x80 == 0 ==> keeps_other_slots(old(tables)@, final(tables)@, sp, from@, 1),
        flags.0 & 0x80 == 0 && r is Ok ==> slot_unmapped(old(tables)@, sp, from@, 1),
        flags.0 & 0x80 == 0 && r is Err ==> same_translation(old(tables)@, final(tables)@, sp),
        r matches Err(e) ==> e == Error::Memory(MemoryError::AlreadyMapped) || e == Error::Memory(
            MemoryError::OutOfPhysicalMemory,
        ),
        took_at_most(*old(pages), *final(pages), 1),
        r matches Err(e) && e == Error::Memory(MemoryError::AlreadyMapped) ==> slot_taken(old(tables)@, sp, from@, 1)
            && (flags.0 & 0x80 == 0 || top_blocked(old(tables)@, sp, from@)),
        r matches Err(e) && e == Error::Memory(MemoryError::OutOfPhysicalMemory) ==> !old(pages).has_room(1),
        (if flags.0 & 0x80 == 0 {
            !slot_taken(old(tables)@, sp, from@, 1)
        } else {
            !top_blocked(old(tables)@, sp, from@)
        }) && old(pages).has_room(1) ==> r is Ok,
        flags.0 & 0x80 == 0 && r is Ok ==> keeps_taken(old(tables)@, final(tables)@, sp, from@, 1),
        r is Ok ==> keeps_low(old(tables)@, final(tables)@, sp, from@, 1),
        !slot_taken(old(tables)@, sp, from@, 3) && r is Ok ==> keeps_other_slots(old(tables)@, final(tables)@, sp, from@, 1)
            && keeps_taken(old(tables)@, final(tables)@, sp, from@, 1),
{
    let ghost v0 = tables@;
    let ghost p0 = *pages;
    proof {
        lemma_took_none(p0);
    }
    let va = from.addr();
    let force = flags.force_remap();
    let ghost mapped = !force && translate(v0, sp, va) is Some;
    let ghost keep = !force || !slot_taken(v0, sp, va, 3);
    let (k0, Ghost(ks0)) = start_path(tables, sp, Ghost(va));
    proof {
        lemma_index_bound(va, 0);
        lemma_index_bound(va, 1);
    }
    let (k1, Ghost(ks1)) = if sp.is_low {
        (k0, Ghost(ks0))
    } else {
        proof {
            if mapped {
                let e0 = entry(v0, k0 as int, va_index(va, 0));
                assert(walk(v0, k0 as int, va) is Some);
                assert(present(e0) && !is_block(e0));
            }
        }
        match step_down(tables, sp, va, k0, Ghost(ks0), Ghost(0), pages) {
            Ok(x) => {
                proof {
                    lemma_keeps_taken_step(v0, v0, tables@, sp, va, 0, 1);
                    lemma_low_same_same(v0, v0, tables@, sp);
                }
                x
            },
            Err(e) => {
                proof {
                    lemma_step_fails(v0, v0, p0, p0, sp, va, ks0, 0, 1, 0, 1, e, force);
                    lemma_took_more(p0, *pages, 1, 1);
                }
                return Err(e);
            },
        }
    };
    proof {
        if sp.is_low {
            lemma_took_more(p0, *pages, 0, 1);
            assert(keeps_taken(v0, tables@, sp, va, 1));
            assert(low_same(v0, tables@, sp));
        }
        if keep && !sp.is_low && present(entry(v0, k0 as int, va_index(va, 0))) {
            assert(tables@ == v0);
        }
    }
    proof {
        if keep {
            assert(same_translation(v0, tables@, sp));
        }
        if mapped {
            assert(tables@ == v0);
            if !sp.is_low {
                assert(walk(v0, k0 as int, va) == walk(v0, k1 as int, va));
            }
            assert(walk(v0, k1 as int, va) is Some);
        }
    }
    let i1 = index_of(va, 1);
    let e1 = tables.get(k1, i1);
    if e1 & 1 != 0 && !force {
        proof {
            if tables@ != v0 {
                lemma_zero_not_present();
                assert(entry(tables@, ks1[1], va_index(va, 1)) == 0);
            }
            lemma_taken_path(v0, sp, va, ks1, 1, 1);
            lemma_took_more(p0, *pages, 1, 1);
        }
        return Err(Error::Memory(MemoryError::AlreadyMapped));
    }
    proof {
        if mapped {
            assert(present(e1));
        }
    }
    let lower = lower_attributes_from_flags(flags);
    let d = TableEntry::create_block_descriptor(to, lower, UpperDescriptorAttributes::new()).bits;
    let ghost before = tables@;
    proof {
        lemma_leaf_bits(to@, lower.0, 0, false);
        lemma_set_entry_wf(before, k1 as int, i1 as int, d);
    }
    tables.set(k1, i1, d);
    proof {
        let w = tables@;
        lemma_set_leaf(before, w, sp, va, ks1, 1, d, to@);
        lemma_low_same_leaf(v0, before, w, sp, va, 1);
        if keep {
            lemma_chain_slots(v0, before, w, sp, va, 1);
            lemma_keeps_taken_leaf(v0, before, w, sp, va, ks1, 1, d);
        }
        lemma_set_entry_wf(before, k1 as int, i1 as int, d);
        lemma_path_keep(before, w, sp, va, ks1, 1, i1 as int);
        lemma_walk_path(w, sp, va, ks1, 1);
        assert(entry(w, k1 as int, i1 as int) == d);
        lemma_aligned_offsets(va);
        assert(walk(w, k1 as int, va) == Some((to@ & ADDRESS_MASK) as int));
        lemma_grows_find(v0, w, sp.root, 0);
        assert forall|x: int| 0 <= x < w.addrs.len() implies final(pages).allocated(#[trigger] w.addrs[x]) by {
            assert(before.addrs[x] == w.addrs[x]);
        }
    }
    proof {
        lemma_took_more(p0, *pages, 1, 1);
    }
    Ok(())
}


/// The table of level `lv` that `va` goes through in `sp`, following present table entries
/// from the first table: `NotMapped` at an entry that is not present, `AlreadyMapped` at a
/// block.
pub open spec fn table_at(v: TablesView, sp: VirtualAddressSpace, va: u64, lv: int) -> Result<
    int,
    MemoryError,
>
    decreases lv,
{
    if lv <= top_level(sp) {
        match find_table(v, sp.root) {
            Some(k) => Ok(k),
            None => Err(MemoryError::NotMapped),
        }
    } else {
        match table_at(v, sp, va, lv - 1) {
            Err(x) => Err(x),
            Ok(k) => {
                let e = entry(v, k, va_index(va, (lv - 1) as u8));
                if !present(e) {
                    Err(MemoryError::NotMapped)
                } else if is_block(e) {
                    Err(MemoryError::AlreadyMapped)
                } else {
                    match find_table(v, target(e)) {
                        Some(k2) => Ok(k2),
                        None => Err(MemoryError::NotMapped),
                    }
                }
            },
        }
    }
}

/// The table the entry `i` of the table `k` points at: `NotMapped` if the entry is not
/// present, `AlreadyMapped` if it is a block.
pub fn get_table(tables: &PageTables, k: usize, i: usize) -> (r: Result<usize, Error>)
    requires
        tables_wf(tables@),
        k < tables@.addrs.len(),
        i < ENTRIES,
        tables@.levels[k as int] < 3,
    ensures
        ({
            let e = entry(tables@, k as int, i as int);
            if !present(e) {
                r == Err::<usize, Error>(Error::Memory(MemoryError::NotMapped))
            } else if is_block(e) {
                r == Err::<usize, Error>(Error::Memory(MemoryError::AlreadyMapped))
            } else {
                r matches Ok(k2) && find_table(tables@, target(e)) == Some(k2 as int)
            }
        }),
        r matches Ok(k2) ==> k2 < tables@.addrs.len() && tables@.levels[k2 as int] == tables@.levels[k
            as int] + 1,
{
    let e = tables.get(k, i);
    if e & 1 == 0 {
        return Err(Error::Memory(MemoryError::NotMapped));
    }
    if e & 2 == 0 {
        return Err(Error::Memory(MemoryError::AlreadyMapped));
    }
    let l = tables.level(k);
    proof {
        assert(points_to_table(l, e));
        lemma_find_from(tables@.addrs, target(e), 0);
    }
    Ok(tables.find(e & ADDRESS_MASK).unwrap())
}

/// The table of level `lv` that `va` goes through in `sp` (see `table_at`).
fn find_path(tables: &PageTables, sp: VirtualAddressSpace, va: u64, lv: u8) -> (r: Result<(usize, Ghost<Seq<int>>), Error>)
    requires
        tables_wf(tables@),
        space_wf(tables@, sp),
        top_level(sp) <= lv <= 3,
    ensures
        match table_at(tables@, sp, va, lv as int) {
            Ok(k) => r matches Ok((k2, g)) && k2 == k && path_to(tables@, sp, va, g@, lv as int) && g@[lv as int] == k,
            Err(x) => r == Err::<(usize, Ghost<Seq<int>>), Error>(Error::Memory(x)),
        },
    decreases lv,
{
    let top: u8 = if sp.is_low { 1 } else { 0 };
    if lv == top {
        let (k0, g) = start_path(tables, sp, Ghost(va));
        proof {
            lemma_find_from(tables@.addrs, sp.root, 0);
        }
        return Ok((k0, g));
    }
    let (k, Ghost(ks)) = find_path(tables, sp, va, lv - 1)?;
    let i = index_of(va, lv - 1);
    let k2 = get_table(tables, k, i)?;
    let ghost ks2 = ks.update(lv as int, k2 as int);
    proof {
        let v = tables@;
        let e = entry(v, k as int, i as int);
        assert(points_to_table((lv - 1) as u8, e));
        assert(find_table(v, target(e)) is Some);
        lemma_find_from(v.addrs, target(e), 0);
        assert(find_table(v, target(e)) == Some(k2 as int));
        assert(table_at(v, sp, va, lv - 1) == Ok::<int, MemoryError>(k as int));
        assert(table_at(v, sp, va, lv as int) == Ok::<int, MemoryError>(k2 as int));
        assert(ks[lv - 1] == k);
        assert forall|l: int| top as int <= l <= lv as int implies 0 <= #[trigger] ks2[l] < v.addrs.len()
            && v.levels[ks2[l]] == l by {
            if l < lv {
                assert(ks2[l] == ks[l]);
            }
        }
        assert forall|l: int| top as int <= l < lv as int implies {
            let e2 = entry(v, #[trigger] ks2[l], va_index(va, l as u8));
            &&& points_to_table(l as u8, e2)
            &&& find_table(v, target(e2)) == Some(ks2[l + 1])
        } by {
            if l < lv - 1 {
                assert(ks2[l] == ks[l] && ks2[l + 1] == ks[l + 1]);
            } else {
                assert(ks2[l] == k && ks2[l + 1] == k2);
            }
        }
    }
    Ok((k2, Ghost(ks2)))
}

/// Unmap what the entry of level `lv` for `addr` maps in `sp`: the entry is marked not
/// present, and the address it held is returned. `NotMapped` if it is not present (or a table
/// on the way is missing), `AlreadyMapped` if a block is found above it.
fn unmap_at(tables: &mut PageTables, sp: VirtualAddressSpace, addr: VirtualAddress, lv: u8) -> (r: Result<
    PhysicalAddress,
    Error,
>)
    requires
        tables_wf(old(tables)@),
        space_wf(old(tables)@, sp),
        1 <= lv <= 3,
    ensures
        tables_wf(final(tables)@),
        space_wf(final(tables)@, sp),
        match table_at(old(tables)@, sp, addr@, lv as int) {
            Err(x) => r == Err::<PhysicalAddress, Error>(Error::Memory(x)) && final(tables)@ == old(tables)@,
            Ok(k) => {
                let i = va_index(addr@, lv);
                let e = entry(old(tables)@, k, i);
                if !present(e) {
                    r == Err::<PhysicalAddress, Error>(Error::Memory(MemoryError::NotMapped))
                        && final(tables)@ == old(tables)@
                } else {
                    &&& r matches Ok(p) && p@ == target(e)
                    &&& final(tables)@ == set_entry(old(tables)@, k, i, e & !1u64)
                }
            },
        },
        r is Ok ==> translate(final(tables)@, sp, addr@) is None,
        only_removes(old(tables)@, final(tables)@, sp),
{
    let ghost v = tables@;
    let va = addr.addr();
    let (k, Ghost(ks)) = find_path(tables, sp, va, lv)?;
    let i = index_of(va, lv);
    let e = tables.get(k, i);
    if e & 1 == 0 {
        return Err(Error::Memory(MemoryError::NotMapped));
    }
    let cleared = e & !1u64;
    proof {
        assert(cleared & 1 == 0 && cleared & ADDRESS_MASK == e & ADDRESS_MASK) by (bit_vector)
            requires
                cleared == e & !1u64,
        ;
        assert(!points_to_table(lv, cleared));
        lemma_set_entry_wf(v, k as int, i as int, cleared);
    }
    tables.set(k, i, cleared);
    proof {
        let w = tables@;
        lemma_set_entry_wf(v, k as int, i as int, cleared);
        assert(grows(v, w));
        lemma_path_keep(v, w, sp, va, ks, lv as int, i as int);
        lemma_walk_path(w, sp, va, ks, lv as int);
        assert(entry(w, k as int, i as int) == cleared);
        assert(walk(w, k as int, va) is None);
        lemma_grows_find(v, w, sp.root, 0);
        let kr = ks[top_level(sp)];
        assert(same_entries_except(v, w, k as int, i as int));
        assert forall|y: u64| #[trigger] translate(w, sp, y) is Some implies translate(w, sp, y) == translate(
            v,
            sp,
            y,
        ) by {
            if reach(v, kr, y, k as int) && va_index(y, v.levels[k as int]) == i {
                lemma_walk_reach(v, w, kr, y, k as int, i as int);
            } else {
                lemma_walk_frame(v, w, kr, y, k as int, i as int);
            }
        }
    }
    let t = e & ADDRESS_MASK;
    Ok(PhysicalAddress::new(t))
}

/// Where a search for free pages is: found at a page, or going on with the count of free
/// pages in a row so far and the page that row starts at.
#[derive(PartialEq, Eq, Structural, Clone, Copy, Debug)]
pub enum Search {
    Found(u64),
    Going(u64, Option<u64>),
}

/// The search after `n` free pages from `page` (for `count` pages).
pub open spec fn free_run(st: Search, page: int, n: int, count: int) -> Search {
    match st {
        Search::Found(p) => Search::Found(p),
        Search::Going(found, start) => {
            let s = match start {
                Some(x) => x as int,
                None => page,
            };
            if found + n >= count {
                Search::Found(s as u64)
            } else {
                Search::Going((found + n) as u64, Some(s as u64))
            }
        },
    }
}

/// The search after a page in use: the row starts again.
pub open spec fn used_page(st: Search) -> Search {
    match st {
        Search::Found(p) => Search::Found(p),
        Search::Going(_, _) => Search::Going(0, None),
    }
}

/// The search through the entries `j` to 511 of the level 3 table `k`, whose first page is
/// `base`: a present entry is a page in use, another a free page.
pub open spec fn scan_l3(v: TablesView, k: int, base: int, j: int, st: Search, count: int) -> Search
    decreases ENTRIES - j,
{
    if j >= ENTRIES || st is Found {
        st
    } else {
        let e = entry(v, k, j);
        let st2 = if present(e) {
            used_page(st)
        } else {
            free_run(st, base + j, 1, count)
        };
        scan_l3(v, k, base, j + 1, st2, count)
    }
}

/// The search through the entries `j` to 511 of the level 2 table `k`, whose first page is
/// `base`: an entry not present is 512 free pages, a block pages in use, and a table is
/// searched.
pub open spec fn scan_l2(v: TablesView, k: int, base: int, j: int, st: Search, count: int) -> Search
    decreases ENTRIES - j,
{
    if j >= ENTRIES || st is Found {
        st
    } else {
        let e = entry(v, k, j);
        let st2 = if !present(e) {
            free_run(st, base + j * 512, 512, count)
        } else if is_block(e) {
            used_page(st)
        } else {
            match find_table(v, target(e)) {
                Some(k3) => scan_l3(v, k3, base + j * 512, 0, st, count),
                None => st,
            }
        };
        scan_l2(v, k, base, j + 1, st2, count)
    }
}

/// The search through the entries `j` to `last` of the level 1 table `k`, whose first page
/// is `base`: an entry not present is 512 * 512 free pages, a block pages in use, and a table
/// is searched.
pub open spec fn scan_l1(v: TablesView, k: int, base: int, j: int, last: int, st: Search, count: int) -> Search
    decreases last + 1 - j,
{
    if j > last || j >= ENTRIES || st is Found {
        st
    } else {
        let e = entry(v, k, j);
        let st2 = if !present(e) {
            free_run(st, base + j * 512 * 512, 262144, count)
        } else if is_block(e) {
            used_page(st)
        } else {
            match find_table(v, target(e)) {
                Some(k2) => scan_l2(v, k2, base + j * 512 * 512, 0, st, count),
                None => st,
            }
        };
        scan_l1(v, k, base, j + 1, last, st2, count)
    }
}

/// The search is sound for `count` pages between the pages `lo` and `hi`: a row going on is
/// shorter than `count`, and the pages it names are in the bounds.
pub open spec fn search_ok(st: Search, count: int, lo: int, hi: int) -> bool {
    match st {
        Search::Found(p) => lo <= p < hi,
        Search::Going(found, start) => found < count && (start matches Some(x) ==> lo <= x < hi),
    }
}

/// See `free_run`.
fn free_run_exec(st: Search, page: u64, n: u64, count: u64, Ghost(lo): Ghost<int>, Ghost(hi): Ghost<int>) -> (r: Search)
    requires
        search_ok(st, count as int, lo as int, hi as int),
        lo <= page < hi,
        n <= 262144,
        count <= 0x800_0000,
    ensures
        r == free_run(st, page as int, n as int, count as int),
        search_ok(r, count as int, lo as int, hi as int),
{
    match st {
        Search::Found(p) => Search::Found(p),
        Search::Going(found, start) => {
            let s = match start {
                Some(x) => x,
                None => page,
            };
            if found + n >= count {
                Search::Found(s)
            } else {
                Search::Going(found + n, Some(s))
            }
        },
    }
}

/// See `used_page`.
fn used_page_exec(st: Search, Ghost(lo): Ghost<int>, Ghost(hi): Ghost<int>) -> (r: Search)
    ensures
        r == used_page(st),
{
    match st {
        Search::Found(p) => Search::Found(p),
        Search::Going(_, _) => Search::Going(0, None),
    }
}

/// See `scan_l3`.
fn search_l3(tables: &PageTables, k: usize, base: u64, st: Search, count: u64, Ghost(lo): Ghost<int>, Ghost(hi): Ghost<int>) -> (r: Search)
    requires
        lo <= base,
        base + ENTRIES <= hi,
        tables_wf(tables@),
        k < tables@.addrs.len(),
        search_ok(st, count as int, lo as int, hi as int),
        count <= 0x800_0000,
        count > 0,
        base + ENTRIES <= u64::MAX,
    ensures
        r == scan_l3(tables@, k as int, base as int, 0, st, count as int),
        search_ok(r, count as int, lo as int, hi as int),
{
    let mut cur = st;
    let mut j: usize = 0;
    while j < ENTRIES
        invariant
            tables_wf(tables@),
            k < tables@.addrs.len(),
            j <= ENTRIES,
            search_ok(cur, count as int, lo as int, hi as int),
            count <= 0x800_0000,
            count > 0,
            lo <= base,
            base + ENTRIES <= hi,
            base + ENTRIES <= u64::MAX,
            scan_l3(tables@, k as int, base as int, 0, st, count as int) == scan_l3(
                tables@,
                k as int,
                base as int,
                j as int,
                cur,
                count as int,
            ),
        decreases ENTRIES - j,
    {
        if let Search::Found(_) = cur {
            return cur;
        }
        let e = tables.get(k, j);
        cur = if e & 1 != 0 {
            used_page_exec(cur, Ghost(lo), Ghost(hi))
        } else {
            free_run_exec(cur, base + j as u64, 1, count, Ghost(lo), Ghost(hi))
        };
        j += 1;
    }
    cur
}

/// See `scan_l2`.
fn search_l2(tables: &PageTables, k: usize, base: u64, st: Search, count: u64, Ghost(lo): Ghost<int>, Ghost(hi): Ghost<int>) -> (r: Search)
    requires
        lo <= base,
        base + ENTRIES * ENTRIES <= hi,
        tables_wf(tables@),
        k < tables@.addrs.len(),
        tables@.levels[k as int] == 2,
        search_ok(st, count as int, lo as int, hi as int),
        count <= 0x800_0000,
        count > 0,
        base + ENTRIES * ENTRIES <= u64::MAX,
    ensures
        r == scan_l2(tables@, k as int, base as int, 0, st, count as int),
        search_ok(r, count as int, lo as int, hi as int),
{
    let mut cur = st;
    let mut j: usize = 0;
    while j < ENTRIES
        invariant
            tables_wf(tables@),
            k < tables@.addrs.len(),
            tables@.levels[k as int] == 2,
            j <= ENTRIES,
            search_ok(cur, count as int, lo as int, hi as int),
            count <= 0x800_0000,
            count > 0,
            lo <= base,
            base + ENTRIES * ENTRIES <= hi,
            base + ENTRIES * ENTRIES <= u64::MAX,
            scan_l2(tables@, k as int, base as int, 0, st, count as int) == scan_l2(
                tables@,
                k as int,
                base as int,
                j as int,
                cur,
                count as int,
            ),
        decreases ENTRIES - j,
    {
        if let Search::Found(_) = cur {
            return cur;
        }
        let e = tables.get(k, j);
        let page = base + (j as u64) * 512;
        cur = if e & 1 == 0 {
            free_run_exec(cur, page, 512, count, Ghost(lo), Ghost(hi))
        } else if e & 2 == 0 {
            used_page_exec(cur, Ghost(lo), Ghost(hi))
        } else {
            proof {
                assert(points_to_table(2, e));
                lemma_find_from(tables@.addrs, target(e), 0);
            }
            let k3 = tables.find(e & ADDRESS_MASK).unwrap();
            search_l3(tables, k3, page, cur, count, Ghost(lo), Ghost(hi))
        };
        j += 1;
    }
    cur
}

/// See `scan_l1`.
fn search_l1(tables: &PageTables, k: usize, base: u64, first: usize, last: usize, st: Search, count: u64, Ghost(lo): Ghost<int>, Ghost(hi): Ghost<int>) -> (r: Search)
    requires
        lo <= base,
        base + ENTRIES * ENTRIES * ENTRIES <= hi,
        tables_wf(tables@),
        k < tables@.addrs.len(),
        tables@.levels[k as int] == 1,
        search_ok(st, count as int, lo as int, hi as int),
        count <= 0x800_0000,
        count > 0,
        last < ENTRIES,
        first <= last + 1,
        base + ENTRIES * ENTRIES * ENTRIES <= u64::MAX,
    ensures
        r == scan_l1(tables@, k as int, base as int, first as int, last as int, st, count as int),
        search_ok(r, count as int, lo as int, hi as int),
{
    let mut cur = st;
    let mut j: usize = first;
    while j <= last
        invariant
            tables_wf(tables@),
            k < tables@.addrs.len(),
            tables@.levels[k as int] == 1,
            first <= j,
            j <= last + 1,
            last < ENTRIES,
            search_ok(cur, count as int, lo as int, hi as int),
            count <= 0x800_0000,
            count > 0,
            lo <= base,
            base + ENTRIES * ENTRIES * ENTRIES <= hi,
            base + ENTRIES * ENTRIES * ENTRIES <= u64::MAX,
            scan_l1(tables@, k as int, base as int, first as int, last as int, st, count as int)
                == scan_l1(tables@, k as int, base as int, j as int, last as int, cur, count as int),
        decreases last + 1 - j,
    {
        if let Search::Found(_) = cur {
            return cur;
        }
        let e = tables.get(k, j);
        let page = base + (j as u64) * 512 * 512;
        cur = if e & 1 == 0 {
            free_run_exec(cur, page, 262144, count, Ghost(lo), Ghost(hi))
        } else if e & 2 == 0 {
            used_page_exec(cur, Ghost(lo), Ghost(hi))
        } else {
            proof {
                assert(points_to_table(1, e));
                lemma_find_from(tables@.addrs, target(e), 0);
            }
            let k2 = tables.find(e & ADDRESS_MASK).unwrap();
            search_l2(tables, k2, page, cur, count, Ghost(lo), Ghost(hi))
        };
        j += 1;
    }
    cur
}

/// The first page of the high address space.
pub const HIGH_PAGE_OFFSET: u64 = 0xF_FFF0_0000_0000;

/// The first page number of the level 0 entry `l0` of `sp`.
pub open spec fn region_base(sp: VirtualAddressSpace, l0: int) -> int {
    l0 * 512 * 512 * 512 + if sp.is_low {
        0
    } else {
        HIGH_PAGE_OFFSET as int
    }
}

/// Where `find_free_pages` finds `count` free pages in `start..end` in `sp`: the search goes
/// through the level 1 entries from the one of `start` to the one of the last page before
/// `end`, and returns the first page of the first row of free
/// pages that reaches `count` (see `scan_l1`). With no level 1 table, `start`; with a block
/// in its place, or no such row, `OutOfVirtualSpace`.
pub open spec fn find_free_spec(v: TablesView, sp: VirtualAddressSpace, count: int, start: u64, end: u64) -> Result<
    u64,
    MemoryError,
> {
    let l0 = va_index(start, 0);
    let first = va_index(start, 1);
    let last = va_index((end - 1) as u64, 1);
    match table_at(v, sp, start, 1) {
        Err(MemoryError::NotMapped) => Ok(start),
        Err(_) => Err(MemoryError::OutOfVirtualSpace),
        Ok(k1) => match scan_l1(v, k1, region_base(sp, l0), first, last, Search::Going(0, None), count) {
            Search::Found(p) => Ok((p * PAGE_SIZE) as u64),
            Search::Going(_, _) => Err(MemoryError::OutOfVirtualSpace),
        },
    }
}

/// The memory management unit's view of memory: the translation tables.
pub struct Mmu {
    tables: PageTables,
}

impl Mmu {
    pub closed spec fn view(&self) -> TablesView {
        self.tables@
    }

    /// No table yet.
    pub fn new() -> (r: Self)
        ensures
            r@.addrs.len() == 0,
            tables_wf(r@),
    {
        Mmu { tables: PageTables::new() }
    }

    /// Whether the page of a translation table starts in `lo..hi`.
    pub fn has_table_in(&self, lo: u64, hi: u64) -> (r: bool)
        ensures
            r == exists|k: int| 0 <= k < self@.addrs.len() && lo <= #[trigger] self@.addrs[k] < hi,
    {
        let r = self.tables.has_table_in(lo, hi);
        assert(self@ == self.tables@);
        r
    }

    /// A new address space, low or high, whose first table is an empty table in a page from
    /// `pages`; `None` if no page can be had.
    pub fn create_space<P: PageAllocator<Physical>>(&mut self, is_low: bool, pages: &mut P) -> (r: Option<
        VirtualAddressSpace,
    >)
        requires
            tables_wf(old(self)@),
            owned(old(self)@, *old(pages)),
            old(pages).inv(),
        ensures
            tables_wf(final(self)@),
            owned(final(self)@, *final(pages)),
            final(pages).inv(),
            allocations_kept(*old(pages), *final(pages)),
            grows(old(self)@, final(self)@),
            r is Some <==> old(pages).has_room(1),
            match r {
                Some(sp) => {
                    &&& sp.is_low == is_low
                    &&& space_wf(final(self)@, sp)
                    &&& final(self)@ == add_table(old(self)@, sp.root, if is_low { 1u8 } else { 0u8 })
                    &&& forall|va: u64| translate(final(self)@, sp, va) is None
                },
                None => final(self)@ == old(self)@,
            },
    {
        let ghost v = self.tables@;
        let page = match pages.allocate(1) {
            Some(p) => p,
            None => return None,
        };
        let a = page.addr();
        proof {
            lemma_find_from(v.addrs, a, 0);
            if find_table(v, a) is Some {
                let j = find_table(v, a).unwrap();
                assert(old(pages).allocated(v.addrs[j]));
            }
        }
        let l: u8 = if is_low { 1 } else { 0 };
        let k = self.tables.add(a, l);
        proof {
            lemma_add_table_wf(v, a, l);
            let w = self.tables@;
            assert forall|x: int| 0 <= x < w.addrs.len() implies final(pages).allocated(#[trigger] w.addrs[x]) by {
                if x < v.addrs.len() {
                    assert(old(pages).allocated(v.addrs[x]));
                }
            }
            assert(find_table(w, a) == Some(k as int));
            assert forall|va: u64| translate(w, VirtualAddressSpace { root: a, is_low }, va) is None by {
                lemma_index_bound(va, l);
                assert(entry(w, k as int, va_index(va, l)) == 0);
                lemma_zero_not_present();
            }
        }
        Some(VirtualAddressSpace { root: a, is_low })
    }

    /// Map the `count` pages from `from` to the physical pages from `to` in `sp`, each time with
    /// the largest mapping that fits: a 1 GB block where the virtual and physical addresses are
    /// both on 1 GB and at least 1 GB is left, else a 2 MB block likewise, else a 4 KB page (see
    /// `map_1g`, `map_2m`, `map_4k`, which get `flags`); returns `from`. The first error stops
    /// it, and what was mapped before stays. The range must lie in one half of the address
    /// space. Each span takes at most 5 pages for tables, so room for `5 * count` pages is
    /// enough; without `force_remap` it succeeds where the slot of every span is free
    /// (`spans_free`), and with it in a low space or where no page of the range is in use
    /// (`pages_free`). Once it succeeds every page of the range is mapped, with or without
    /// `force_remap`, for a range in the half of the address space of `sp` (`in_half`).
    #[verifier::rlimit(80)]
    #[verifier::spinoff_prover]
    pub fn map<P: PageAllocator<Physical>>(
        &mut self,
        from: VirtualAddress,
        to: PhysicalAddress,
        count: usize,
        flags: MapFlags,
        sp: VirtualAddressSpace,
        pages: &mut P,
    ) -> (r: Result<VirtualAddress, Error>)
        requires
            tables_wf(old(self)@),
            space_wf(old(self)@, sp),
            owned(old(self)@, *old(pages)),
            old(pages).inv(),
            from@ % PAGE_SIZE as u64 == 0,
            to@ % PAGE_SIZE as u64 == 0,
            from@ + count * PAGE_SIZE <= u64::MAX,
            to@ + count * PAGE_SIZE <= u64::MAX,
            from@ >= INVALID_VIRT_ADDRESS_END || from@ + count * PAGE_SIZE <= INVALID_VIRT_ADDRESS_START,
        ensures
            tables_wf(final(self)@),
            space_wf(final(self)@, sp),
            owned(final(self)@, *final(pages)),
            final(pages).inv(),
            allocations_kept(*old(pages), *final(pages)),
            grows(old(self)@, final(self)@),
            r matches Ok(a) ==> a@ == from@,
            r matches Err(e) ==> e == Error::Memory(MemoryError::AlreadyMapped) || e == Error::Memory(
                MemoryError::OutOfPhysicalMemory,
            ),
            flags.0 & 0x80 == 0 && r is Ok ==> maps_pages(final(self)@, sp, from@, to@, from@ + count * PAGE_SIZE),
            in_half(sp, from@ as int, from@ + count * PAGE_SIZE) && r is Ok ==> maps_pages(
                final(self)@,
                sp,
                from@,
                to@,
                from@ + count * PAGE_SIZE,
            ),
            flags.0 & 0x80 == 0 && r is Ok ==> pages_unmapped(old(self)@, sp, from@, from@ + count * PAGE_SIZE),
            flags.0 & 0x80 == 0 ==> keeps_mapped(old(self)@, final(self)@, sp),
            took_at_most(*old(pages), *final(pages), (5 * count) as nat),
            r matches Err(e) && e == Error::Memory(MemoryError::OutOfPhysicalMemory) ==> !(5 * count
                <= usize::MAX && old(pages).has_room((5 * count) as usize)),
            r matches Err(e) && e == Error::Memory(MemoryError::AlreadyMapped) ==> if flags.0 & 0x80 == 0 {
                !(spans_free(old(self)@, sp, from@ as int, to@ as int, from@ + count * PAGE_SIZE) && in_half(
                    sp,
                    from@ as int,
                    from@ + count * PAGE_SIZE,
                ))
            } else {
                !sp.is_low && !(pages_free(old(self)@, sp, from@, from@ + count * PAGE_SIZE) && in_half(
                    sp,
                    from@ as int,
                    from@ + count * PAGE_SIZE,
                ))
            },
            (if flags.0 & 0x80 == 0 {
                spans_free(old(self)@, sp, from@ as int, to@ as int, from@ + count * PAGE_SIZE) && in_half(
                    sp,
                    from@ as int,
                    from@ + count * PAGE_SIZE,
                )
            } else {
                sp.is_low || (pages_free(old(self)@, sp, from@, from@ + count * PAGE_SIZE) && in_half(
                    sp,
                    from@ as int,
                    from@ + count * PAGE_SIZE,
                ))
            }) && 5 * count <= usize::MAX && old(pages).has_room((5 * count) as usize) ==> r is Ok,
    {
        let ghost v0 = self.tables@;
        let ghost p0 = *pages;
        let force = flags.force_remap();
        let start = from.copy().addr();
        let max: u64 = start + (count as u64) * 4096;
        let mut vaddr: u64 = start;
        let mut paddr: u64 = to.addr();
        let ghost mut t: nat = 0;
        let ghost mut left: nat = count as nat;
        let ghost free = !force && spans_free(v0, sp, start as int, to@ as int, max as int) && in_half(
            sp,
            start as int,
            max as int,
        );
        let ghost room = 5 * count <= usize::MAX && p0.has_room((5 * count) as usize);
        let ghost ffree = pages_free(v0, sp, start, max as int) && in_half(sp, start as int, max as int);
        proof {
            lemma_took_none(p0);
            if ffree {
                assert forall|x: u64| start <= x < max && x % 0x1000 == 0 implies !#[trigger] slot_taken(
                    v0,
                    sp,
                    x,
                    3,
                ) by {
                    assert(!in_use_at(v0, sp, x));
                    let kr = find_table(v0, sp.root).unwrap();
                    lemma_in_use_taken(v0, kr, x);
                }
            }
        }
        while vaddr < max
            invariant
                tables_wf(self.tables@),
                space_wf(self.tables@, sp),
                owned(self.tables@, *pages),
                pages.inv(),
                grows(v0, self.tables@),
                v0 == old(self)@,
                p0 == *old(pages),
                allocations_kept(p0, *pages),
                force == (flags.0 & 0x80 != 0),
                start == from@,
                start <= vaddr <= max,
                max == start + count * PAGE_SIZE,
                vaddr % 0x1000 == 0,
                max - vaddr == 0x1000 * left,
                paddr % 0x1000 == 0,
                paddr == to@ + (vaddr - start),
                to@ + count * PAGE_SIZE <= u64::MAX,
                start >= INVALID_VIRT_ADDRESS_END || max <= INVALID_VIRT_ADDRESS_START,
                !force ==> keeps_mapped(v0, self.tables@, sp),
                !force ==> maps_pages(self.tables@, sp, start, to@, vaddr as int),
                !force ==> pages_unmapped(v0, sp, start, vaddr as int),
                took_at_most(p0, *pages, t),
                t + 5 * left <= 5 * count,
                free == (!force && spans_free(v0, sp, start as int, to@ as int, max as int) && in_half(
                    sp,
                    start as int,
                    max as int,
                )),
                free ==> spans_free(self.tables@, sp, vaddr as int, paddr as int, max as int),
                room == (5 * count <= usize::MAX && p0.has_room((5 * count) as usize)),
                ffree == (pages_free(v0, sp, start, max as int) && in_half(sp, start as int, max as int)),
                in_half(sp, start as int, max as int) ==> maps_pages(self.tables@, sp, start, to@, vaddr as int),
                ffree ==> forall|x: u64|
                    vaddr <= x < max && x % 0x1000 == 0 ==> !#[trigger] slot_taken(self.tables@, sp, x, 3),
            decreases max - vaddr,
        {
            let remaining = max - vaddr;
            let ghost before = self.tables@;
            let ghost pb = *pages;
            proof {
                assert(left >= 1);
                if room {
                    assert(5 * count >= t + 5);
                    lemma_room_after(p0, pb, t, (5 * count) as usize, 5);
                    pb.lemma_room_less(5, 3);
                    pb.lemma_room_less(5, 1);
                }
            }
            let va = VirtualAddress::new(vaddr);
            let pa = PhysicalAddress::new(paddr);
            proof {
                if ffree {
                    lemma_free_not_top_blocked(before, sp, vaddr);
                }
            }
            if remaining >= 0x4000_0000 && vaddr % 0x4000_0000 == 0 && paddr % 0x4000_0000 == 0 {
                let res = map_1g(&mut self.tables, sp, va, pa, flags, pages);
                proof {
                    lemma_took_trans(p0, pb, *pages, t, 1);
                    t = t + 1;
                }
                if let Err(e) = res {
                    proof {
                        lemma_stop_chain(v0, before, self.tables@, sp, !force);
                        lemma_kept_trans(p0, pb, *pages);
                        lemma_took_more(p0, *pages, t, (5 * count) as nat);
                    }
                    return Err(e);
                }
                proof {
                    lemma_grows_trans(v0, before, self.tables@);
                    lemma_kept_trans(p0, pb, *pages);
                    if !force {
                        lemma_map_chunk(v0, before, self.tables@, sp, start, to@, vaddr, paddr, 1);
                    }
                    lemma_add_aligned(vaddr as int, 0x4000_0000);
                    if ffree {
                        assert(!slot_taken(before, sp, vaddr, 3));
                        lemma_free_chunk(before, self.tables@, sp, vaddr, 1, max as int);
                    }
                    if in_half(sp, start as int, max as int) {
                        lemma_low_chunk(before, self.tables@, sp, start, to@, vaddr, paddr, 1, max as int);
                    }
                    if free {
                        lemma_spans_kept(
                            before,
                            self.tables@,
                            sp,
                            vaddr,
                            1,
                            vaddr + 0x4000_0000,
                            paddr + 0x4000_0000,
                            max as int,
                        );
                    }
                }
                vaddr = vaddr + 0x4000_0000;
                paddr = paddr + 0x4000_0000;
                proof {
                    left = (left - 0x40000) as nat;
                }
            } else if remaining >= 0x20_0000 && vaddr % 0x20_0000 == 0 && paddr % 0x20_0000 == 0 {
                let res = map_2m(&mut self.tables, sp, va, pa, flags, pages);
                proof {
                    lemma_took_trans(p0, pb, *pages, t, 3);
                    t = t + 3;
                }
                if let Err(e) = res {
                    proof {
                        lemma_stop_chain(v0, before, self.tables@, sp, !force);
                        lemma_kept_trans(p0, pb, *pages);
                        lemma_took_more(p0, *pages, t, (5 * count) as nat);
                    }
                    return Err(e);
                }
                proof {
                    lemma_grows_trans(v0, before, self.tables@);
                    lemma_kept_trans(p0, pb, *pages);
                    if !force {
                        lemma_map_chunk(v0, before, self.tables@, sp, start, to@, vaddr, paddr, 2);
                    }
                    lemma_add_aligned(vaddr as int, 0x20_0000);
                    if ffree {
                        assert(!slot_taken(before, sp, vaddr, 3));
                        lemma_free_chunk(before, self.tables@, sp, vaddr, 2, max as int);
                    }
                    if in_half(sp, start as int, max as int) {
                        lemma_low_chunk(before, self.tables@, sp, start, to@, vaddr, paddr, 2, max as int);
                    }
                    if free {
                        lemma_spans_kept(
                            before,
                            self.tables@,
                            sp,
                            vaddr,
                            2,
                            vaddr + 0x20_0000,
                            paddr + 0x20_0000,
                            max as int,
                        );
                    }
                }
                vaddr = vaddr + 0x20_0000;
                paddr = paddr + 0x20_0000;
                proof {
                    left = (left - 512) as nat;
                }
            } else {
                let res = map_4k(&mut self.tables, sp, va, pa, flags, pages);
                proof {
                    lemma_took_trans(p0, pb, *pages, t, 5);
                    t = t + 5;
                }
                if let Err(e) = res {
                    proof {
                        lemma_stop_chain(v0, before, self.tables@, sp, !force);
                        lemma_kept_trans(p0, pb, *pages);
                        lemma_took_more(p0, *pages, t, (5 * count) as nat);
                    }
                    return Err(e);
                }
                proof {
                    lemma_grows_trans(v0, before, self.tables@);
                    lemma_kept_trans(p0, pb, *pages);
                    if !force {
                        lemma_map_chunk(v0, before, self.tables@, sp, start, to@, vaddr, paddr, 3);
                    }
                    lemma_add_aligned(vaddr as int, 0x1000);
                    if ffree {
                        assert(!slot_taken(before, sp, vaddr, 3));
                        lemma_free_chunk(before, self.tables@, sp, vaddr, 3, max as int);
                    }
                    if in_half(sp, start as int, max as int) {
                        lemma_low_chunk(before, self.tables@, sp, start, to@, vaddr, paddr, 3, max as int);
                    }
                    if free {
                        lemma_spans_kept(
                            before,
                            self.tables@,
                            sp,
                            vaddr,
                            3,
                            vaddr + 0x1000,
                            paddr + 0x1000,
                            max as int,
                        );
                    }
                }
                vaddr = vaddr + 0x1000;
                paddr = paddr + 0x1000;
                proof {
                    left = (left - 1) as nat;
                }
            }
        }
        proof {
            lemma_took_more(p0, *pages, t, (5 * count) as nat);
        }
        Ok(from)
    }

    /// Map the page (or block) at `from` to `to` in `sp`, with the size and flags of
    /// `options` (see `map_4k`, `map_2m`, `map_1g`); returns `from`.
    pub fn map_page<P: PageAllocator<Physical>>(
        &mut self,
        from: VirtualAddress,
        to: PhysicalAddress,
        options: MapOptions,
        sp: VirtualAddressSpace,
        pages: &mut P,
    ) -> (r: Result<VirtualAddress, Error>)
        requires
            tables_wf(old(self)@),
            space_wf(old(self)@, sp),
            owned(old(self)@, *old(pages)),
            old(pages).inv(),
            from@ % entry_span(map_level(options.size)) == 0,
            to@ % entry_span(map_level(options.size)) == 0,
        ensures
            tables_wf(final(self)@),
            space_wf(final(self)@, sp),
            owned(final(self)@, *final(pages)),
            final(pages).inv(),
            allocations_kept(*old(pages), *final(pages)),
            grows(old(self)@, final(self)@),
            r matches Ok(a) ==> a@ == from@ && translate(final(self)@, sp, from@) == Some((to@ & ADDRESS_MASK) as int),
            r is Ok ==> maps_slot(final(self)@, sp, from@, to@, map_level(options.size) as int),
            options.flags.0 & 0x80 == 0 && translate(old(self)@, sp, from@) is Some ==> (r matches Err(e)
                && e == Error::Memory(MemoryError::AlreadyMapped)),
            options.flags.0 & 0x80 == 0 ==> keeps_other_slots(
                old(self)@,
                final(self)@,
                sp,
                from@,
                map_level(options.size) as int,
            ),
            options.flags.0 & 0x80 == 0 && r is Ok ==> slot_unmapped(
                old(self)@,
                sp,
                from@,
                map_level(options.size) as int,
            ),
            options.flags.0 & 0x80 == 0 && r is Err ==> same_translation(old(self)@, final(self)@, sp),
            r matches Err(e) ==> e == Error::Memory(MemoryError::AlreadyMapped) || e == Error::Memory(
                MemoryError::OutOfPhysicalMemory,
            ),
            took_at_most(*old(pages), *final(pages), map_budget(options.size) as nat),
            r matches Err(e) && e == Error::Memory(MemoryError::AlreadyMapped) ==> slot_taken(
                old(self)@,
                sp,
                from@,
                map_level(options.size) as int,
            ) && (options.flags.0 & 0x80 == 0 || top_blocked(old(self)@, sp, from@)),
            r matches Err(e) && e == Error::Memory(MemoryError::OutOfPhysicalMemory) ==> !old(pages).has_room(
                map_budget(options.size),
            ),
            (if options.flags.0 & 0x80 == 0 {
                !slot_taken(old(self)@, sp, from@, map_level(options.size) as int)
            } else {
                !top_blocked(old(self)@, sp, from@)
            }) && old(pages).has_room(map_budget(options.size)) ==> r is Ok,
            options.flags.0 & 0x80 == 0 && r is Ok ==> keeps_taken(
                old(self)@,
                final(self)@,
                sp,
                from@,
                map_level(options.size) as int,
            ),
    {
        let a = from.copy();
        match options.size {
            MapSize::Size4KB => map_4k(&mut self.tables, sp, from, to, options.flags, pages)?,
            MapSize::Size2MB => map_2m(&mut self.tables, sp, from, to, options.flags, pages)?,
            MapSize::Size1GB => map_1g(&mut self.tables, sp, from, to, options.flags, pages)?,
        }
        Ok(a)
    }

    /// Unmap the page (or block) of `size` at `addr` in `sp` (see `unmap_at`); returns the
    /// physical address it was mapped to.
    pub fn unmap(&mut self, addr: VirtualAddress, size: MapSize, sp: VirtualAddressSpace) -> (r: Result<
        PhysicalAddress,
        Error,
    >)
        requires
            tables_wf(old(self)@),
            space_wf(old(self)@, sp),
        ensures
            tables_wf(final(self)@),
            space_wf(final(self)@, sp),
            match table_at(old(self)@, sp, addr@, map_level(size) as int) {
                Err(x) => r == Err::<PhysicalAddress, Error>(Error::Memory(x)) && final(self)@ == old(self)@,
                Ok(k) => {
                    let i = va_index(addr@, map_level(size));
                    let e = entry(old(self)@, k, i);
                    if !present(e) {
                        r == Err::<PhysicalAddress, Error>(Error::Memory(MemoryError::NotMapped))
                            && final(self)@ == old(self)@
                    } else {
                        &&& r matches Ok(p) && p@ == target(e)
                        &&& final(self)@ == set_entry(old(self)@, k, i, e & !1u64)
                    }
                },
            },
            r is Ok ==> translate(final(self)@, sp, addr@) is None,
            only_removes(old(self)@, final(self)@, sp),
    {
        let lv: u8 = match size {
            MapSize::Size4KB => 3,
            MapSize::Size2MB => 2,
            MapSize::Size1GB => 1,
        };
        unmap_at(&mut self.tables, sp, addr, lv)
    }

    /// The addresses of the level 0 entry of `s` are mapped where its level 1 table `k1`
    /// leads them.
    proof fn lemma_window(&self, sp: VirtualAddressSpace, s: u64, k0: int, k1: int, l0: int)
        requires
            tables_wf(self@),
            space_wf(self@, sp),
            find_table(self@, sp.root) == Some(k0),
            table_at(self@, sp, s, 1) == Ok::<int, MemoryError>(k1),
            l0 == va_index(s, 0),
            sp.is_low ==> l0 == 0,
            self@.levels[k1] == 1,
        ensures
            window(self@, sp, l0, k1),
    {
        let v = self@;
        lemma_find_from(v.addrs, sp.root, 0);
        lemma_index_bound(s, 0);
        if sp.is_low {
            assert(k1 == k0);
        } else {
            let e0 = entry(v, k0, l0);
            assert(table_at(v, sp, s, 0) == Ok::<int, MemoryError>(k0));
            assert(present(e0) && !is_block(e0));
            assert(v.levels[k0] == 0);
            assert(points_to_table(v.levels[k0], e0));
            assert forall|x: u64| va_index(x, 0) == l0 implies #[trigger] translate(v, sp, x) == walk(v, k1, x) by {
                assert(walk(v, k0, x) == walk(v, k1, x));
            }
            assert forall|x: u64| va_index(x, 0) == l0 implies #[trigger] in_use_at(v, sp, x) == leaf_present(
                v,
                k1,
                x,
            ) by {
                assert(leaf_present(v, k0, x) == leaf_present(v, k1, x));
            }
        }
        lemma_find_from(v.addrs, target(entry(v, k0, l0)), 0);
    }

    /// With no level 1 table under the level 0 entry of `s`, no page of `s..end` is mapped.
    proof fn lemma_free_without_l1(
        &self,
        sp: VirtualAddressSpace,
        s: u64,
        e: u64,
        count: int,
        k0: int,
        l0: int,
        first: int,
        last: int,
    )
        requires
            tables_wf(self@),
            space_wf(self@, sp),
            !sp.is_low,
            find_table(self@, sp.root) == Some(k0),
            0 <= l0 < 512,
            l0 == va_index(s, 0),
            !present(entry(self@, k0, l0)),
            s as int == (region_base(sp, l0) + first * 0x40000) * 4096,
            e as int == (region_base(sp, l0) + (last + 1) * 0x40000) * 4096,
            0 <= first <= last < 512,
            count * PAGE_SIZE <= e - s,
        ensures
            s + count * PAGE_SIZE <= e,
            pages_unmapped(self@, sp, s, s + count * PAGE_SIZE),
            pages_free(self@, sp, s, s + count * PAGE_SIZE),
    {
        let v = self@;
        lemma_find_from(v.addrs, sp.root, 0);
        assert forall|y: u64| s <= y < s + count * PAGE_SIZE && y % 0x1000 == 0 implies #[trigger] translate(
            v,
            sp,
            y,
        ) is None && !in_use_at(v, sp, y) by {
            let q = y as int / 4096;
            assert(y == q * 4096);
            lemma_page_index(sp, l0, q);
            assert(page_addr(q) == y);
            assert(v.levels[k0] == 0);
        }
        assert forall|y: u64| s <= y < s + count * PAGE_SIZE && y % 0x1000 == 0 implies !#[trigger] in_use_at(
            v,
            sp,
            y,
        ) by {
            assert(translate(v, sp, y) is None);
        }
    }

    /// With a block at the level 0 entry of `s`, every page of `s..end` is in use.
    proof fn lemma_all_used_in_block(
        &self,
        sp: VirtualAddressSpace,
        s: u64,
        e: u64,
        count: int,
        k0: int,
        l0: int,
        first: int,
        last: int,
    )
        requires
            tables_wf(self@),
            space_wf(self@, sp),
            !sp.is_low,
            find_table(self@, sp.root) == Some(k0),
            0 <= l0 < 512,
            l0 == va_index(s, 0),
            present(entry(self@, k0, l0)) && is_block(entry(self@, k0, l0)),
            s as int == (region_base(sp, l0) + first * 0x40000) * 4096,
            e as int == (region_base(sp, l0) + (last + 1) * 0x40000) * 4096,
            0 <= first <= last < 512,
            count > 0,
        ensures
            forall|p: int| s / 4096 <= p && p + count <= e / 4096 ==> #[trigger] window_used(self@, sp, p, count),
    {
        let v = self@;
        lemma_find_from(v.addrs, sp.root, 0);
        assert(v.levels[k0] == 0);
        assert forall|p: int| s / 4096 <= p && p + count <= e / 4096 implies #[trigger] window_used(v, sp, p, count) by {
            lemma_page_index(sp, l0, p);
            assert(page_in_use(v, sp, p));
        }
    }

    /// Find `count` free pages in `start..end` in `sp` (see `find_free_spec`). The range lies
    /// in one entry of level 0 and in its half of the address space, starts and ends on 1 GB,
    /// and holds the pages.
    pub fn find_free_pages(&self, count: usize, start: VirtualAddress, end: VirtualAddress, sp: VirtualAddressSpace) -> (r: Result<
        VirtualAddress,
        Error,
    >)
        requires
            tables_wf(self@),
            space_wf(self@, sp),
            count > 0,
            start@ < end@,
            count * PAGE_SIZE <= end@ - start@,
            end@ - start@ <= 0x80_0000_0000,
            start@ % 0x4000_0000 == 0,
            end@ % 0x4000_0000 == 0,
            va_index(start@, 0) == va_index((end@ - 1) as u64, 0),
            sp.is_low ==> end@ <= INVALID_VIRT_ADDRESS_START,
            !sp.is_low ==> start@ >= INVALID_VIRT_ADDRESS_END,
        ensures
            match find_free_spec(self@, sp, count as int, start@, end@) {
                Ok(a) => r matches Ok(x) && x@ == a,
                Err(e) => r matches Err(x) && x == Error::Memory(e),
            },
            r matches Ok(x) ==> x@ % PAGE_SIZE as u64 == 0,
            r matches Ok(x) ==> start@ <= x@ && x@ + count * PAGE_SIZE <= end@ && pages_unmapped(
                self@,
                sp,
                x@,
                x@ + count * PAGE_SIZE,
            ),
            r matches Ok(x) ==> pages_free(self@, sp, x@, x@ + count * PAGE_SIZE),
            r is Err ==> forall|p: int|
                start@ / 4096 <= p && p + count <= end@ / 4096 ==> #[trigger] window_used(self@, sp, p, count as int),
    {
        let s = start.copy().addr();
        let e = end.copy().addr();
        let l0 = index_of(s, 0);
        let first = index_of(s, 1);
        let last = index_of(e - 1, 1);
        let ghost h: u64 = if sp.is_low { 0 } else { 0xFFFF_0000_0000_0000 };
        proof {
            let em1 = (e - 1) as u64;
            assert((s >> 39u64) & 0x1FF == (em1 >> 39u64) & 0x1FF);
            lemma_range_bits(s, e, em1, h);
            assert(first <= last);
        }
        let (k0, g) = start_path(&self.tables, sp, Ghost(s));
        proof {
            lemma_find_from(self.tables@.addrs, sp.root, 0);
            assert(table_at(self@, sp, s, 0) == Ok::<int, MemoryError>(k0 as int));
        }
        let k1 = if sp.is_low {
            proof {
                assert(table_at(self@, sp, s, 1) == Ok::<int, MemoryError>(k0 as int));
            }
            k0
        } else {
            match get_table(&self.tables, k0, l0) {
                Ok(k) => k,
                Err(Error::Memory(MemoryError::NotMapped)) => {
                    proof {
                        self.lemma_free_without_l1(sp, s, e, count as int, k0 as int, l0 as int, first as int, last as int);
                    }
                    return Ok(start);
                },
                Err(_) => {
                    proof {
                        self.lemma_all_used_in_block(sp, s, e, count as int, k0 as int, l0 as int, first as int, last as int);
                    }
                    return Err(Error::Memory(MemoryError::OutOfVirtualSpace));
                },
            }
        };
        proof {
            assert(table_at(self@, sp, s, 1) == Ok::<int, MemoryError>(k1 as int));
            assert(self@.levels[k1 as int] == 1);
        }
        let base: u64 = (l0 as u64) * 512 * 512 * 512 + if sp.is_low { 0 } else { HIGH_PAGE_OFFSET };
        proof {
            assert(count <= 0x800_0000);
            if sp.is_low {
                assert(l0 == 0);
            }
            assert(base == region_base(sp, l0 as int));
        }
        let found = search_l1(
            &self.tables,
            k1,
            base,
            first,
            last,
            Search::Going(0, None),
            count as u64,
            Ghost(base as int),
            Ghost(base + 512 * 512 * 512),
        );
        proof {
            self.lemma_window(sp, s, k0 as int, k1 as int, l0 as int);
            assert(none_missed(self@, sp, Search::Going(0, None), base + first * 0x40000, count as int, base + first * 0x40000));
            lemma_scan_l1(
                self@,
                sp,
                l0 as int,
                k1 as int,
                first as int,
                last as int,
                Search::Going(0, None),
                count as int,
                base + first * 0x40000,
            );
        }
        match found {
            Search::Found(p) => {
                proof {
                    let lo = base + first * 0x40000;
                    assert(lo * 4096 == s);
                    assert((base + (last + 1) * 0x40000) * 4096 == e);
                    assert forall|y: u64|
                        p * 4096 <= y < p * 4096 + count * PAGE_SIZE && y % 0x1000 == 0 implies #[trigger] translate(
                        self@,
                        sp,
                        y,
                    ) is None && !in_use_at(self@, sp, y) by {
                        let q = y as int / 4096;
                        assert(y == q * 4096);
                        assert(p <= q < p + count);
                        assert(page_addr(q) == y);
                    }
                    assert forall|y: u64|
                        p * 4096 <= y < p * 4096 + count * PAGE_SIZE && y % 0x1000 == 0 implies !#[trigger] in_use_at(
                        self@,
                        sp,
                        y,
                    ) by {
                        assert(translate(self@, sp, y) is None);
                    }
                    assert(base <= p < base + 512 * 512 * 512);
                    if sp.is_low {
                        assert(p < 0x800_0000);
                    } else {
                        assert(p >= HIGH_PAGE_OFFSET);
                    }
                }
                let a = p * PAGE_SIZE as u64;
                Ok(VirtualAddress::new(a))
            },
            Search::Going(_, _) => {
                proof {
                    let lo = base + first * 0x40000;
                    assert(lo * 4096 == s);
                    assert((base + (last + 1) * 0x40000) * 4096 == e);
                    assert(s / 4096 == lo);
                    assert(e / 4096 == base + (last + 1) * 0x40000);
                }
                Err(Error::Memory(MemoryError::OutOfVirtualSpace))
            },
        }
    }
}

/// How many pages of tables mapping a page or block of `size` may take: a table for each level
/// on the way, and one more for each block split on the way.
pub open spec fn map_budget(size: MapSize) -> usize {
    match size {
        MapSize::Size4KB => 5,
        MapSize::Size2MB => 3,
        MapSize::Size1GB => 1,
    }
}

/// The level of the table entry that maps a page or block of `size`.
pub open spec fn map_level(size: MapSize) -> u8 {
    match size {
        MapSize::Size4KB => 3,
        MapSize::Size2MB => 2,
        MapSize::Size1GB => 1,
    }
}

} // verus!
