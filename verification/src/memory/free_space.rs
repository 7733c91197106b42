use vstd::prelude::*;

use super::tables::{
    entry, find_table, free_run, is_block, lemma_find_from, lemma_index_bound, points_to_table, present,
    region_base, scan_l1, scan_l2, scan_l3, tables_wf, target, translate, used_page, va_index,
    walk, Search, TablesView, VirtualAddressSpace, HIGH_PAGE_OFFSET,
};

verus! {

/// The address of the page number `q`.
pub open spec fn page_addr(q: int) -> u64 {
    (q * 4096) as u64
}

/// No page from the page number `lo` up to `hi` is mapped in `sp`.
pub open spec fn free_from(v: TablesView, sp: VirtualAddressSpace, lo: int, hi: int) -> bool {
    forall|q: int| lo <= q < hi ==> #[trigger] translate(v, sp, page_addr(q)) is None && !page_in_use(v, sp, q)
}

/// From the table `k` on, the way to the address `va` ends at a present entry of a page or a
/// block: what a search counts as a page in use.
pub open spec fn leaf_present(v: TablesView, k: int, va: u64) -> bool
    decreases 4 - v.levels[k],
{
    if k < 0 || k >= v.addrs.len() || v.levels[k] > 3 {
        false
    } else {
        let l = v.levels[k];
        let e = entry(v, k, va_index(va, l));
        if !present(e) {
            false
        } else if l == 3 || is_block(e) {
            true
        } else {
            match find_table(v, target(e)) {
                Some(k2) => if v.levels[k2] == l + 1 {
                    leaf_present(v, k2, va)
                } else {
                    false
                },
                None => false,
            }
        }
    }
}

/// The address `va` is in use in `sp`: its way ends at a present page or block entry.
pub open spec fn in_use_at(v: TablesView, sp: VirtualAddressSpace, va: u64) -> bool {
    match find_table(v, sp.root) {
        Some(k) => leaf_present(v, k, va),
        None => false,
    }
}

/// The page number `q` is in use in `sp`.
pub open spec fn page_in_use(v: TablesView, sp: VirtualAddressSpace, q: int) -> bool {
    in_use_at(v, sp, page_addr(q))
}

/// Some page of the `count` pages from the page number `p` is in use in `sp`.
pub open spec fn window_used(v: TablesView, sp: VirtualAddressSpace, p: int, count: int) -> bool {
    exists|q: int| p <= q < p + count && #[trigger] page_in_use(v, sp, q)
}

/// The search `st`, having gone through the pages before the page `pos` from the page `lo`,
/// has missed no row: while it goes on, each `count` pages from `lo` that end by `pos` hold a
/// page in use, and so does the page before the row going on, unless it starts at `lo`.
pub open spec fn none_missed(v: TablesView, sp: VirtualAddressSpace, st: Search, pos: int, count: int, lo: int) -> bool {
    match st {
        Search::Found(_) => true,
        Search::Going(found, _) => {
            &&& forall|p: int| lo <= p && p + count <= pos ==> #[trigger] window_used(v, sp, p, count)
            &&& (pos - found == lo || page_in_use(v, sp, pos - found - 1))
        },
    }
}

/// The search `st`, having gone through the pages before the page `pos`, from the page `lo`
/// on: a row going on starts at `lo` or after and runs up to `pos` over pages that are not
/// mapped; a row found holds `count` such pages, before `pos`.
pub open spec fn run_ok(v: TablesView, sp: VirtualAddressSpace, st: Search, pos: int, count: int, lo: int) -> bool {
    match st {
        Search::Found(p) => lo <= p && p + count <= pos && free_from(v, sp, p as int, p + count),
        Search::Going(found, start) => match start {
            Some(s) => lo <= s && s + found == pos && free_from(v, sp, s as int, pos),
            None => found == 0,
        },
    }
}

/// The addresses of the level 0 entry `l0` of `sp` are mapped where the level 1 table `k1`
/// leads them.
pub open spec fn window(v: TablesView, sp: VirtualAddressSpace, l0: int, k1: int) -> bool {
    &&& tables_wf(v)
    &&& 0 <= k1 < v.addrs.len()
    &&& v.levels[k1] == 1
    &&& 0 <= l0 < 512
    &&& sp.is_low ==> l0 == 0
    &&& forall|x: u64| va_index(x, 0) == l0 ==> #[trigger] translate(v, sp, x) == walk(v, k1, x)
    &&& forall|x: u64| va_index(x, 0) == l0 ==> #[trigger] in_use_at(v, sp, x) == leaf_present(v, k1, x)
}

/// The table indices of the address of a page of a level 0 entry.
proof fn lemma_page_bits(q: u64, x: u64, w: u64, d: u64, l0: u64, h: u64)
    by (bit_vector)
    requires
        l0 < 512,
        h == 0 || h == 0xF_FFF0_0000_0000u64,
        w == l0 * 0x800_0000u64 + h,
        w <= q,
        q < w + 0x800_0000u64,
        x == q * 4096u64,
        d == q - w,
    ensures
        (x >> 39u64) & 0x1FFu64 == l0,
        (x >> 30u64) & 0x1FFu64 == d / 0x40000u64,
        (x >> 21u64) & 0x1FFu64 == (d / 512u64) % 512u64,
        (x >> 12u64) & 0x1FFu64 == d % 512u64,
{
}

/// The table indices of the address of the page `q` of the level 0 entry `l0` of `sp`.
pub proof fn lemma_page_index(sp: VirtualAddressSpace, l0: int, q: int)
    requires
        0 <= l0 < 512,
        sp.is_low ==> l0 == 0,
        region_base(sp, l0) <= q < region_base(sp, l0) + 0x800_0000,
    ensures
        page_addr(q) == q * 4096,
        va_index(page_addr(q), 0) == l0,
        va_index(page_addr(q), 1) == (q - region_base(sp, l0)) / 0x40000,
        va_index(page_addr(q), 2) == ((q - region_base(sp, l0)) / 512) % 512,
        va_index(page_addr(q), 3) == (q - region_base(sp, l0)) % 512,
{
    let h: u64 = if sp.is_low { 0 } else { HIGH_PAGE_OFFSET };
    let w = region_base(sp, l0);
    assert(w == l0 * 0x800_0000 + h);
    assert(q * 4096 < 0x1_0000_0000_0000_0000);
    let x = (q * 4096) as u64;
    lemma_page_bits(q as u64, x, w as u64, (q - w) as u64, l0 as u64, h);
    assert(va_index(x, 0) == ((x >> 39u64) & 0x1FF) as int);
    assert(va_index(x, 1) == ((x >> 30u64) & 0x1FF) as int);
    assert(va_index(x, 2) == ((x >> 21u64) & 0x1FF) as int);
    assert(va_index(x, 3) == ((x >> 12u64) & 0x1FF) as int);
}

/// A page of the window whose entry of level 1, 2 or 3 (`depth`) on the way is not present
/// is not mapped.
pub proof fn lemma_page_free(
    v: TablesView,
    sp: VirtualAddressSpace,
    l0: int,
    k1: int,
    k2: int,
    k3: int,
    q: int,
    depth: int,
)
    requires
        window(v, sp, l0, k1),
        region_base(sp, l0) <= q < region_base(sp, l0) + 0x800_0000,
        1 <= depth <= 3,
        ({
            let o = q - region_base(sp, l0);
            let e1 = entry(v, k1, o / 0x40000);
            let e2 = entry(v, k2, (o / 512) % 512);
            let e3 = entry(v, k3, o % 512);
            &&& depth == 1 ==> !present(e1)
            &&& depth >= 2 ==> points_to_table(1, e1) && find_table(v, target(e1)) == Some(k2)
            &&& depth == 2 ==> !present(e2)
            &&& depth == 3 ==> points_to_table(2, e2) && find_table(v, target(e2)) == Some(k3)
                && !present(e3)
        }),
    ensures
        translate(v, sp, page_addr(q)) is None,
        !page_in_use(v, sp, q),
{
    lemma_page_index(sp, l0, q);
    let x = page_addr(q);
    assert(translate(v, sp, x) == walk(v, k1, x));
    assert(in_use_at(v, sp, x) == leaf_present(v, k1, x));
    let o = q - region_base(sp, l0);
    let e1 = entry(v, k1, o / 0x40000);
    if depth >= 2 {
        assert(0 <= k1 < v.addrs.len() && 0 <= o / 0x40000 < 512);
        assert(points_to_table(v.levels[k1], e1));
        lemma_find_from(v.addrs, target(e1), 0);
        assert(v.levels[k2] == 2);
        assert(walk(v, k1, x) == walk(v, k2, x));
        assert(leaf_present(v, k1, x) == leaf_present(v, k2, x));
        if depth == 3 {
            let e2 = entry(v, k2, (o / 512) % 512);
            lemma_index_bound(x, 2);
            assert(points_to_table(v.levels[k2], e2));
            lemma_find_from(v.addrs, target(e2), 0);
            assert(v.levels[k3] == 3);
            assert(walk(v, k2, x) == walk(v, k3, x));
            assert(leaf_present(v, k2, x) == leaf_present(v, k3, x));
        }
    }
}

/// A page of the window whose way ends at a present page or block entry of level 1, 2 or 3
/// (`depth`) is in use.
pub proof fn lemma_page_used(
    v: TablesView,
    sp: VirtualAddressSpace,
    l0: int,
    k1: int,
    k2: int,
    k3: int,
    q: int,
    depth: int,
)
    requires
        window(v, sp, l0, k1),
        region_base(sp, l0) <= q < region_base(sp, l0) + 0x800_0000,
        1 <= depth <= 3,
        ({
            let o = q - region_base(sp, l0);
            let e1 = entry(v, k1, o / 0x40000);
            let e2 = entry(v, k2, (o / 512) % 512);
            let e3 = entry(v, k3, o % 512);
            &&& depth == 1 ==> present(e1) && is_block(e1)
            &&& depth >= 2 ==> points_to_table(1, e1) && find_table(v, target(e1)) == Some(k2)
            &&& depth == 2 ==> present(e2) && is_block(e2)
            &&& depth == 3 ==> points_to_table(2, e2) && find_table(v, target(e2)) == Some(k3)
                && present(e3)
        }),
    ensures
        page_in_use(v, sp, q),
{
    lemma_page_index(sp, l0, q);
    let x = page_addr(q);
    assert(in_use_at(v, sp, x) == leaf_present(v, k1, x));
    let o = q - region_base(sp, l0);
    let e1 = entry(v, k1, o / 0x40000);
    if depth >= 2 {
        assert(0 <= k1 < v.addrs.len() && 0 <= o / 0x40000 < 512);
        assert(points_to_table(v.levels[k1], e1));
        lemma_find_from(v.addrs, target(e1), 0);
        assert(v.levels[k2] == 2);
        assert(leaf_present(v, k1, x) == leaf_present(v, k2, x));
        if depth == 3 {
            let e2 = entry(v, k2, (o / 512) % 512);
            lemma_index_bound(x, 2);
            assert(points_to_table(v.levels[k2], e2));
            lemma_find_from(v.addrs, target(e2), 0);
            assert(v.levels[k3] == 3);
            assert(leaf_present(v, k2, x) == leaf_present(v, k3, x));
        }
    }
}

/// A row extended by `n` free pages at `page`.
pub proof fn lemma_free_run(
    v: TablesView,
    sp: VirtualAddressSpace,
    st: Search,
    page: int,
    n: int,
    count: int,
    lo: int,
)
    requires
        run_ok(v, sp, st, page, count, lo),
        free_from(v, sp, page, page + n),
        0 <= lo <= page < 0x20_0000_0000_0000,
        1 <= n,
        0 < count <= u64::MAX,
        0 <= lo,
        st matches Search::Going(found, _) ==> found < count,
        none_missed(v, sp, st, page, count, lo),
    ensures
        run_ok(v, sp, free_run(st, page, n, count), page + n, count, lo),
        free_run(st, page, n, count) matches Search::Going(found, _) ==> found < count,
        none_missed(v, sp, free_run(st, page, n, count), page + n, count, lo),
{
    match st {
        Search::Found(p) => {
            assert(free_run(st, page, n, count) == st);
        },
        Search::Going(found, start) => {
            let s = match start {
                Some(x) => x as int,
                None => page,
            };
            assert(0 <= s <= page);
            assert(s == page - found);
            assert forall|q: int| s <= q < page + n implies #[trigger] translate(v, sp, page_addr(q)) is None
                && !page_in_use(v, sp, q) by {
                if q < page {
                    assert(start is Some);
                }
            }
            if found + n < count {
                assert forall|p: int| lo <= p && p + count <= page + n implies #[trigger] window_used(
                    v,
                    sp,
                    p,
                    count,
                ) by {
                    if p + count > page {
                        assert(p <= s - 1 < p + count);
                        assert(page_in_use(v, sp, s - 1));
                    }
                }
            }
        },
    }
}

/// A row broken by `n` pages in use at `page`.
pub proof fn lemma_used_run(
    v: TablesView,
    sp: VirtualAddressSpace,
    st: Search,
    page: int,
    n: int,
    count: int,
    lo: int,
)
    requires
        none_missed(v, sp, st, page, count, lo),
        forall|q: int| page <= q < page + n ==> #[trigger] page_in_use(v, sp, q),
        1 <= n,
        0 < count,
    ensures
        none_missed(v, sp, used_page(st), page + n, count, lo),
{
    if st is Going {
        assert(page_in_use(v, sp, page + n - 1));
        assert forall|p: int| lo <= p && p + count <= page + n implies #[trigger] window_used(v, sp, p, count) by {
            if p + count > page {
                if p <= page {
                    assert(page_in_use(v, sp, page));
                } else {
                    assert(page_in_use(v, sp, p));
                }
            }
        }
    }
}

/// The search through the entries `j` to 511 of the level 3 table `k3` (reached through the
/// entry `j1` of `k1` and `j2` of `k2`).
pub proof fn lemma_scan_l3(
    v: TablesView,
    sp: VirtualAddressSpace,
    l0: int,
    k1: int,
    k2: int,
    k3: int,
    j1: int,
    j2: int,
    j: int,
    st: Search,
    count: int,
    lo: int,
)
    requires
        window(v, sp, l0, k1),
        0 <= j1 < 512,
        0 <= j2 < 512,
        0 <= j <= 512,
        points_to_table(1, entry(v, k1, j1)) && find_table(v, target(entry(v, k1, j1))) == Some(k2),
        points_to_table(2, entry(v, k2, j2)) && find_table(v, target(entry(v, k2, j2))) == Some(k3),
        run_ok(v, sp, st, region_base(sp, l0) + j1 * 0x40000 + j2 * 512 + j, count, lo),
        none_missed(v, sp, st, region_base(sp, l0) + j1 * 0x40000 + j2 * 512 + j, count, lo),
        lo <= region_base(sp, l0) + j1 * 0x40000 + j2 * 512 + j,
        0 < count <= u64::MAX,
        0 <= lo,
        st matches Search::Going(found, _) ==> found < count,
    ensures
        ({
            let r = scan_l3(v, k3, region_base(sp, l0) + j1 * 0x40000 + j2 * 512, j, st, count);
            &&& run_ok(v, sp, r, region_base(sp, l0) + j1 * 0x40000 + j2 * 512 + 512, count, lo)
            &&& none_missed(v, sp, r, region_base(sp, l0) + j1 * 0x40000 + j2 * 512 + 512, count, lo)
            &&& r matches Search::Going(found, _) ==> found < count
        }),
    decreases 512 - j,
{
    let w = region_base(sp, l0);
    let b = w + j1 * 0x40000 + j2 * 512;
    if j >= 512 || st is Found {
    } else {
        let e = entry(v, k3, j);
        let q = b + j;
        let o = q - w;
        assert(o / 0x40000 == j1 && (o / 512) % 512 == j2 && o % 512 == j) by (nonlinear_arith)
            requires
                o == j1 * 0x40000 + j2 * 512 + j,
                0 <= j1 < 512,
                0 <= j2 < 512,
                0 <= j < 512,
        ;
        let st2 = if present(e) {
            lemma_page_used(v, sp, l0, k1, k2, k3, q, 3);
            assert forall|qq: int| q <= qq < q + 1 implies #[trigger] page_in_use(v, sp, qq) by {
                assert(qq == q);
            }
            lemma_used_run(v, sp, st, q, 1, count, lo);
            used_page(st)
        } else {
            lemma_page_free(v, sp, l0, k1, k2, k3, q, 3);
            assert forall|qq: int| q <= qq < q + 1 implies #[trigger] translate(v, sp, page_addr(qq)) is None by {
                assert(qq == q);
            }
            lemma_free_run(v, sp, st, q, 1, count, lo);
            free_run(st, q, 1, count)
        };
        lemma_scan_l3(v, sp, l0, k1, k2, k3, j1, j2, j + 1, st2, count, lo);
    }
}

/// The search through the entries `j` to 511 of the level 2 table `k2` (reached through the
/// entry `j1` of `k1`).
pub proof fn lemma_scan_l2(
    v: TablesView,
    sp: VirtualAddressSpace,
    l0: int,
    k1: int,
    k2: int,
    j1: int,
    j: int,
    st: Search,
    count: int,
    lo: int,
)
    requires
        window(v, sp, l0, k1),
        0 <= j1 < 512,
        0 <= j <= 512,
        points_to_table(1, entry(v, k1, j1)) && find_table(v, target(entry(v, k1, j1))) == Some(k2),
        run_ok(v, sp, st, region_base(sp, l0) + j1 * 0x40000 + j * 512, count, lo),
        none_missed(v, sp, st, region_base(sp, l0) + j1 * 0x40000 + j * 512, count, lo),
        lo <= region_base(sp, l0) + j1 * 0x40000 + j * 512,
        0 < count <= u64::MAX,
        0 <= lo,
        st matches Search::Going(found, _) ==> found < count,
    ensures
        ({
            let r = scan_l2(v, k2, region_base(sp, l0) + j1 * 0x40000, j, st, count);
            &&& run_ok(v, sp, r, region_base(sp, l0) + j1 * 0x40000 + 512 * 512, count, lo)
            &&& none_missed(v, sp, r, region_base(sp, l0) + j1 * 0x40000 + 512 * 512, count, lo)
            &&& r matches Search::Going(found, _) ==> found < count
        }),
    decreases 512 - j,
{
    let w = region_base(sp, l0);
    let b = w + j1 * 0x40000;
    if j >= 512 || st is Found {
    } else {
        let e = entry(v, k2, j);
        let page = b + j * 512;
        lemma_find_from(v.addrs, target(entry(v, k1, j1)), 0);
        assert(points_to_table(v.levels[k1], entry(v, k1, j1)));
        assert(v.levels[k2] == 2);
        let st2 = if !present(e) {
            assert forall|qq: int| page <= qq < page + 512 implies #[trigger] translate(v, sp, page_addr(qq))
                is None && !page_in_use(v, sp, qq) by {
                let o = qq - w;
                assert(o / 0x40000 == j1 && (o / 512) % 512 == j) by (nonlinear_arith)
                    requires
                        o == j1 * 0x40000 + j * 512 + (qq - page),
                        0 <= qq - page < 512,
                        0 <= j1 < 512,
                        0 <= j < 512,
                ;
                lemma_page_free(v, sp, l0, k1, k2, k2, qq, 2);
            }
            lemma_free_run(v, sp, st, page, 512, count, lo);
            free_run(st, page, 512, count)
        } else if is_block(e) {
            assert forall|qq: int| page <= qq < page + 512 implies #[trigger] page_in_use(v, sp, qq) by {
                let o = qq - w;
                assert(o / 0x40000 == j1 && (o / 512) % 512 == j) by (nonlinear_arith)
                    requires
                        o == j1 * 0x40000 + j * 512 + (qq - page),
                        0 <= qq - page < 512,
                        0 <= j1 < 512,
                        0 <= j < 512,
                ;
                lemma_page_used(v, sp, l0, k1, k2, k2, qq, 2);
            }
            lemma_used_run(v, sp, st, page, 512, count, lo);
            used_page(st)
        } else {
            assert(points_to_table(2, e));
            assert(points_to_table(v.levels[k2], e));
            let k3 = find_table(v, target(e)).unwrap();
            lemma_scan_l3(v, sp, l0, k1, k2, k3, j1, j, 0, st, count, lo);
            scan_l3(v, k3, page, 0, st, count)
        };
        lemma_scan_l2(v, sp, l0, k1, k2, j1, j + 1, st2, count, lo);
    }
}

/// The search through the entries `j` to `last` of the level 1 table `k1` of the window.
pub proof fn lemma_scan_l1(
    v: TablesView,
    sp: VirtualAddressSpace,
    l0: int,
    k1: int,
    j: int,
    last: int,
    st: Search,
    count: int,
    lo: int,
)
    requires
        window(v, sp, l0, k1),
        0 <= j <= last + 1,
        last < 512,
        run_ok(v, sp, st, region_base(sp, l0) + j * 0x40000, count, lo),
        none_missed(v, sp, st, region_base(sp, l0) + j * 0x40000, count, lo),
        lo <= region_base(sp, l0) + j * 0x40000,
        0 < count <= u64::MAX,
        0 <= lo,
        st matches Search::Going(found, _) ==> found < count,
    ensures
        run_ok(
            v,
            sp,
            scan_l1(v, k1, region_base(sp, l0), j, last, st, count),
            region_base(sp, l0) + (last + 1) * 0x40000,
            count,
            lo,
        ),
        none_missed(
            v,
            sp,
            scan_l1(v, k1, region_base(sp, l0), j, last, st, count),
            region_base(sp, l0) + (last + 1) * 0x40000,
            count,
            lo,
        ),
    decreases last + 1 - j,
{
    let w = region_base(sp, l0);
    if j > last || j >= 512 || st is Found {
        if let Search::Found(p) = st {
            assert(p + count <= w + (last + 1) * 0x40000);
        }
    } else {
        let e = entry(v, k1, j);
        let page = w + j * 0x40000;
        let st2 = if !present(e) {
            assert forall|qq: int| page <= qq < page + 0x40000 implies #[trigger] translate(
                v,
                sp,
                page_addr(qq),
            ) is None && !page_in_use(v, sp, qq) by {
                let o = qq - w;
                assert(o / 0x40000 == j) by (nonlinear_arith)
                    requires
                        o == j * 0x40000 + (qq - page),
                        0 <= qq - page < 0x40000,
                        0 <= j,
                ;
                lemma_page_free(v, sp, l0, k1, k1, k1, qq, 1);
            }
            lemma_free_run(v, sp, st, page, 0x40000, count, lo);
            free_run(st, page, 262144, count)
        } else if is_block(e) {
            assert forall|qq: int| page <= qq < page + 0x40000 implies #[trigger] page_in_use(v, sp, qq) by {
                let o = qq - w;
                assert(o / 0x40000 == j) by (nonlinear_arith)
                    requires
                        o == j * 0x40000 + (qq - page),
                        0 <= qq - page < 0x40000,
                        0 <= j,
                ;
                lemma_page_used(v, sp, l0, k1, k1, k1, qq, 1);
            }
            lemma_used_run(v, sp, st, page, 0x40000, count, lo);
            used_page(st)
        } else {
            assert(points_to_table(1, e));
            assert(points_to_table(v.levels[k1], e));
            let k2 = find_table(v, target(e)).unwrap();
            lemma_scan_l2(v, sp, l0, k1, k2, j, 0, st, count, lo);
            scan_l2(v, k2, page, 0, st, count)
        };
        lemma_scan_l1(v, sp, l0, k1, j + 1, last, st2, count, lo);
    }
}

} // verus!
