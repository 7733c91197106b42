use vstd::prelude::*;

use super::mmu::{lemma_descriptor_roundtrip, table_descriptor_bits, TableEntry, ADDRESS_MASK};
use super::tables::{
    add_table, entry, find_table, grows, lemma_add_table_wf, lemma_find_from, lemma_grows_find,
    lemma_index_bound, path_to, points_to_table, present, same_entries_except, set_entry, tables_wf, target, top_level,
    va_index, walk, TablesView, VirtualAddressSpace, ENTRIES,
};

verus! {

/// The walk of `va` from the table `k` comes to the table `kt`.
pub open spec fn reach(v: TablesView, k: int, va: u64, kt: int) -> bool
    decreases 4 - v.levels[k],
{
    if k < 0 || k >= v.addrs.len() || v.levels[k] > 3 {
        false
    } else if k == kt {
        true
    } else {
        let l = v.levels[k];
        let e = entry(v, k, va_index(va, l));
        if points_to_table(l, e) {
            match find_table(v, target(e)) {
                Some(k2) => if v.levels[k2] == l + 1 {
                    reach(v, k2, va, kt)
                } else {
                    false
                },
                None => false,
            }
        } else {
            false
        }
    }
}

/// `a` and `b` go through the same entries of the tables of `sp`, from the first table down to
/// the table of level `lv`.
pub open spec fn same_slot(sp: VirtualAddressSpace, a: u64, b: u64, lv: int) -> bool {
    &&& !sp.is_low && lv >= 0 ==> va_index(a, 0) == va_index(b, 0)
    &&& lv >= 1 ==> va_index(a, 1) == va_index(b, 1)
    &&& lv >= 2 ==> va_index(a, 2) == va_index(b, 2)
    &&& lv >= 3 ==> va_index(a, 3) == va_index(b, 3)
}

/// An empty entry is not present.
pub proof fn lemma_zero_not_present()
    by (bit_vector)
    ensures
        !present(0u64),
{
}

/// A change that keeps the tables and all their entries but one leaves the walks that do not
/// read that entry as they were.
pub proof fn lemma_walk_frame(v: TablesView, w: TablesView, k: int, va: u64, kt: int, it: int)
    requires
        tables_wf(v),
        grows(v, w),
        same_entries_except(v, w, kt, it),
        0 <= k < v.addrs.len(),
        !(reach(v, k, va, kt) && va_index(va, v.levels[kt]) == it),
    ensures
        walk(w, k, va) == walk(v, k, va),
    decreases 4 - v.levels[k],
{
    let l = v.levels[k];
    assert(w.levels[k] == l);
    let i = va_index(va, l);
    lemma_index_bound(va, l);
    if k == kt {
        assert(i != it);
    }
    assert(entry(w, k, i) == entry(v, k, i));
    let e = entry(v, k, i);
    if points_to_table(l, e) {
        let k2 = find_table(v, target(e)).unwrap();
        lemma_find_from(v.addrs, target(e), 0);
        lemma_grows_find(v, w, target(e), 0);
        assert(w.levels[k2] == v.levels[k2]);
        lemma_walk_frame(v, w, k2, va, kt, it);
    }
}

/// Along a walk that comes to the table `kt`, the walk goes on as it does from `kt`, before
/// and after a change of an entry of `kt`.
pub proof fn lemma_walk_reach(v: TablesView, w: TablesView, k: int, va: u64, kt: int, it: int)
    requires
        tables_wf(v),
        grows(v, w),
        same_entries_except(v, w, kt, it),
        reach(v, k, va, kt),
    ensures
        walk(v, k, va) == walk(v, kt, va),
        walk(w, k, va) == walk(w, kt, va),
    decreases 4 - v.levels[k],
{
    if k != kt {
        let l = v.levels[k];
        let i = va_index(va, l);
        lemma_index_bound(va, l);
        assert(w.levels[k] == l);
        assert(entry(w, k, i) == entry(v, k, i));
        let e = entry(v, k, i);
        let k2 = find_table(v, target(e)).unwrap();
        lemma_find_from(v.addrs, target(e), 0);
        lemma_grows_find(v, w, target(e), 0);
        assert(w.levels[k2] == v.levels[k2]);
        lemma_walk_reach(v, w, k2, va, kt, it);
    }
}

/// A walk that comes to `kt` from elsewhere comes to it through an entry of a table it reaches.
pub proof fn lemma_reach_parent(v: TablesView, k: int, va: u64, kt: int) -> (kp: int)
    requires
        tables_wf(v),
        reach(v, k, va, kt),
        k != kt,
    ensures
        reach(v, k, va, kp),
        0 <= kp < v.addrs.len(),
        points_to_table(v.levels[kp], entry(v, kp, va_index(va, v.levels[kp]))),
        find_table(v, target(entry(v, kp, va_index(va, v.levels[kp])))) == Some(kt),
        v.levels[kt] == v.levels[kp] + 1,
    decreases 4 - v.levels[k],
{
    let l = v.levels[k];
    let e = entry(v, k, va_index(va, l));
    let k2 = find_table(v, target(e)).unwrap();
    if k2 == kt {
        k
    } else {
        lemma_reach_parent(v, k2, va, kt)
    }
}

/// A walk from the first table of `sp` that comes to the table of level `lv` on the path of
/// `b` went through the same entries as `b` above it.
pub proof fn lemma_reach_path(v: TablesView, sp: VirtualAddressSpace, a: u64, b: u64, ks: Seq<int>, lv: int)
    requires
        tables_wf(v),
        path_to(v, sp, b, ks, lv),
        reach(v, ks[top_level(sp)], a, ks[lv]),
    ensures
        same_slot(sp, a, b, lv - 1),
    decreases lv,
{
    let top = top_level(sp);
    if lv > top {
        let kt = ks[lv];
        let k0 = ks[top];
        assert(v.levels[k0] == top && v.levels[kt] == lv);
        let kp = lemma_reach_parent(v, k0, a, kt);
        let kq = ks[lv - 1];
        assert(0 <= kq < v.addrs.len() && v.levels[kq] == lv - 1);
        let ia = va_index(a, (lv - 1) as u8);
        let ib = va_index(b, (lv - 1) as u8);
        lemma_index_bound(a, (lv - 1) as u8);
        lemma_index_bound(b, (lv - 1) as u8);
        let ea = entry(v, kp, ia);
        let eb = entry(v, kq, ib);
        assert(points_to_table((lv - 1) as u8, eb) && find_table(v, target(eb)) == Some(kt));
        lemma_find_from(v.addrs, target(ea), 0);
        lemma_find_from(v.addrs, target(eb), 0);
        assert(target(ea) == target(eb));
        if kp != kq || ia != ib {
            assert(target(entry(v, kp, ia)) != target(entry(v, kq, ib)));
        }
        assert(path_to(v, sp, b, ks, lv - 1));
        lemma_reach_path(v, sp, a, b, ks, lv - 1);
    }
}

/// Pointing an entry that was not present at a new, empty table of the next level changes no
/// walk.
pub proof fn lemma_new_table_walk(v: TablesView, k: int, i: int, a: u64, k0: int, va: u64)
    requires
        tables_wf(v),
        0 <= k < v.addrs.len(),
        0 <= i < ENTRIES,
        v.levels[k] < 3,
        !present(entry(v, k, i)),
        find_table(v, a) is None,
        a & ADDRESS_MASK == a,
        0 <= k0 < v.addrs.len(),
    ensures
        walk(
            set_entry(add_table(v, a, (v.levels[k] + 1) as u8), k, i, table_descriptor_bits(a)),
            k0,
            va,
        ) == walk(v, k0, va),
{
    let l = v.levels[k];
    let n = v.addrs.len() as int;
    let u = add_table(v, a, (l + 1) as u8);
    let w = set_entry(u, k, i, table_descriptor_bits(a));
    lemma_add_table_wf(v, a, (l + 1) as u8);
    lemma_set_entry_wf_plain(u, k, i, table_descriptor_bits(a));
    assert(grows(v, w));
    assert forall|k2: int, i2: int|
        0 <= k2 < v.addrs.len() && 0 <= i2 < ENTRIES && (k2 != k || i2 != i) implies #[trigger] entry(
        w,
        k2,
        i2,
    ) == entry(v, k2, i2) by {
        assert(entry(u, k2, i2) == entry(v, k2, i2));
    }
    if reach(v, k0, va, k) && va_index(va, l) == i {
        lemma_walk_reach(v, w, k0, va, k, i);
        let d = table_descriptor_bits(a);
        lemma_descriptor_roundtrip(a, 0, 0, true);
        assert(TableEntry { bits: d }.spec_present());
        assert(entry(w, k, i) == d);
        assert(points_to_table(l, d));
        assert(target(d) == a);
        assert(find_table(w, a) == find_table(u, a));
        assert(find_table(w, a) == Some(n));
        let j = va_index(va, (l + 1) as u8);
        lemma_index_bound(va, (l + 1) as u8);
        assert(entry(w, n, j) == entry(u, n, j));
        assert(entry(u, n, j) == 0);
        lemma_zero_not_present();
        assert(walk(w, n, va) is None);
    } else {
        lemma_walk_frame(v, w, k0, va, k, i);
    }
}

/// Setting an entry of `u` changes that entry only.
proof fn lemma_set_entry_wf_plain(u: TablesView, k: int, i: int, e: u64)
    requires
        0 <= k < u.addrs.len(),
        0 <= i < ENTRIES,
        u.entries.len() == ENTRIES * u.addrs.len(),
    ensures
        forall|k2: int, i2: int|
            0 <= k2 < u.addrs.len() && 0 <= i2 < ENTRIES && (k2 != k || i2 != i) ==> #[trigger] entry(
                set_entry(u, k, i, e),
                k2,
                i2,
            ) == entry(u, k2, i2),
        entry(set_entry(u, k, i, e), k, i) == e,
{
    assert forall|k2: int, i2: int|
        0 <= k2 < u.addrs.len() && 0 <= i2 < ENTRIES && (k2 != k || i2 != i) implies #[trigger] entry(
        set_entry(u, k, i, e),
        k2,
        i2,
    ) == entry(u, k2, i2) by {
        assert(ENTRIES * k2 + i2 != ENTRIES * k + i);
    }
}

} // verus!
