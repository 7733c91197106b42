use vstd::prelude::*;

use crate::utils::{bytes_eq, find_nul, le_u64, lemma_nul_from, nul_from, read_le_u64};

verus! {

/// The kernel symbols: names and addresses, each name once.
pub struct SymbolTable {
    entries: Vec<(Vec<u8>, u64)>,
}

/// The symbols listed in the file `d` from `off`: an 8 bytes little endian address, then a
/// NUL terminated name, while more than 10 bytes are left.
pub open spec fn symbol_entries(d: Seq<u8>, off: int) -> Seq<(Seq<u8>, u64)>
    decreases d.len() - off,
{
    if off < 0 || off + 10 >= d.len() {
        Seq::empty()
    } else {
        let end = nul_from(d, off + 8);
        if end >= d.len() {
            Seq::empty()
        } else {
            proof {
                lemma_nul_from(d, off + 8);
            }
            seq![(d.subrange(off + 8, end), le_u64(d, off))] + symbol_entries(d, end + 1)
        }
    }
}

/// Every entry of the file `d` from `off` has its NUL.
pub open spec fn symbols_ok(d: Seq<u8>, off: int) -> bool
    decreases d.len() - off,
{
    if off < 0 || off + 10 >= d.len() {
        true
    } else {
        let end = nul_from(d, off + 8);
        if end < d.len() {
            proof {
                lemma_nul_from(d, off + 8);
            }
            symbols_ok(d, end + 1)
        } else {
            false
        }
    }
}

/// The map of names to addresses built from `entries` in order, a later entry replacing an
/// earlier one of the same name.
pub open spec fn symbols_map(entries: Seq<(Seq<u8>, u64)>) -> Map<Seq<u8>, u64>
    decreases entries.len(),
{
    if entries.len() == 0 {
        Map::empty()
    } else {
        symbols_map(entries.drop_last()).insert(entries.last().0, entries.last().1)
    }
}

impl SymbolTable {
    pub closed spec fn view(&self) -> Map<Seq<u8>, u64> {
        Map::new(
            |name: Seq<u8>| exists|i: int| 0 <= i < self.entries@.len() && #[trigger] self.entries@[i].0@ == name,
            |name: Seq<u8>|
                self.entries@[choose|i: int| 0 <= i < self.entries@.len() && #[trigger] self.entries@[i].0@ == name].1,
        )
    }

    pub closed spec fn wf(&self) -> bool {
        forall|i: int, j: int|
            0 <= i < j < self.entries@.len() ==> (#[trigger] self.entries@[i]).0@ != (#[trigger] self.entries@[j]).0@
    }

    pub fn new() -> (r: Self)
        ensures
            r.wf(),
            r@ == Map::<Seq<u8>, u64>::empty(),
    {
        let r = SymbolTable { entries: Vec::new() };
        proof {
            assert(r@ =~= Map::<Seq<u8>, u64>::empty());
        }
        r
    }

    /// The index of the entry named `name`, if any.
    fn find(&self, name: &[u8]) -> (r: Option<usize>)
        requires
            self.wf(),
        ensures
            r is Some <==> self@.contains_key(name@),
            r matches Some(i) ==> i < self.entries@.len() && self.entries@[i as int].0@ == name@,
    {
        let mut i: usize = 0;
        while i < self.entries.len()
            invariant
                i <= self.entries@.len(),
                forall|k: int| 0 <= k < i ==> (#[trigger] self.entries@[k]).0@ != name@,
            decreases self.entries@.len() - i,
        {
            if bytes_eq(self.entries[i].0.as_slice(), name) {
                return Some(i);
            }
            i += 1;
        }
        None
    }

    /// Record that `name` is at `addr`, replacing what was known of `name`.
    pub fn insert(&mut self, name: Vec<u8>, addr: u64)
        requires
            old(self).wf(),
        ensures
            final(self).wf(),
            final(self)@ == old(self)@.insert(name@, addr),
    {
        let ghost n = name@;
        let idx = match self.find(name.as_slice()) {
            Some(i) => {
                self.entries.set(i, (name, addr));
                i
            },
            None => {
                self.entries.push((name, addr));
                self.entries.len() - 1
            },
        };
        proof {
            assert(self.entries@[idx as int].0@ == n);
            assert forall|i: int, j: int|
                0 <= i < j < self.entries@.len() implies (#[trigger] self.entries@[i]).0@ != (#[trigger] self.entries@[j]).0@ by {
                if self.entries@[i].0@ == n {
                    assert(old(self).entries@.len() <= j || old(self).entries@[j].0@ != n || self.entries@[j].0@ != n);
                }
            }
            assert forall|key: Seq<u8>| #[trigger] self@.contains_key(key) <==> old(self)@.insert(n, addr).contains_key(key) by {
                if key != n && old(self)@.contains_key(key) {
                    let k = choose|k: int| 0 <= k < old(self).entries@.len() && #[trigger] old(self).entries@[k].0@ == key;
                    assert(self.entries@[k].0@ == key);
                }
                if key != n && self@.contains_key(key) {
                    let k = choose|k: int| 0 <= k < self.entries@.len() && #[trigger] self.entries@[k].0@ == key;
                    assert(old(self).entries@[k].0@ == key);
                }
                if key == n {
                    assert(self.entries@[idx as int].0@ == key);
                }
            }
            assert forall|key: Seq<u8>| #[trigger] self@.contains_key(key) implies self@[key] == old(self)@.insert(n, addr)[key] by {
                let k = choose|k: int| 0 <= k < self.entries@.len() && #[trigger] self.entries@[k].0@ == key;
                if key != n {
                    let k0 = choose|k0: int| 0 <= k0 < old(self).entries@.len() && #[trigger] old(self).entries@[k0].0@ == key;
                    assert(self.entries@[k0].0@ == key);
                    assert(k0 == k);
                }
            }
            assert(self@ =~= old(self)@.insert(n, addr));
        }
    }

    /// The address of the symbol `name`, if it is known.
    pub fn get(&self, name: &[u8]) -> (r: Option<u64>)
        requires
            self.wf(),
        ensures
            r == if self@.contains_key(name@) {
                Some(self@[name@])
            } else {
                None
            },
    {
        match self.find(name) {
            Some(i) => {
                proof {
                    let k = choose|k: int| 0 <= k < self.entries@.len() && #[trigger] self.entries@[k].0@ == name@;
                    assert(k == i);
                }
                Some(self.entries[i].1)
            },
            None => None,
        }
    }
}

/// The symbols of the file `d` (see `symbol_entries`).
pub fn init(d: &[u8]) -> (r: SymbolTable)
    requires
        symbols_ok(d@, 0),
    ensures
        r.wf(),
        r@ == symbols_map(symbol_entries(d@, 0)),
{
    let mut table = SymbolTable::new();
    let mut off: usize = 0;
    proof {
        assert(symbol_entries(d@, 0).take(0) =~= Seq::<(Seq<u8>, u64)>::empty());
    }
    let ghost mut done: Seq<(Seq<u8>, u64)> = Seq::empty();
    while d.len() > 10 && off < d.len() - 10
        invariant
            table.wf(),
            off <= d@.len(),
            symbols_ok(d@, off as int),
            done + symbol_entries(d@, off as int) == symbol_entries(d@, 0),
            table@ == symbols_map(done),
        decreases d@.len() - off,
    {
        let end = find_nul(d, off + 8);
        proof {
            lemma_nul_from(d@, off + 8);
        }
        let mut name: Vec<u8> = Vec::new();
        let mut k = off + 8;
        while k < end
            invariant
                off + 8 <= k <= end < d@.len(),
                name@ == d@.subrange(off + 8, k as int),
            decreases end - k,
        {
            name.push(d[k]);
            proof {
                assert(name@ =~= d@.subrange(off + 8, k + 1));
            }
            k += 1;
        }
        let addr = read_le_u64(d, off);
        let ghost entry = (name@, addr);
        table.insert(name, addr);
        proof {
            assert(symbol_entries(d@, off as int) == seq![entry] + symbol_entries(d@, end + 1));
            assert(done.push(entry) + symbol_entries(d@, end + 1) =~= symbol_entries(d@, 0));
            assert(done.push(entry).drop_last() =~= done);
            done = done.push(entry);
        }
        off = end + 1;
    }
    proof {
        assert(done =~= symbol_entries(d@, 0));
    }
    table
}

} // verus!
