use vstd::prelude::*;

use super::address::{Address, MemoryKind};
use super::constants::PAGE_SIZE;

verus! {

/// Going from `p0` to `p1` took at most `n` pages: room for `m` pages before, more than `n`,
/// leaves room for `m - n` pages after.
pub open spec fn took_at_most<K: MemoryKind, P: PageAllocator<K>>(p0: P, p1: P, n: nat) -> bool {
    forall|m: usize| m > n && #[trigger] p0.has_room(m) ==> p1.has_room((m - n) as usize)
}

/// Nothing is taken between equal states.
pub proof fn lemma_took_none<K: MemoryKind, P: PageAllocator<K>>(p: P)
    ensures
        took_at_most(p, p, 0),
{
}

/// Takings add up.
pub proof fn lemma_took_trans<K: MemoryKind, P: PageAllocator<K>>(p0: P, p1: P, p2: P, a: nat, b: nat)
    requires
        took_at_most(p0, p1, a),
        took_at_most(p1, p2, b),
    ensures
        took_at_most(p0, p2, a + b),
{
    assert forall|m: usize| m > a + b && #[trigger] p0.has_room(m) implies p2.has_room((m - (a + b)) as usize) by {
        assert(p1.has_room((m - a) as usize));
        assert(((m - a) as usize - b) as usize == (m - (a + b)) as usize);
    }
}

/// Taking at most `a` pages is taking at most `b >= a`.
pub proof fn lemma_took_more<K: MemoryKind, P: PageAllocator<K>>(p0: P, p1: P, a: nat, b: nat)
    requires
        took_at_most(p0, p1, a),
        a <= b,
    ensures
        took_at_most(p0, p1, b),
{
    assert forall|m: usize| m > b && #[trigger] p0.has_room(m) implies p1.has_room((m - b) as usize) by {
        assert(p1.has_room((m - a) as usize));
        p1.lemma_room_less((m - a) as usize, (m - b) as usize);
    }
}

/// Room for `m` pages before taking at most `n < m` leaves room for a page.
pub proof fn lemma_room_left<K: MemoryKind, P: PageAllocator<K>>(p0: P, p1: P, n: nat, m: usize)
    requires
        took_at_most(p0, p1, n),
        p0.has_room(m),
        m > n,
    ensures
        p1.has_room(1),
{
    assert(p1.has_room((m - n) as usize));
    p1.lemma_room_less((m - n) as usize, 1);
}

/// Room for `m` pages before taking at most `t` leaves room for `b` pages, where `m` is at
/// least `t + b`.
pub proof fn lemma_room_after<K: MemoryKind, P: PageAllocator<K>>(p0: P, p1: P, t: nat, m: usize, b: usize)
    requires
        took_at_most(p0, p1, t),
        p0.has_room(m),
        m >= t + b,
        b > 0,
    ensures
        p1.has_room(b),
{
    assert(p1.has_room((m - t) as usize));
    p1.lemma_room_less((m - t) as usize, b);
}

/// An allocator of pages of memory of kind `K`.
pub trait PageAllocator<K: MemoryKind>: Sized {
    /// The allocator is in a consistent state.
    spec fn inv(&self) -> bool;

    /// The page at `addr` is handed out.
    spec fn allocated(&self, addr: u64) -> bool;

    /// `count` contiguous pages can be allocated.
    spec fn has_room(&self, count: usize) -> bool;

    /// `count` pages at `ptr` may be handed back to the allocator.
    spec fn can_dealloc(&self, ptr: Address<K>, count: usize) -> bool;

    /// Allocate `count` contiguous pages; `None` when there is no room. The pages start on a
    /// page boundary and end within the 48 bits of a physical address; the first one was not handed out, and
    /// no page handed out is taken back.
    fn allocate(&mut self, count: usize) -> (r: Option<Address<K>>)
        requires
            old(self).inv(),
            count > 0,
        ensures
            final(self).inv(),
            r is Some <==> old(self).has_room(count),
            r matches Some(a) ==> a@ % PAGE_SIZE as u64 == 0 && a@ + count * PAGE_SIZE <= 0x1_0000_0000_0000,
            r matches Some(a) ==> !old(self).allocated(a@) && final(self).allocated(a@),
            forall|x: u64| old(self).allocated(x) ==> final(self).allocated(x),
            forall|m: usize|
                m > count && #[trigger] old(self).has_room(m) ==> final(self).has_room((m - count) as usize),
    ;

    /// Room for `n` contiguous pages is room for fewer.
    proof fn lemma_room_less(&self, n: usize, m: usize)
        requires
            0 < m <= n,
            self.has_room(n),
        ensures
            self.has_room(m),
    ;

    /// Whether `count` pages at `ptr` may be handed back.
    fn can_deallocate(&self, ptr: &Address<K>, count: usize) -> (r: bool)
        requires
            self.inv(),
        ensures
            r == self.can_dealloc(*ptr, count),
    ;

    /// Give back `count` pages at `ptr`: they are no longer handed out, the pages outside them
    /// that were handed out stay so, and what may be handed back is as it was.
    fn deallocate(&mut self, ptr: Address<K>, count: usize)
        requires
            old(self).inv(),
            old(self).can_dealloc(ptr, count),
        ensures
            final(self).inv(),
            forall|y: u64|
                #[trigger] old(self).allocated(y) && (y < ptr@ || y >= ptr@ + count * PAGE_SIZE)
                    ==> final(self).allocated(y),
            forall|y: u64| ptr@ <= y < ptr@ + count * PAGE_SIZE ==> !#[trigger] final(self).allocated(y),
            forall|y: u64| #[trigger] final(self).allocated(y) ==> old(self).allocated(y),
            forall|q: Address<K>, n: usize| #[trigger] final(self).can_dealloc(q, n) == old(self).can_dealloc(q, n),
    ;
}

} // verus!
