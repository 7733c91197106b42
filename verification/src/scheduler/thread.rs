use vstd::prelude::*;

use crate::cpu::InterruptFrame;
use crate::memory::vmm::{map_flags_bits, MapFlags, MapOptions, MapSize};
use crate::memory::{PhysicalAddress, VirtualAddress, PAGE_SIZE};
use crate::memory::address::Physical;
use crate::memory::constants::{INVALID_VIRT_ADDRESS_END, KERNEL_HEAP_END, KERNEL_HEAP_START, USER_SPACE_END, USER_SPACE_START};
use crate::memory::page_allocator::{lemma_room_after, lemma_took_more, lemma_took_trans, took_at_most, PageAllocator};
use crate::memory::tables::{
    allocations_kept, find_free_spec, grows, lemma_grows_space, lemma_kept_trans, lemma_mapped_not_top_blocked, maps_slot,
    space_wf, TablesView, VirtualAddressSpace,
};
use crate::memory::vmm::{page_backed, usage_bounds, MemoryUsage, VirtualMemoryManager};
use crate::memory::tables::{target, translate};
use crate::error::{Error, MemoryError};
use crate::scheduler::{Scheduler, SchedulerView};

verus! {

pub type ThreadId = usize;

#[derive(PartialEq, Eq, Structural, Clone, Copy, Debug)]
pub enum ThreadState {
    Runnable,
    Running,
    Exited,
    /// Store the time in ns from uptime where we will wake up the thread.
    Waiting(u64),
    Blocked,
}

/// A thread: its process, its id, and its stacks. Its state is kept by the scheduler.
pub struct Thread {
    process: usize,
    id: ThreadId,
    user_stack_base: VirtualAddress,
    kernel_stack_base: VirtualAddress,
    kernel_stack: VirtualAddress,
    is_idle_thread: bool,
}

/// The processor state a new thread starts in: interrupts enabled, EL1t.
pub const INITIAL_PSTATE: u64 = 4;

/// The physical address the guard page below a user stack is mapped to.
pub const GUARD_PAGE_TARGET: u64 = 0xFFFF_FFFF_FFFF_F000;

/// The stacks of a new thread: once its user stack was allocated (the tables were `user`),
/// each of the `user_pages` pages above `user_alloc` of `proc_space` was mapped to a physical
/// page that `p0` had not handed out; once the guard page was mapped (the tables were
/// `guard`), the page at `user_alloc` was mapped as `Thread::guard_page_mapping` says; at the
/// end (the tables are `fin`) each of the `kernel_pages` pages at `kernel_base` of
/// `kernel_space` is mapped to a physical page that `p0` had not handed out. `p1` hands out
/// all of these pages.
pub open spec fn stacks_made<P: PageAllocator<Physical>>(
    p0: P,
    p1: P,
    user: TablesView,
    guard: TablesView,
    fin: TablesView,
    proc_space: VirtualAddressSpace,
    kernel_space: VirtualAddressSpace,
    user_alloc: u64,
    kernel_base: u64,
    user_pages: int,
    kernel_pages: int,
) -> bool {
    &&& maps_slot(guard, proc_space, user_alloc, GUARD_PAGE_TARGET, 3)
    &&& forall|x: u64|
        user_alloc + PAGE_SIZE <= x < user_alloc + (user_pages + 1) * PAGE_SIZE && x % 0x1000 == 0
            ==> #[trigger] page_backed(p0, p1, user, proc_space, x)
    &&& forall|x: u64|
        kernel_base <= x < kernel_base + kernel_pages * PAGE_SIZE && x % 0x1000 == 0
            ==> #[trigger] page_backed(p0, p1, fin, kernel_space, x)
}

/// Where the user stack of a thread of the address space `sp` lives: in the user data of a
/// low space, else in the kernel heap.
pub open spec fn stack_usage(sp: VirtualAddressSpace) -> MemoryUsage {
    if sp.is_low {
        MemoryUsage::UserData
    } else {
        MemoryUsage::KernelHeap
    }
}

impl Thread {
    pub closed spec fn process_spec(&self) -> usize {
        self.process
    }

    pub closed spec fn id_spec(&self) -> ThreadId {
        self.id
    }

    pub closed spec fn is_idle_spec(&self) -> bool {
        self.is_idle_thread
    }

    pub closed spec fn user_stack_base_spec(&self) -> u64 {
        self.user_stack_base@
    }

    pub closed spec fn kernel_stack_base_spec(&self) -> u64 {
        self.kernel_stack_base@
    }

    /// The address of the frame the thread is resumed from.
    pub closed spec fn kernel_stack_spec(&self) -> u64 {
        self.kernel_stack@
    }

    /// Create the thread `id` of `process`, starting at `entry`.
    ///
    /// Its user stack is the `user_stack_pages` pages above the guard page at `user_alloc`
    /// (`user_stack_pages + 1` pages were allocated there); its kernel stack is the
    /// `kernel_stack_pages` pages at `kernel_stack_base`, and the frame it is resumed from lies
    /// at the top of it: in that frame, `frame`, the stack pointer, the entry and the
    /// processor state are set, the other registers are left as they are.
    pub fn new(
        process: usize,
        id: ThreadId,
        entry: u64,
        is_idle_thread: bool,
        user_alloc: VirtualAddress,
        user_stack_pages: u64,
        kernel_stack_base: VirtualAddress,
        kernel_stack_pages: u64,
        frame: &mut InterruptFrame,
    ) -> (r: Thread)
        requires
            user_alloc@ + (user_stack_pages + 1) * PAGE_SIZE <= u64::MAX,
            kernel_stack_base@ + kernel_stack_pages * PAGE_SIZE <= u64::MAX,
            kernel_stack_pages * PAGE_SIZE >= InterruptFrame::SIZE,
            VirtualAddress::valid((user_alloc@ + PAGE_SIZE) as u64),
            VirtualAddress::valid(
                (kernel_stack_base@ + kernel_stack_pages * PAGE_SIZE - InterruptFrame::SIZE) as u64,
            ),
        ensures
            r.process_spec() == process,
            r.id_spec() == id,
            r.is_idle_spec() == is_idle_thread,
            r.user_stack_base_spec() == user_alloc@ + PAGE_SIZE,
            r.kernel_stack_base_spec() == kernel_stack_base@,
            r.kernel_stack_spec() == kernel_stack_base@ + kernel_stack_pages * PAGE_SIZE
                - InterruptFrame::SIZE,
            final(frame).sp == user_alloc@ + PAGE_SIZE + user_stack_pages * PAGE_SIZE,
            final(frame).pc == entry,
            final(frame).pstate == INITIAL_PSTATE,
            ({
                let (o, f) = (*old(frame), *final(frame));
                &&& f.x0 == o.x0 && f.x1 == o.x1 && f.x2 == o.x2 && f.x3 == o.x3
                &&& f.x4 == o.x4 && f.x5 == o.x5 && f.x6 == o.x6 && f.x7 == o.x7
                &&& f.x8 == o.x8 && f.x9 == o.x9 && f.x10 == o.x10 && f.x11 == o.x11
                &&& f.x12 == o.x12 && f.x13 == o.x13 && f.x14 == o.x14 && f.x15 == o.x15
                &&& f.x16 == o.x16 && f.x17 == o.x17 && f.x18 == o.x18 && f.x19 == o.x19
                &&& f.x20 == o.x20 && f.x21 == o.x21 && f.x22 == o.x22 && f.x23 == o.x23
                &&& f.x24 == o.x24 && f.x25 == o.x25 && f.x26 == o.x26 && f.x27 == o.x27
                &&& f.x28 == o.x28 && f.x29 == o.x29 && f.x30 == o.x30
            }),
    {
        let page = PAGE_SIZE as u64;
        let user_stack_base = user_alloc.plus(page);
        let kernel_stack = kernel_stack_base.copy().plus(kernel_stack_pages * page - InterruptFrame::SIZE);
        frame.sp = user_stack_base.copy().addr() + user_stack_pages * page;
        frame.pc = entry;
        frame.pstate = INITIAL_PSTATE;
        Thread {
            process,
            id,
            user_stack_base,
            kernel_stack_base,
            kernel_stack,
            is_idle_thread,
        }
    }

    /// Where the guard page below a user stack is mapped, and how: 4 KB, no access from EL0,
    /// inner shareable, attribute index 1, forced over any mapping. The target is no memory, so
    /// that an overflow of the stack faults.
    pub fn guard_page_mapping() -> (r: (PhysicalAddress, MapOptions))
        ensures
            r.0@ == GUARD_PAGE_TARGET,
            r.1.size == MapSize::Size4KB,
            r.1.flags.0 == map_flags_bits(false, false, 0b11, 1, true),
            r.1.flags.0 & 0x80 != 0,
    {
        assert(0b11u8 & 0b11 == 0b11u8 && 1u8 & 0b111 == 1u8 && map_flags_bits(false, false, 0b11, 1, true) & 0x80
            != 0) by (bit_vector);
        (
            PhysicalAddress::new(GUARD_PAGE_TARGET),
            MapOptions::new(MapSize::Size4KB, MapFlags::new(false, false, 0b11, 1, true)),
        )
    }

    pub fn id(&self) -> (r: ThreadId)
        ensures
            r == self.id_spec(),
    {
        self.id
    }

    pub fn process(&self) -> (r: usize)
        ensures
            r == self.process_spec(),
    {
        self.process
    }

    pub fn is_idle_thread(&self) -> (r: bool)
        ensures
            r == self.is_idle_spec(),
    {
        self.is_idle_thread
    }

    /// The frame the thread is resumed from.
    pub fn saved_context(&self) -> (r: u64)
        ensures
            r == self.kernel_stack_spec(),
    {
        self.kernel_stack.copy().addr()
    }

    /// The stacks to release when the thread is dropped: the user stack (with the pages
    /// above its base) and the kernel stack.
    pub fn stacks(&self) -> (r: (u64, u64))
        ensures
            r == (self.user_stack_base_spec(), self.kernel_stack_base_spec()),
    {
        (self.user_stack_base.copy().addr(), self.kernel_stack_base.copy().addr())
    }

    /// Create a thread of `process`, whose address space is `proc_space`, starting at `entry`,
    /// and register it with `sched`: `user_stack_pages + 1` pages for its user stack are
    /// allocated in `proc_space` (user data for a low space, kernel heap otherwise) and the
    /// lowest becomes the guard page (see `guard_page_mapping`); `kernel_stack_pages` pages of
    /// kernel heap in `kernel_space` hold its kernel stack, at whose top lies `frame` (see
    /// `new`). The thread gets the next id, is runnable, and joins its process. The first
    /// error of the allocations stops it; what was allocated before stays.
    pub fn create<P: PageAllocator<Physical>>(
        sched: &mut Scheduler,
        vmm: &mut VirtualMemoryManager<P>,
        process: usize,
        proc_space: VirtualAddressSpace,
        kernel_space: VirtualAddressSpace,
        entry: u64,
        is_idle_thread: bool,
        user_stack_pages: usize,
        kernel_stack_pages: usize,
        frame: &mut InterruptFrame,
    ) -> (r: Result<ThreadId, Error>)
        requires
            old(sched).wf(),
            process < old(sched)@.processes.len(),
            old(vmm).wf(),
            space_wf(old(vmm).tables(), proc_space),
            space_wf(old(vmm).tables(), kernel_space),
            (user_stack_pages + 1) * PAGE_SIZE <= if proc_space.is_low {
                USER_SPACE_END - USER_SPACE_START
            } else {
                KERNEL_HEAP_END - KERNEL_HEAP_START
            },
            kernel_stack_pages * PAGE_SIZE >= InterruptFrame::SIZE,
            kernel_stack_pages * PAGE_SIZE <= KERNEL_HEAP_END - KERNEL_HEAP_START,
        ensures
            final(vmm).wf(),
            grows(old(vmm).tables(), final(vmm).tables()),
            r is Err ==> *final(sched) == *old(sched),
            r matches Ok(id) ==> {
                let v = old(sched)@;
                &&& id == v.states.len()
                &&& final(sched).wf()
                &&& final(sched)@ == (SchedulerView {
                    thread_process: v.thread_process.push(process),
                    thread_idle: v.thread_idle.push(is_idle_thread),
                    thread_stacks: final(sched)@.thread_stacks,
                    states: v.states.push(ThreadState::Runnable),
                    processes: v.processes.update(process as int, v.processes[process as int].push(id)),
                    ..v
                })
            },
            r is Ok ==> exists|user: TablesView, guard: TablesView, user_alloc: u64, kernel_base: u64|
                #[trigger] stacks_made(
                    old(vmm).pages(),
                    final(vmm).pages(),
                    user,
                    guard,
                    final(vmm).tables(),
                    proc_space,
                    kernel_space,
                    user_alloc,
                    kernel_base,
                    user_stack_pages as int,
                    kernel_stack_pages as int,
                ) && final(frame).sp == user_alloc + PAGE_SIZE + user_stack_pages * PAGE_SIZE
                    && final(frame).pc == entry && final(frame).pstate == INITIAL_PSTATE
                    && final(sched)@.thread_stacks == old(sched)@.thread_stacks.push(
                    (
                        (user_alloc + PAGE_SIZE) as u64,
                        kernel_base,
                        (kernel_base + kernel_stack_pages * PAGE_SIZE - InterruptFrame::SIZE) as u64,
                    ),
                ),
            took_at_most(
                old(vmm).pages(),
                final(vmm).pages(),
                (6 * (user_stack_pages + 1) + 5 + 6 * kernel_stack_pages) as nat,
            ),
            r matches Err(e) ==> e == Error::Memory(MemoryError::OutOfPhysicalMemory) || e == Error::Memory(
                MemoryError::OutOfVirtualSpace,
            ) || (e == Error::Memory(MemoryError::InvalidAddrSpace) && kernel_space.is_low),
            r matches Err(e) && e == Error::Memory(MemoryError::OutOfPhysicalMemory) ==> !(6 * (user_stack_pages
                + 1) + 5 + 6 * kernel_stack_pages <= usize::MAX && old(vmm).pages().has_room(
                (6 * (user_stack_pages + 1) + 5 + 6 * kernel_stack_pages) as usize,
            )),
            r matches Err(e) && e == Error::Memory(MemoryError::OutOfVirtualSpace) ==> find_free_spec(
                old(vmm).tables(),
                proc_space,
                user_stack_pages + 1,
                usage_bounds(stack_usage(proc_space)).0,
                usage_bounds(stack_usage(proc_space)).1,
            ) is Err || find_free_spec(
                final(vmm).tables(),
                kernel_space,
                kernel_stack_pages as int,
                KERNEL_HEAP_START,
                KERNEL_HEAP_END,
            ) is Err,
            !kernel_space.is_low && find_free_spec(
                old(vmm).tables(),
                proc_space,
                user_stack_pages + 1,
                usage_bounds(stack_usage(proc_space)).0,
                usage_bounds(stack_usage(proc_space)).1,
            ) is Ok && 6 * (user_stack_pages + 1) + 5 + 6 * kernel_stack_pages <= usize::MAX && old(
                vmm,
            ).pages().has_room((6 * (user_stack_pages + 1) + 5 + 6 * kernel_stack_pages) as usize) ==> r is Ok
                || find_free_spec(
                final(vmm).tables(),
                kernel_space,
                kernel_stack_pages as int,
                KERNEL_HEAP_START,
                KERNEL_HEAP_END,
            ) is Err,
    {
        let ghost total = 6 * (user_stack_pages + 1) + 5 + 6 * kernel_stack_pages;
        let ghost room = total <= usize::MAX && old(vmm).pages().has_room(total as usize);
        proof {
            if room {
                old(vmm).pages().lemma_room_less(total as usize, (6 * (user_stack_pages + 1)) as usize);
            }
        }
        let usage = if proc_space.is_low {
            MemoryUsage::UserData
        } else {
            MemoryUsage::KernelHeap
        };
        let ghost t0 = vmm.tables();
        let ghost p0 = vmm.pages();
        let user_alloc = vmm.alloc_pages(user_stack_pages + 1, usage, proc_space);
        proof {
            lemma_took_more(p0, vmm.pages(), (6 * (user_stack_pages + 1)) as nat, total as nat);
        }
        let user_alloc = match user_alloc {
            Ok(a) => a,
            Err(e) => return Err(e),
        };
        let ghost t1 = vmm.tables();
        let ghost p1 = vmm.pages();
        let (guard_to, options) = Thread::guard_page_mapping();
        proof {
            assert(page_backed(p0, p1, t1, proc_space, user_alloc@));
            lemma_mapped_not_top_blocked(t1, proc_space, user_alloc@);
            if room {
                lemma_room_after(p0, p1, (6 * (user_stack_pages + 1)) as nat, total as usize, 5);
            }
        }
        let guard = vmm.map_page(user_alloc.copy(), guard_to, options, proc_space);
        proof {
            crate::memory::tables::lemma_grows_trans(t0, t1, vmm.tables());
            lemma_took_trans(p0, p1, vmm.pages(), (6 * (user_stack_pages + 1)) as nat, 5);
            lemma_took_more(p0, vmm.pages(), (6 * (user_stack_pages + 1) + 5) as nat, total as nat);
        }
        if let Err(e) = guard {
            return Err(e);
        }
        let ghost t2 = vmm.tables();
        let ghost p2 = vmm.pages();
        proof {
            lemma_grows_space(t0, t2, kernel_space);
            if room {
                lemma_room_after(p0, p2, (6 * (user_stack_pages + 1) + 5) as nat, total as usize, (6
                    * kernel_stack_pages) as usize);
            }
        }
        let kernel_base = vmm.alloc_pages(kernel_stack_pages, MemoryUsage::KernelHeap, kernel_space);
        proof {
            crate::memory::tables::lemma_grows_trans(t0, t2, vmm.tables());
            lemma_took_trans(p0, p2, vmm.pages(), (6 * (user_stack_pages + 1) + 5) as nat, (6
                * kernel_stack_pages) as nat);
        }
        let kernel_base = match kernel_base {
            Ok(a) => a,
            Err(e) => return Err(e),
        };
        let ghost ua = user_alloc@;
        let ghost kb = kernel_base@;
        let id = sched.next_thread_id();
        let thread = Thread::new(
            process,
            id,
            entry,
            is_idle_thread,
            user_alloc,
            user_stack_pages as u64,
            kernel_base,
            kernel_stack_pages as u64,
            frame,
        );
        let r = sched.register_thread(thread);
        proof {
            let p0 = old(vmm).pages();
            let p3 = vmm.pages();
            lemma_kept_trans(p1, p2, p3);
            assert forall|x: u64|
                ua + PAGE_SIZE <= x < ua + (user_stack_pages + 1) * PAGE_SIZE && x % 0x1000 == 0
                    implies #[trigger] page_backed(p0, p3, t1, proc_space, x) by {
                assert(page_backed(p0, p1, t1, proc_space, x));
                let p = choose|p: u64| #![trigger p1.allocated(p)] !p0.allocated(p) && p1.allocated(p)
                    && translate(t1, proc_space, x) == Some(target(p) as int);
                lemma_kept_trans(p1, p2, p3);
                assert(p3.allocated(p));
            }
            assert forall|x: u64|
                kb <= x < kb + kernel_stack_pages * PAGE_SIZE && x % 0x1000 == 0 implies #[trigger] page_backed(
                p0,
                p3,
                vmm.tables(),
                kernel_space,
                x,
            ) by {
                assert(page_backed(p2, p3, vmm.tables(), kernel_space, x));
                let p = choose|p: u64| #![trigger p3.allocated(p)] !p2.allocated(p) && p3.allocated(p)
                    && translate(vmm.tables(), kernel_space, x) == Some(target(p) as int);
                if p0.allocated(p) {
                    lemma_kept_trans(p0, p1, p2);
                    assert(p2.allocated(p));
                }
            }
            assert(stacks_made(p0, p3, t1, t2, vmm.tables(), proc_space, kernel_space, ua, kb,
                user_stack_pages as int, kernel_stack_pages as int));
        }
        Ok(r)
    }

}

} // verus!
