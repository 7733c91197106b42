use kernel::cpu::InterruptFrame;
use kernel::memory::address::VirtualAddress;
use kernel::memory::pmm::{PhysicalMemoryManager, PmmPageAllocator};
use kernel::memory::vmm::{MapSize, VirtualMemoryManager};
use kernel::scheduler::smp::register_cpus;
use kernel::scheduler::thread::{Thread, ThreadState};
use kernel::scheduler::{current_thread, exit, sleep, timer_action, Scheduler, SchedulerState, TimerAction, TIMESLICE_NS};

fn frame() -> InterruptFrame {
    InterruptFrame {
        x0: 0, x1: 0, x2: 0, x3: 0, x4: 0, x5: 0, x6: 0, x7: 0, x8: 0, x9: 0, x10: 0,
        x11: 0, x12: 0, x13: 0, x14: 0, x15: 0, x16: 0, x17: 0, x18: 0, x19: 0, x20: 0,
        x21: 0, x22: 0, x23: 0, x24: 0, x25: 0, x26: 0, x27: 0, x28: 0, x29: 0, x30: 7,
        sp: 0, pc: 0, pstate: 0,
    }
}

fn thread(process: usize, id: usize, idle: bool) -> Thread {
    let mut f = frame();
    Thread::new(
        process,
        id,
        0x40_1000,
        idle,
        VirtualAddress::new(0x4000_0000),
        4,
        VirtualAddress::new(0xFFFF_0080_0000_0000),
        4,
        &mut f,
    )
}

#[test]
fn thread_new_sets_up_frame_and_stacks() {
    let mut f = frame();
    let t = Thread::new(
        3,
        9,
        0x40_1000,
        false,
        VirtualAddress::new(0x4000_0000),
        4,
        VirtualAddress::new(0xFFFF_0080_0000_0000),
        4,
        &mut f,
    );
    assert_eq!(t.id(), 9);
    assert_eq!(t.process(), 3);
    assert!(!t.is_idle_thread());
    assert_eq!(f.pc, 0x40_1000);
    assert_eq!(f.sp, 0x4000_0000 + 4096 + 4 * 4096);
    assert_eq!(f.x30, 7);
    assert_eq!(t.saved_context(), 0xFFFF_0080_0000_0000 + 4 * 4096 - 272);
}

#[test]
fn timer_actions() {
    assert_eq!(timer_action(0, None, 5), TimerAction::Unset);
    assert_eq!(timer_action(2, None, 5), TimerAction::TickIn(TIMESLICE_NS));
    assert_eq!(timer_action(0, Some(50), 5), TimerAction::TickAt(50));
    assert_eq!(timer_action(1, Some(50), 5), TimerAction::TickAt(50));
    assert_eq!(timer_action(1, Some(5 + TIMESLICE_NS), 5), TimerAction::TickIn(TIMESLICE_NS));
    assert_eq!(timer_action(1, Some(3), 5), TimerAction::TickIn(TIMESLICE_NS));
}

fn started() -> Scheduler {
    let mut s = Scheduler::new();
    s.init(thread(0, 0, false));
    register_cpus(&mut s, &vec![0, 1], 0);
    let idle = s.register_thread(thread(0, 1, true));
    let main = s.register_thread(thread(0, 2, false));
    assert_eq!((idle, main), (1, 2));
    let (t, _) = s.start(0, idle, main, 0, 0);
    assert_eq!(t, main);
    s
}

#[test]
fn scheduler_start_runs_main() {
    let s = started();
    assert!(s.state() == SchedulerState::Started);
    assert_eq!(s.get_kernel_process(), 0);
    assert_eq!(current_thread(&s, 0), 2);
    assert!(s.thread_state(2) == ThreadState::Running);
    assert_eq!(s.find_cpu(1), Some(1));
    assert_eq!(s.find_cpu(5), None);
}

#[test]
fn scheduler_round_robin() {
    let mut s = started();
    // queue: main, destroyer; main preempted goes to the back
    let (a, _) = s.schedule(0, 10);
    assert_eq!(a, 2);
    let (b, _) = s.schedule(0, 20);
    assert_eq!(b, 0);
    assert!(s.thread_state(2) == ThreadState::Runnable);
}

#[test]
fn scheduler_sleep_then_wake_up() {
    let mut s = started();
    sleep(&mut s, 0, 100, 5000);
    assert!(s.thread_state(2) == ThreadState::Waiting(5100));
    let (a, _) = s.schedule(0, 200);
    assert_eq!(a, 0);
    // 4100 + margin reaches 5100: the sleeper is due
    s.wake_up_waiting_threads(0, 4100);
    assert!(s.thread_state(2) == ThreadState::Runnable);
}

#[test]
fn scheduler_exit_then_destroy() {
    let mut s = started();
    exit(&mut s, 0, 0);
    assert!(s.thread_state(2) == ThreadState::Exited);
    let emptied = s.destroy_exited_threads();
    assert_eq!(emptied.len(), 0);
}

#[test]
fn scheduler_idle_when_nothing_runs() {
    let mut s = started();
    exit(&mut s, 0, 0);
    let (a, _) = s.schedule(0, 10);
    assert_eq!(a, 0);
    exit(&mut s, 0, 0);
    let (b, t) = s.schedule(0, 20);
    assert_eq!(b, 1);
    assert_eq!(t, TimerAction::Unset);
}

#[test]
fn thread_create_allocates_stacks_and_registers() {
    let mut pmm = PhysicalMemoryManager::all_used(8);
    pmm.set_free_range(0, 64);
    let mut vmm = VirtualMemoryManager::new(PmmPageAllocator::new(pmm));
    let user = vmm.create_addr_space(true).unwrap();
    let kernel = vmm.create_addr_space(false).unwrap();
    let mut s = Scheduler::new();
    s.init(thread(0, 0, false));
    let mut f = frame();
    let id = Thread::create(&mut s, &mut vmm, 0, user, kernel, 0x40_1000, false, 4, 4, &mut f).ok().unwrap();
    assert_eq!(id, 1);
    assert!(s.thread_state(id) == ThreadState::Runnable);
    assert_eq!(s.thread(id).process(), 0);
    assert!(!s.thread(id).is_idle_thread());
    assert_eq!(f.pc, 0x40_1000);
    assert_eq!(f.sp, 0x4000_0000 + 4096 + 4 * 4096);
    // the page below the stack is the guard page; the stack pages are mapped
    assert!(vmm.unmap_page(VirtualAddress::new(0x4000_1000), MapSize::Size4KB, user).is_ok());
    assert!(vmm.unmap_page(VirtualAddress::new(0x4000_4000), MapSize::Size4KB, user).is_ok());
}
