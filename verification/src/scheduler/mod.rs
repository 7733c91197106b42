use vstd::prelude::*;

pub mod process;
pub mod smp;
pub mod laws;
pub mod thread;

use std::collections::VecDeque;
use self::process::{first_index, lemma_first_index, Process, ProcessId};
use self::thread::{Thread, ThreadId, ThreadState};
use crate::devices::gic_v2::regs::RegWrite;
use crate::interrupts::{CoreSelection, InterruptsChip};

verus! {

/// The time a thread runs before the timer asks for another one, in ns.
pub const TIMESLICE_NS: u64 = 100_000_000;

/// A thread is woken up when its wake up time is at most this many ns after the uptime.
pub const WAKE_UP_MARGIN_NS: u64 = 1000;

#[derive(PartialEq, Eq, Structural, Clone, Copy, Debug)]
pub enum SchedulerState {
    Initing,
    Started,
}

/// What a core does with its timer.
#[derive(PartialEq, Eq, Structural, Clone, Copy, Debug)]
pub enum TimerAction {
    /// Leave the timer unset.
    Unset,
    /// Tick at this uptime, in ns.
    TickAt(u64),
    /// Tick in this many ns.
    TickIn(u64),
}

/// The time a waiting thread wakes up at.
pub open spec fn wake_time(s: ThreadState) -> u64 {
    match s {
        ThreadState::Waiting(t) => t,
        _ => 0,
    }
}

/// Whether a thread waiting until `t` is due at `uptime`.
pub open spec fn is_due(t: u64, uptime: u64) -> bool {
    t <= uptime + WAKE_UP_MARGIN_NS
}

/// The timer of a core with `runnable` threads in its queue, when the earliest waiting thread
/// wakes at `lower` (if any thread waits) and the uptime is `uptime`.
pub open spec fn timer_action_spec(runnable: nat, lower: Option<u64>, uptime: u64) -> TimerAction {
    match lower {
        None => if runnable == 0 {
            TimerAction::Unset
        } else {
            TimerAction::TickIn(TIMESLICE_NS)
        },
        Some(ns) => if runnable == 0 {
            TimerAction::TickAt(ns)
        } else if uptime >= ns {
            TimerAction::TickIn(TIMESLICE_NS)
        } else if ns - uptime < TIMESLICE_NS {
            TimerAction::TickAt(ns)
        } else {
            TimerAction::TickIn(TIMESLICE_NS)
        },
    }
}

/// See `timer_action_spec`.
pub fn timer_action(runnable_threads_count: usize, lower_waiting_time: Option<u64>, uptime: u64) -> (r: TimerAction)
    ensures
        r == timer_action_spec(runnable_threads_count as nat, lower_waiting_time, uptime),
{
    match lower_waiting_time {
        None => if runnable_threads_count == 0 {
            TimerAction::Unset
        } else {
            TimerAction::TickIn(TIMESLICE_NS)
        },
        Some(ns) => if runnable_threads_count == 0 {
            TimerAction::TickAt(ns)
        } else if uptime >= ns {
            TimerAction::TickIn(TIMESLICE_NS)
        } else if ns - uptime < TIMESLICE_NS {
            TimerAction::TickAt(ns)
        } else {
            TimerAction::TickIn(TIMESLICE_NS)
        },
    }
}

/// How many threads at the front of `waiting` are due at `uptime`.
pub open spec fn due_prefix(states: Seq<ThreadState>, waiting: Seq<ThreadId>, uptime: u64) -> nat
    decreases waiting.len(),
{
    if waiting.len() == 0 {
        0
    } else if is_due(wake_time(states[waiting[0] as int]), uptime) {
        1 + due_prefix(states, waiting.drop_first(), uptime)
    } else {
        0
    }
}

/// `states` with each thread of `ts` runnable.
pub open spec fn make_runnable(states: Seq<ThreadState>, ts: Seq<ThreadId>) -> Seq<ThreadState> {
    Seq::new(
        states.len(),
        |i: int|
            if ts.contains(i as ThreadId) {
                ThreadState::Runnable
            } else {
                states[i]
            },
    )
}

/// The index in `q` of the first runnable thread, or the length of `q` if none is.
pub open spec fn first_runnable(states: Seq<ThreadState>, q: Seq<ThreadId>) -> nat
    decreases q.len(),
{
    if q.len() == 0 {
        0
    } else if states[q[0] as int] == ThreadState::Runnable {
        0
    } else {
        1 + first_runnable(states, q.drop_first())
    }
}

proof fn lemma_due_prefix_step(states: Seq<ThreadState>, waiting: Seq<ThreadId>, uptime: u64, w: int)
    requires
        0 <= w < waiting.len(),
        is_due(wake_time(states[waiting[w] as int]), uptime),
    ensures
        due_prefix(states, waiting.skip(w), uptime) == 1 + due_prefix(states, waiting.skip(w + 1), uptime),
{
    assert(waiting.skip(w).drop_first() =~= waiting.skip(w + 1));
}

pub(crate) proof fn lemma_due_prefix_len(states: Seq<ThreadState>, waiting: Seq<ThreadId>, uptime: u64)
    ensures
        due_prefix(states, waiting, uptime) <= waiting.len(),
    decreases waiting.len(),
{
    if waiting.len() > 0 {
        lemma_due_prefix_len(states, waiting.drop_first(), uptime);
    }
}

proof fn lemma_first_runnable_step(states: Seq<ThreadState>, q: Seq<ThreadId>, k: int)
    requires
        0 <= k < q.len(),
        states[q[k] as int] != ThreadState::Runnable,
    ensures
        first_runnable(states, q.skip(k)) == 1 + first_runnable(states, q.skip(k + 1)),
{
    assert(q.skip(k).drop_first() =~= q.skip(k + 1));
}

/// The scheduler after the threads due at `uptime` are moved from the sleeping list to the run
/// queue of core `cpu`, in order.
pub open spec fn wake_up_spec(v: SchedulerView, cpu: int, uptime: u64) -> SchedulerView {
    let w = due_prefix(v.states, v.waiting, uptime) as int;
    let woken = v.waiting.take(w);
    SchedulerView {
        states: make_runnable(v.states, woken),
        waiting: v.waiting.skip(w),
        cpus: v.cpus.update(cpu, CpuView { queue: v.cpus[cpu].queue + woken, ..v.cpus[cpu] }),
        ..v
    }
}

/// The wake up time of the first sleeping thread, if any thread sleeps.
pub open spec fn lower_waiting_time(v: SchedulerView) -> Option<u64> {
    if v.waiting.len() > 0 {
        Some(wake_time(v.states[v.waiting[0] as int]))
    } else {
        None
    }
}

/// The scheduler once the thread running on core `cpu`, if it runs, is made runnable again.
pub open spec fn preempt_spec(v: SchedulerView, cpu: int) -> SchedulerView {
    let c = v.cpus[cpu].current.unwrap();
    if v.states[c as int] == ThreadState::Running {
        SchedulerView { states: v.states.update(c as int, ThreadState::Runnable), ..v }
    } else {
        v
    }
}

/// Whether the thread running on core `cpu` goes back to its run queue when preempted: it ran
/// and is not the idle thread.
pub open spec fn can_rerun(v: SchedulerView, cpu: int) -> bool {
    let c = v.cpus[cpu].current.unwrap();
    v.states[c as int] == ThreadState::Running && !v.thread_idle[c as int]
}

/// What `schedule` makes of the scheduler, and the thread it runs next on core `cpu`: the
/// running thread is preempted, the due sleeping threads are woken, the preempted thread goes
/// to the back of the run queue unless it is the idle thread, then the first runnable thread
/// of the queue runs (the threads before it leave the queue), or the idle thread when none is.
pub open spec fn schedule_spec(v: SchedulerView, cpu: int, uptime: u64) -> (SchedulerView, ThreadId) {
    let c = v.cpus[cpu].current.unwrap();
    let v1 = wake_up_spec(preempt_spec(v, cpu), cpu, uptime);
    let q = if can_rerun(v, cpu) {
        v1.cpus[cpu].queue.push(c)
    } else {
        v1.cpus[cpu].queue
    };
    let k = first_runnable(v1.states, q) as int;
    let next = if k < q.len() {
        q[k]
    } else {
        v.cpus[cpu].idle.unwrap()
    };
    let rest = if k < q.len() {
        q.skip(k + 1)
    } else {
        Seq::empty()
    };
    (
        SchedulerView {
            states: v1.states.update(next as int, ThreadState::Running),
            cpus: v1.cpus.update(cpu, CpuView { queue: rest, current: Some(next), ..v1.cpus[cpu] }),
            ..v1
        },
        next,
    )
}

/// Core `cpu` can be scheduled: it runs a thread and has an idle thread, which is runnable
/// unless it is the running thread.
pub open spec fn can_schedule(v: SchedulerView, cpu: int) -> bool {
    &&& 0 <= cpu < v.cpus.len()
    &&& v.cpus[cpu].current is Some
    &&& v.cpus[cpu].idle is Some
    &&& {
        let idle = v.cpus[cpu].idle.unwrap();
        ||| v.states[idle as int] == ThreadState::Runnable
        ||| (v.cpus[cpu].current == Some(idle) && v.states[idle as int] == ThreadState::Running)
    }
}

/// How many threads at the front of `waiting` wake up at or before `t`: where a thread
/// sleeping until `t` is inserted.
pub open spec fn sleep_pos(states: Seq<ThreadState>, waiting: Seq<ThreadId>, t: u64) -> nat
    decreases waiting.len(),
{
    if waiting.len() == 0 {
        0
    } else if wake_time(states[waiting[0] as int]) <= t {
        1 + sleep_pos(states, waiting.drop_first(), t)
    } else {
        0
    }
}

/// A thread goes to sleep at a place of the waiting list: at most after its last thread.
pub proof fn lemma_sleep_pos_bound(states: Seq<ThreadState>, waiting: Seq<ThreadId>, t: u64)
    ensures
        sleep_pos(states, waiting, t) <= waiting.len(),
    decreases waiting.len(),
{
    if waiting.len() > 0 {
        lemma_sleep_pos_bound(states, waiting.drop_first(), t);
    }
}

/// `s` without its element at `i`, the last element taking its place.
pub open spec fn swap_remove_spec(s: Seq<ThreadId>, i: int) -> Seq<ThreadId> {
    s.update(i, s.last()).drop_last()
}

/// The thread lists of the processes once the threads `ts` are removed from them in order,
/// each from the list of its process, and the processes left without threads, in order.
pub open spec fn destroy_spec(processes: Seq<Seq<ThreadId>>, thread_process: Seq<ProcessId>, ts: Seq<ThreadId>) -> (
    Seq<Seq<ThreadId>>,
    Seq<ProcessId>,
)
    decreases ts.len(),
{
    if ts.len() == 0 {
        (processes, Seq::empty())
    } else {
        let (ps, emptied) = destroy_spec(processes, thread_process, ts.drop_last());
        let t = ts.last();
        let p = thread_process[t as int];
        let list = swap_remove_spec(ps[p as int], first_index(ps[p as int], t));
        (ps.update(p as int, list), if list.len() == 0 { emptied.push(p) } else { emptied })
    }
}

/// The index of the core `id`.
pub open spec fn cpu_index(v: SchedulerView, id: u32) -> int {
    choose|c: int| 0 <= c < v.cpus.len() && (#[trigger] v.cpus[c]).id == id
}

/// The running thread of core `cpu` exits: it is handed to the thread that destroys exited
/// threads.
pub open spec fn exit_spec(v: SchedulerView, cpu: int) -> SchedulerView {
    let c = v.cpus[cpu].current.unwrap();
    SchedulerView { states: v.states.update(c as int, ThreadState::Exited), to_destroy: v.to_destroy.push(c), ..v }
}

/// The running thread of core `cpu` sleeps until `t`.
pub open spec fn sleep_spec(v: SchedulerView, cpu: int, t: u64) -> SchedulerView {
    let c = v.cpus[cpu].current.unwrap();
    SchedulerView {
        states: v.states.update(c as int, ThreadState::Waiting(t)),
        waiting: v.waiting.insert(sleep_pos(v.states, v.waiting, t) as int, c),
        ..v
    }
}

/// The running thread of core `cpu` is blocked.
pub open spec fn block_spec(v: SchedulerView, cpu: int) -> SchedulerView {
    let c = v.cpus[cpu].current.unwrap();
    SchedulerView { states: v.states.update(c as int, ThreadState::Blocked), blocked: v.blocked.push(c), ..v }
}

/// The blocked thread `id` is unblocked: runnable, at the back of the run queue of core `cpu`.
pub open spec fn unblock_spec(v: SchedulerView, cpu: int, id: ThreadId) -> SchedulerView {
    SchedulerView {
        states: v.states.update(id as int, ThreadState::Runnable),
        blocked: swap_remove_spec(v.blocked, v.blocked.index_of(id)),
        cpus: v.cpus.update(cpu, CpuView { queue: v.cpus[cpu].queue.push(id), ..v.cpus[cpu] }),
        ..v
    }
}

/// What the scheduler knows of a core.
pub struct CpuView {
    pub id: u32,
    pub is_main_cpu: bool,
    /// The run queue, front first.
    pub queue: Seq<ThreadId>,
    pub idle: Option<ThreadId>,
    pub current: Option<ThreadId>,
    /// How many times interrupts are masked on the core.
    pub irqs_depth: u32,
}

/// A core: its run queue, its idle thread and the thread it runs.
pub struct Cpu {
    pub id: u32,
    pub is_main_cpu: bool,
    threads: VecDeque<ThreadId>,
    idle_thread: Option<ThreadId>,
    current_thread: Option<ThreadId>,
    pub irqs_depth: u32,
}

impl View for Cpu {
    type V = CpuView;

    closed spec fn view(&self) -> CpuView {
        CpuView {
            id: self.id,
            is_main_cpu: self.is_main_cpu,
            queue: self.threads@,
            idle: self.idle_thread,
            current: self.current_thread,
            irqs_depth: self.irqs_depth,
        }
    }
}

impl Cpu {
    /// A core with an empty run queue, no idle thread, no current thread, and interrupts masked
    /// once.
    pub fn new(id: u32, is_main_cpu: bool) -> (r: Self)
        ensures
            r@ == (CpuView {
                id,
                is_main_cpu,
                queue: Seq::empty(),
                idle: None,
                current: None,
                irqs_depth: 1,
            }),
    {
        Cpu {
            id,
            is_main_cpu,
            threads: VecDeque::new(),
            idle_thread: None,
            current_thread: None,
            irqs_depth: 1,
        }
    }

    /// The run queue, front first.
    pub fn threads(&self) -> (r: &VecDeque<ThreadId>)
        ensures
            r@ == self@.queue,
    {
        &self.threads
    }
}

/// What the scheduler holds, as values.
pub struct SchedulerView {
    pub state: SchedulerState,
    pub cpus: Seq<CpuView>,
    /// The process of each thread, by thread id.
    pub thread_process: Seq<ProcessId>,
    /// Whether each thread is an idle thread, by thread id.
    pub thread_idle: Seq<bool>,
    /// The stacks of each thread, by thread id: the base of its user stack, the base of its
    /// kernel stack, and the address of the frame it is resumed from.
    pub thread_stacks: Seq<(u64, u64, u64)>,
    /// The state of each thread, by thread id.
    pub states: Seq<ThreadState>,
    /// The threads of each process, by process id.
    pub processes: Seq<Seq<ThreadId>>,
    pub kernel_process: Option<ProcessId>,
    pub destroyer: Option<ThreadId>,
    /// The sleeping threads, earliest wake up first.
    pub waiting: Seq<ThreadId>,
    pub blocked: Seq<ThreadId>,
    pub to_destroy: Seq<ThreadId>,
}

impl SchedulerView {
    pub open spec fn valid_thread(self, t: ThreadId) -> bool {
        t < self.states.len()
    }

    pub open spec fn valid_threads(self, s: Seq<ThreadId>) -> bool {
        forall|i: int| 0 <= i < s.len() ==> #[trigger] s[i] < self.states.len()
    }

    /// The state of the scheduler is consistent: every id refers to a thread or a process,
    /// the sleeping threads wait, each once, earliest first, and the blocked threads are
    /// blocked, each once.
    pub open spec fn wf(self) -> bool {
        &&& self.thread_process.len() == self.states.len()
        &&& self.thread_idle.len() == self.states.len()
        &&& self.thread_stacks.len() == self.states.len()
        &&& forall|t: int| 0 <= t < self.states.len() ==> #[trigger] self.thread_process[t] < self.processes.len()
        &&& forall|p: int| 0 <= p < self.processes.len() ==> self.valid_threads(#[trigger] self.processes[p])
        &&& forall|c: int| 0 <= c < self.cpus.len() ==> {
            let cpu = #[trigger] self.cpus[c];
            &&& self.valid_threads(cpu.queue)
            &&& cpu.idle matches Some(t) ==> self.valid_thread(t)
            &&& cpu.current matches Some(t) ==> self.valid_thread(t)
        }
        &&& forall|c: int, d: int|
            0 <= c < self.cpus.len() && 0 <= d < self.cpus.len() && c != d ==> (#[trigger] self.cpus[c]).id
                != (#[trigger] self.cpus[d]).id
        &&& self.kernel_process matches Some(p) ==> p < self.processes.len()
        &&& self.destroyer matches Some(t) ==> self.valid_thread(t)
        &&& self.valid_threads(self.waiting)
        &&& self.waiting.no_duplicates()
        &&& forall|i: int| 0 <= i < self.waiting.len() ==> #[trigger] self.states[self.waiting[i] as int] is Waiting
        &&& forall|i: int, j: int|
            0 <= i <= j < self.waiting.len() ==> wake_time(#[trigger] self.states[self.waiting[i] as int])
                <= wake_time(#[trigger] self.states[self.waiting[j] as int])
        &&& self.valid_threads(self.blocked)
        &&& self.blocked.no_duplicates()
        &&& forall|i: int| 0 <= i < self.blocked.len() ==> #[trigger] self.states[self.blocked[i] as int] == ThreadState::Blocked
        &&& self.valid_threads(self.to_destroy)
    }
}

/// The scheduler: the cores, the threads and their states, the processes, and the lists of
/// sleeping, blocked and exited threads. Thread and process ids are their indices.
pub struct Scheduler {
    cpus: Vec<Cpu>,
    state: SchedulerState,
    kernel_process: Option<ProcessId>,
    processes: Vec<Process>,
    threads: Vec<Thread>,
    states: Vec<ThreadState>,
    threads_to_destroy: Vec<ThreadId>,
    thread_destroyer_of_threads: Option<ThreadId>,
    waiting_threads: VecDeque<ThreadId>,
    blocked_threads: Vec<ThreadId>,
}

impl View for Scheduler {
    type V = SchedulerView;

    closed spec fn view(&self) -> SchedulerView {
        SchedulerView {
            state: self.state,
            cpus: self.cpus@.map_values(|c: Cpu| c@),
            thread_process: self.threads@.map_values(|t: Thread| t.process_spec()),
            thread_idle: self.threads@.map_values(|t: Thread| t.is_idle_spec()),
            thread_stacks: self.threads@.map_values(
                |t: Thread| (t.user_stack_base_spec(), t.kernel_stack_base_spec(), t.kernel_stack_spec()),
            ),
            states: self.states@,
            processes: self.processes@.map_values(|p: Process| p.thread_list()),
            kernel_process: self.kernel_process,
            destroyer: self.thread_destroyer_of_threads,
            waiting: self.waiting_threads@,
            blocked: self.blocked_threads@,
            to_destroy: self.threads_to_destroy@,
        }
    }
}

impl Scheduler {
    /// Ids match indices in the tables.
    closed spec fn ids_ok(&self) -> bool {
        &&& self.states@.len() == self.threads@.len()
        &&& forall|t: int| 0 <= t < self.threads@.len() ==> (#[trigger] self.threads@[t]).id_spec() == t
        &&& forall|p: int| 0 <= p < self.processes@.len() ==> (#[trigger] self.processes@[p]).id_spec() == p
    }

    /// The scheduler is consistent.
    pub closed spec fn wf(&self) -> bool {
        self.ids_ok() && self@.wf()
    }

    /// A scheduler without cores, threads or processes, not started.
    pub fn new() -> (r: Self)
        ensures
            r.wf(),
            r@.state == SchedulerState::Initing,
            r@.cpus.len() == 0,
            r@.states.len() == 0,
            r@.processes.len() == 0,
            r@.kernel_process is None,
            r@.destroyer is None,
            r@.waiting.len() == 0,
            r@.blocked.len() == 0,
            r@.to_destroy.len() == 0,
    {
        let r = Scheduler {
            cpus: Vec::new(),
            state: SchedulerState::Initing,
            kernel_process: None,
            processes: Vec::new(),
            threads: Vec::new(),
            states: Vec::new(),
            threads_to_destroy: Vec::new(),
            thread_destroyer_of_threads: None,
            waiting_threads: VecDeque::new(),
            blocked_threads: Vec::new(),
        };
        proof {
            assert(r@.states.len() == 0);
        }
        r
    }

    /// The id the next thread gets.
    pub fn next_thread_id(&self) -> (r: ThreadId)
        requires
            self.wf(),
        ensures
            r == self@.states.len(),
    {
        self.threads.len()
    }

    /// The number of processes, which is also the id the next process gets.
    pub fn process_count(&self) -> (r: usize)
        ensures
            r == self@.processes.len(),
    {
        self.processes.len()
    }

    pub fn state(&self) -> (r: SchedulerState)
        ensures
            r == self@.state,
    {
        self.state
    }

    pub fn try_get_kernel_process(&self) -> (r: Option<ProcessId>)
        ensures
            r == self@.kernel_process,
    {
        self.kernel_process
    }

    pub fn get_kernel_process(&self) -> (r: ProcessId)
        requires
            self@.kernel_process is Some,
        ensures
            Some(r) == self@.kernel_process,
    {
        self.kernel_process.unwrap()
    }

    /// The state of `thread`.
    pub fn thread_state(&self, thread: ThreadId) -> (r: ThreadState)
        requires
            self.wf(),
            self@.valid_thread(thread),
        ensures
            r == self@.states[thread as int],
    {
        self.states[thread]
    }

    /// The thread `thread`.
    pub fn thread(&self, thread: ThreadId) -> (r: &Thread)
        requires
            self.wf(),
            self@.valid_thread(thread),
        ensures
            r.id_spec() == thread,
            r.process_spec() == self@.thread_process[thread as int],
            r.is_idle_spec() == self@.thread_idle[thread as int],
    {
        &self.threads[thread]
    }

    /// Register `cpu` in the core table, at index `c`.
    fn put_cpu(&mut self, c: usize, cpu: Cpu)
        requires
            c < old(self).cpus@.len(),
        ensures
            final(self)@ == (SchedulerView { cpus: old(self)@.cpus.update(c as int, cpu@), ..old(self)@ }),
            final(self).threads@ == old(self).threads@,
            final(self).processes@ == old(self).processes@,
    {
        let ghost before = self@;
        self.cpus.remove(c);
        self.cpus.insert(c, cpu);
        proof {
            assert(self@.cpus =~= before.cpus.update(c as int, cpu@));
        }
    }

    /// A copy of the core at index `c` with its run queue moved out; `put_cpu` puts it back.
    fn take_cpu(&mut self, c: usize) -> (r: Cpu)
        requires
            c < old(self).cpus@.len(),
        ensures
            r@ == old(self)@.cpus[c as int],
            final(self).cpus@.len() == old(self).cpus@.len(),
            final(self)@ == (SchedulerView {
                cpus: old(self)@.cpus.update(c as int, CpuView { queue: Seq::empty(), ..old(self)@.cpus[c as int] }),
                ..old(self)@
            }),
            final(self).threads@ == old(self).threads@,
            final(self).processes@ == old(self).processes@,
    {
        let cpu = self.cpus.remove(c);
        let placeholder = Cpu {
            id: cpu.id,
            is_main_cpu: cpu.is_main_cpu,
            threads: VecDeque::new(),
            idle_thread: cpu.idle_thread,
            current_thread: cpu.current_thread,
            irqs_depth: cpu.irqs_depth,
        };
        self.cpus.insert(c, placeholder);
        proof {
            assert(self@.cpus =~= old(self)@.cpus.update(
                c as int,
                CpuView { queue: Seq::empty(), ..old(self)@.cpus[c as int] },
            ));
        }
        cpu
    }

    /// Register the core `id`; the scheduler must not be started, and no core with this id,
    /// nor two main cores, may be registered.
    pub fn register_cpu(&mut self, id: u32, is_main_cpu: bool)
        requires
            old(self).wf(),
            old(self)@.state == SchedulerState::Initing,
            forall|c: int| 0 <= c < old(self)@.cpus.len() ==> (#[trigger] old(self)@.cpus[c]).id != id,
            forall|c: int|
                0 <= c < old(self)@.cpus.len() ==> !(is_main_cpu && (#[trigger] old(self)@.cpus[c]).is_main_cpu),
        ensures
            final(self).wf(),
            final(self)@ == (SchedulerView {
                cpus: old(self)@.cpus.push(
                    CpuView { id, is_main_cpu, queue: Seq::empty(), idle: None, current: None, irqs_depth: 1 },
                ),
                ..old(self)@
            }),
    {
        let cpu = Cpu::new(id, is_main_cpu);
        self.cpus.push(cpu);
        proof {
            assert(self@.cpus =~= old(self)@.cpus.push(cpu@));
        }
    }

    /// Register `thread`, made with the next thread id: it is runnable, and one of the threads
    /// of its process.
    pub fn register_thread(&mut self, thread: Thread) -> (r: ThreadId)
        requires
            old(self).wf(),
            thread.id_spec() == old(self)@.states.len(),
            thread.process_spec() < old(self)@.processes.len(),
        ensures
            final(self).wf(),
            r == old(self)@.states.len(),
            final(self)@ == (SchedulerView {
                thread_process: old(self)@.thread_process.push(thread.process_spec()),
                thread_idle: old(self)@.thread_idle.push(thread.is_idle_spec()),
                thread_stacks: old(self)@.thread_stacks.push(
                    (thread.user_stack_base_spec(), thread.kernel_stack_base_spec(), thread.kernel_stack_spec()),
                ),
                states: old(self)@.states.push(ThreadState::Runnable),
                processes: old(self)@.processes.update(
                    thread.process_spec() as int,
                    old(self)@.processes[thread.process_spec() as int].push(r),
                ),
                ..old(self)@
            }),
    {
        let ghost before = self@;
        let id = self.threads.len();
        let p = thread.process();
        self.threads.push(thread);
        self.states.push(ThreadState::Runnable);
        let mut process = self.processes.remove(p);
        process.add_thread(id);
        self.processes.insert(p, process);
        proof {
            assert(self@.thread_process =~= before.thread_process.push(thread.process_spec()));
            assert(self@.thread_idle =~= before.thread_idle.push(thread.is_idle_spec()));
            assert(self@.thread_stacks =~= before.thread_stacks.push(
                (thread.user_stack_base_spec(), thread.kernel_stack_base_spec(), thread.kernel_stack_spec()),
            ));
            assert(self@.processes =~= before.processes.update(p as int, before.processes[p as int].push(id)));
            assert forall|t: int| 0 <= t < self.threads@.len() implies (#[trigger] self.threads@[t]).id_spec() == t by {
                if t < before.states.len() {
                    assert(self.threads@[t] == old(self).threads@[t]);
                }
            }
            assert forall|q: int| 0 <= q < self.processes@.len() implies (#[trigger] self.processes@[q]).id_spec() == q by {
                if q != p {
                    assert(self.processes@[q] == old(self).processes@[q]);
                }
            }
            let v = self@;
            assert forall|q: int| 0 <= q < v.processes.len() implies v.valid_threads(#[trigger] v.processes[q]) by {
                if q != p {
                    assert(v.processes[q] == before.processes[q]);
                    assert(before.valid_threads(before.processes[q]));
                } else {
                    assert(before.valid_threads(before.processes[q]));
                }
            }
            assert forall|c: int| 0 <= c < v.cpus.len() implies {
                let cpu = #[trigger] v.cpus[c];
                &&& v.valid_threads(cpu.queue)
                &&& cpu.idle matches Some(t) ==> v.valid_thread(t)
                &&& cpu.current matches Some(t) ==> v.valid_thread(t)
            } by {
                assert(v.cpus[c] == before.cpus[c]);
            }
            assert forall|i: int, j: int|
                0 <= i <= j < v.waiting.len() implies wake_time(#[trigger] v.states[v.waiting[i] as int])
                    <= wake_time(#[trigger] v.states[v.waiting[j] as int]) by {
                assert(v.states[v.waiting[i] as int] == before.states[before.waiting[i] as int]);
                assert(v.states[v.waiting[j] as int] == before.states[before.waiting[j] as int]);
            }
        }
        id
    }

    /// Create the kernel process and register `destroyer`, made with the next thread id for
    /// it, as the thread that destroys the exited threads. Call this once, before starting.
    pub fn init(&mut self, destroyer: Thread)
        requires
            old(self).wf(),
            old(self)@.state == SchedulerState::Initing,
            old(self)@.kernel_process is None,
            destroyer.id_spec() == old(self)@.states.len(),
            destroyer.process_spec() == old(self)@.processes.len(),
        ensures
            final(self).wf(),
            final(self)@ == (SchedulerView {
                thread_process: old(self)@.thread_process.push(destroyer.process_spec()),
                thread_idle: old(self)@.thread_idle.push(destroyer.is_idle_spec()),
                thread_stacks: old(self)@.thread_stacks.push(
                    (destroyer.user_stack_base_spec(), destroyer.kernel_stack_base_spec(), destroyer.kernel_stack_spec()),
                ),
                states: old(self)@.states.push(ThreadState::Runnable),
                processes: old(self)@.processes.push(seq![destroyer.id_spec()]),
                kernel_process: Some(old(self)@.processes.len() as ProcessId),
                destroyer: Some(destroyer.id_spec()),
                ..old(self)@
            }),
    {
        let ghost before = self@;
        let p = self.processes.len();
        self.processes.push(Process::new(p));
        self.kernel_process = Some(p);
        proof {
            assert(self@.processes =~= before.processes.push(Seq::empty()));
            let v = self@;
            assert forall|q: int| 0 <= q < v.processes.len() implies v.valid_threads(#[trigger] v.processes[q]) by {
                if q < before.processes.len() {
                    assert(v.processes[q] == before.processes[q]);
                }
            }
            assert forall|q: int| 0 <= q < self.processes@.len() implies (#[trigger] self.processes@[q]).id_spec() == q by {
                if q < before.processes.len() {
                    assert(self.processes@[q] == old(self).processes@[q]);
                }
            }
        }
        let id = self.register_thread(destroyer);
        self.thread_destroyer_of_threads = Some(id);
        proof {
            assert(self@.processes =~= before.processes.push(seq![destroyer.id_spec()]));
        }
    }

    /// Add `thread`, which must be runnable, at the back of the run queue of core `cpu`.
    pub fn add_thread(&mut self, cpu: usize, thread: ThreadId)
        requires
            old(self).wf(),
            cpu < old(self)@.cpus.len(),
            old(self)@.valid_thread(thread),
            old(self)@.states[thread as int] == ThreadState::Runnable,
        ensures
            final(self).wf(),
            final(self)@ == (SchedulerView {
                cpus: old(self)@.cpus.update(
                    cpu as int,
                    CpuView { queue: old(self)@.cpus[cpu as int].queue.push(thread), ..old(self)@.cpus[cpu as int] },
                ),
                ..old(self)@
            }),
    {
        let mut c = self.take_cpu(cpu);
        c.threads.push_back(thread);
        self.put_cpu(cpu, c);
        proof {
            let v = self@;
            assert(v.cpus =~= old(self)@.cpus.update(
                cpu as int,
                CpuView { queue: old(self)@.cpus[cpu as int].queue.push(thread), ..old(self)@.cpus[cpu as int] },
            ));
            assert forall|i: int| 0 <= i < v.cpus.len() implies {
                let cpu = #[trigger] v.cpus[i];
                &&& v.valid_threads(cpu.queue)
                &&& cpu.idle matches Some(t) ==> v.valid_thread(t)
                &&& cpu.current matches Some(t) ==> v.valid_thread(t)
            } by {
                if i != cpu {
                    assert(v.cpus[i] == old(self)@.cpus[i]);
                } else {
                    assert(old(self)@.valid_threads(old(self)@.cpus[i].queue));
                }
            }
        }
    }

    /// The timer of a core with `runnable_threads_count` threads in its run queue, at `uptime`.
    pub fn config_timer(&self, runnable_threads_count: usize, uptime: u64) -> (r: TimerAction)
        requires
            self.wf(),
        ensures
            r == timer_action_spec(runnable_threads_count as nat, lower_waiting_time(self@), uptime),
    {
        let lower = if self.waiting_threads.len() > 0 {
            let t = self.waiting_threads[0];
            match self.states[t] {
                ThreadState::Waiting(time) => Some(time),
                _ => {
                    proof {
                        assert(self@.states[self@.waiting[0] as int] is Waiting);
                    }
                    None
                },
            }
        } else {
            None
        };
        timer_action(runnable_threads_count, lower, uptime)
    }

    /// Move the threads due at `uptime` from the sleeping list to the back of the run queue of
    /// core `cpu`, earliest first, and make them runnable. No sleeping thread is due after.
    pub fn wake_up_waiting_threads(&mut self, cpu: usize, uptime: u64)
        requires
            old(self).wf(),
            cpu < old(self)@.cpus.len(),
        ensures
            final(self).wf(),
            final(self)@ == wake_up_spec(old(self)@, cpu as int, uptime),
            forall|i: int|
                0 <= i < final(self)@.waiting.len() ==> !is_due(
                    wake_time(#[trigger] final(self)@.states[final(self)@.waiting[i] as int]),
                    uptime,
                ),
    {
        let ghost v0 = self@;
        let ghost total = due_prefix(v0.states, v0.waiting, uptime) as int;
        let mut c = self.take_cpu(cpu);
        let ghost w: int = 0;
        proof {
            assert(v0.waiting.skip(0) =~= v0.waiting);
            assert(v0.waiting.take(0) =~= Seq::<ThreadId>::empty());
            assert(make_runnable(v0.states, v0.waiting.take(0)) =~= v0.states);
            assert(v0.cpus[cpu as int].queue + v0.waiting.take(0) =~= v0.cpus[cpu as int].queue);
            lemma_due_prefix_len(v0.states, v0.waiting, uptime);
        }
        while self.waiting_threads.len() > 0
            invariant_except_break
                total == w + due_prefix(v0.states, v0.waiting.skip(w), uptime),
            invariant
                self.ids_ok(),
                v0.wf(),
                cpu < v0.cpus.len(),
                self.cpus@.len() == v0.cpus.len(),
                0 <= w <= total,
                total <= v0.waiting.len(),
                c@ == (CpuView { queue: v0.cpus[cpu as int].queue + v0.waiting.take(w), ..v0.cpus[cpu as int] }),
                self@ == (SchedulerView {
                    states: make_runnable(v0.states, v0.waiting.take(w)),
                    waiting: v0.waiting.skip(w),
                    cpus: v0.cpus.update(cpu as int, CpuView { queue: Seq::empty(), ..v0.cpus[cpu as int] }),
                    ..v0
                }),
            ensures
                w == total,
                self.waiting_threads.len() > 0 ==> !is_due(wake_time(v0.states[v0.waiting[w] as int]), uptime),
            decreases self.waiting_threads.len(),
        {
            let t = self.waiting_threads[0];
            proof {
                assert(v0.waiting.skip(w)[0] == v0.waiting[w]);
                assert(v0.states[v0.waiting[w] as int] is Waiting);
                assert(!v0.waiting.take(w).contains(t)) by {
                    if v0.waiting.take(w).contains(t) {
                        let j = choose|j: int| 0 <= j < w && v0.waiting.take(w)[j] == t;
                        assert(v0.waiting[j] == v0.waiting[w]);
                    }
                }
                assert(self@.states[t as int] == v0.states[t as int]);
            }
            let wake = match self.states[t] {
                ThreadState::Waiting(time) => time,
                _ => 0,
            };
            if wake > WAKE_UP_MARGIN_NS && wake - WAKE_UP_MARGIN_NS > uptime {
                proof {
                    assert(v0.waiting.skip(w).len() > 0);
                    assert(due_prefix(v0.states, v0.waiting.skip(w), uptime) == 0);
                }
                break;
            }
            proof {
                lemma_due_prefix_step(v0.states, v0.waiting, uptime, w);
            }
            self.waiting_threads.pop_front();
            self.states.set(t, ThreadState::Runnable);
            c.threads.push_back(t);
            proof {
                assert(self@.waiting =~= v0.waiting.skip(w + 1));
                assert(v0.waiting.take(w + 1) =~= v0.waiting.take(w).push(t));
                assert(self@.states =~= make_runnable(v0.states, v0.waiting.take(w + 1))) by {
                    assert forall|i: int| 0 <= i < self@.states.len() implies self@.states[i]
                        == make_runnable(v0.states, v0.waiting.take(w + 1))[i] by {
                        let a = v0.waiting.take(w);
                        let b = v0.waiting.take(w + 1);
                        assert(b[w] == t);
                        assert(self@.states.len() == self.states.len());
                        assert((i as ThreadId) as int == i);
                        if i != t {
                            if b.contains(i as ThreadId) {
                                let j = choose|j: int| 0 <= j < b.len() && #[trigger] b[j] == i as ThreadId;
                                assert(j < w);
                                assert(a[j] == i as ThreadId);
                            }
                            if a.contains(i as ThreadId) {
                                let j = choose|j: int| 0 <= j < a.len() && #[trigger] a[j] == i as ThreadId;
                                assert(b[j] == i as ThreadId);
                            }
                        } else {
                            assert(b[w] == t);
                        }
                    }
                }
                assert(c@.queue =~= v0.cpus[cpu as int].queue + v0.waiting.take(w + 1));
                w = w + 1;
            }
        }
        self.put_cpu(cpu, c);
        proof {
            let v = self@;
            let woken = v0.waiting.take(w);
            assert(v == wake_up_spec(v0, cpu as int, uptime)) by {
                assert(v.cpus =~= wake_up_spec(v0, cpu as int, uptime).cpus);
            }
            // the woken threads are not among those still sleeping, nor blocked
            assert forall|i: int| 0 <= i < v.waiting.len() implies v.states[#[trigger] v.waiting[i] as int]
                == v0.states[v.waiting[i] as int] by {
                assert(v.waiting[i] == v0.waiting[w + i]);
                if woken.contains(v.waiting[i]) {
                    let j = choose|j: int| 0 <= j < w && woken[j] == v.waiting[i];
                    assert(v0.waiting[j] == v0.waiting[w + i]);
                }
            }
            assert forall|i: int| 0 <= i < v.blocked.len() implies v.states[#[trigger] v.blocked[i] as int]
                == v0.states[v.blocked[i] as int] by {
                if woken.contains(v.blocked[i]) {
                    let j = choose|j: int| 0 <= j < w && woken[j] == v.blocked[i];
                    assert(v0.states[v0.waiting[j] as int] is Waiting);
                    assert(v0.states[v0.blocked[i] as int] == ThreadState::Blocked);
                }
            }
            assert forall|i: int| 0 <= i < v.waiting.len() implies #[trigger] v.states[v.waiting[i] as int] is Waiting by {
                assert(v.waiting[i] == v0.waiting[w + i]);
            }
            assert forall|i: int, j: int|
                0 <= i <= j < v.waiting.len() implies wake_time(#[trigger] v.states[v.waiting[i] as int])
                    <= wake_time(#[trigger] v.states[v.waiting[j] as int]) by {
                assert(v.waiting[i] == v0.waiting[w + i]);
                assert(v.waiting[j] == v0.waiting[w + j]);
                assert(v.states[v.waiting[i] as int] == v0.states[v.waiting[i] as int]);
                assert(v.states[v.waiting[j] as int] == v0.states[v.waiting[j] as int]);
            }
            assert(v.waiting.no_duplicates()) by {
                assert forall|i: int, j: int| 0 <= i < v.waiting.len() && 0 <= j < v.waiting.len() && i != j
                    implies v.waiting[i] != v.waiting[j] by {
                    assert(v.waiting[i] == v0.waiting[w + i]);
                    assert(v.waiting[j] == v0.waiting[w + j]);
                }
            }
            assert(v.valid_threads(v.waiting)) by {
                assert forall|i: int| 0 <= i < v.waiting.len() implies #[trigger] v.waiting[i] < v.states.len() by {
                    assert(v.waiting[i] == v0.waiting[w + i]);
                }
            }
            assert forall|c: int| 0 <= c < v.cpus.len() implies {
                let cpu = #[trigger] v.cpus[c];
                &&& v.valid_threads(cpu.queue)
                &&& cpu.idle matches Some(t) ==> v.valid_thread(t)
                &&& cpu.current matches Some(t) ==> v.valid_thread(t)
            } by {
                if c != cpu {
                    assert(v.cpus[c] == v0.cpus[c]);
                } else {
                    assert(v0.valid_threads(v0.cpus[c].queue));
                    assert forall|i: int| 0 <= i < v.cpus[c].queue.len() implies #[trigger] v.cpus[c].queue[i] < v.states.len() by {
                        if i >= v0.cpus[c].queue.len() {
                            assert(v.cpus[c].queue[i] == v0.waiting[i - v0.cpus[c].queue.len()]);
                        }
                    }
                }
            }
            // nothing still sleeping is due: the list is sorted and its front is not due
            if v.waiting.len() > 0 {
                assert(v0.waiting.skip(w).len() > 0);
                assert(!is_due(wake_time(v0.states[v0.waiting[w] as int]), uptime)) by {
                    assert(v0.waiting.skip(w)[0] == v0.waiting[w]);
                }
                assert forall|i: int| 0 <= i < v.waiting.len() implies !is_due(
                    wake_time(#[trigger] v.states[v.waiting[i] as int]),
                    uptime,
                ) by {
                    assert(v.waiting[i] == v0.waiting[w + i]);
                    assert(wake_time(v0.states[v0.waiting[w] as int]) <= wake_time(v0.states[v0.waiting[w + i] as int]));
                }
            }
        }
    }

    /// Pick the thread to run next on core `cpu` at `uptime` (see `schedule_spec`), make it the
    /// running thread of the core, and return it with what to do with the timer.
    pub fn schedule(&mut self, cpu: usize, uptime: u64) -> (r: (ThreadId, TimerAction))
        requires
            old(self).wf(),
            can_schedule(old(self)@, cpu as int),
        ensures
            final(self).wf(),
            (final(self)@, r.0) == schedule_spec(old(self)@, cpu as int, uptime),
            r.1 == timer_action_spec(
                final(self)@.cpus[cpu as int].queue.len(),
                lower_waiting_time(final(self)@),
                uptime,
            ),
    {
        let ghost v0 = self@;
        let c = self.cpus[cpu].current_thread.unwrap();
        let idle = self.cpus[cpu].idle_thread.unwrap();
        proof {
            assert(v0.cpus[cpu as int] == self.cpus@[cpu as int]@);
        }
        let rerun = if self.states[c] == ThreadState::Running {
            self.states.set(c, ThreadState::Runnable);
            proof {
                let v = self@;
                assert(v.states =~= v0.states.update(c as int, ThreadState::Runnable));
                assert forall|i: int| 0 <= i < v.waiting.len() implies v.states[#[trigger] v.waiting[i] as int]
                    == v0.states[v.waiting[i] as int] by {
                    assert(v0.states[v0.waiting[i] as int] is Waiting);
                }
                assert forall|i: int| 0 <= i < v.blocked.len() implies v.states[#[trigger] v.blocked[i] as int]
                    == v0.states[v.blocked[i] as int] by {
                    assert(v0.states[v0.blocked[i] as int] == ThreadState::Blocked);
                }
                assert forall|i: int, j: int|
                    0 <= i <= j < v.waiting.len() implies wake_time(#[trigger] v.states[v.waiting[i] as int])
                        <= wake_time(#[trigger] v.states[v.waiting[j] as int]) by {
                    assert(v.states[v.waiting[i] as int] == v0.states[v.waiting[i] as int]);
                    assert(v.states[v.waiting[j] as int] == v0.states[v.waiting[j] as int]);
                }
                assert forall|i: int| 0 <= i < v.waiting.len() implies #[trigger] v.states[v.waiting[i] as int] is Waiting by {
                    assert(v.states[v.waiting[i] as int] == v0.states[v.waiting[i] as int]);
                }
            }
            !self.threads[c].is_idle_thread()
        } else {
            false
        };
        proof {
            assert(self@ == preempt_spec(v0, cpu as int));
            assert(rerun == can_rerun(v0, cpu as int));
        }
        self.wake_up_waiting_threads(cpu, uptime);
        let ghost v1 = self@;
        proof {
            assert(self@.cpus.len() == self.cpus@.len());
        }
        let mut cv = self.take_cpu(cpu);
        if rerun {
            cv.threads.push_back(c);
        }
        let ghost q = cv.threads@;
        proof {
            assert(q.skip(0) =~= q);
            assert(v1.valid_threads(v1.cpus[cpu as int].queue));
            assert(v1.valid_threads(q));
        }
        let mut k: usize = 0;
        while k < cv.threads.len() && self.states[cv.threads[k]] != ThreadState::Runnable
            invariant
                k <= cv.threads@.len(),
                cv.threads@ == q,
                v1.valid_threads(q),
                self.states@ == v1.states,
                self.states@.len() == v1.states.len(),
                first_runnable(v1.states, q) == k + first_runnable(v1.states, q.skip(k as int)),
            decreases cv.threads@.len() - k,
        {
            proof {
                lemma_first_runnable_step(v1.states, q, k as int);
            }
            k += 1;
        }
        proof {
            if k < q.len() {
                assert(q.skip(k as int)[0] == q[k as int]);
            } else {
                assert(q.skip(k as int).len() == 0);
            }
            assert(first_runnable(v1.states, q) == k);
        }
        let next = if k < cv.threads.len() {
            let n = cv.threads[k];
            let rest = cv.threads.split_off(k + 1);
            cv.threads = rest;
            proof {
                assert(cv.threads@ =~= q.skip(k + 1));
            }
            n
        } else {
            cv.threads = VecDeque::new();
            idle
        };
        proof {
            // the thread to run is runnable: neither sleeping nor blocked
            assert(v1.states[next as int] == ThreadState::Runnable);
            assert(v1.valid_thread(next));
        }
        self.states.set(next, ThreadState::Running);
        cv.current_thread = Some(next);
        let len = cv.threads.len();
        proof {
            assert(self@.cpus.len() == self.cpus@.len());
        }
        self.put_cpu(cpu, cv);
        proof {
            let v = self@;
            let (sv, sn) = schedule_spec(v0, cpu as int, uptime);
            assert(v.states =~= sv.states);
            assert(v.cpus =~= sv.cpus);
            assert(v == sv);
            assert forall|i: int| 0 <= i < v.waiting.len() implies v.states[#[trigger] v.waiting[i] as int]
                == v1.states[v.waiting[i] as int] by {
                assert(v1.states[v1.waiting[i] as int] is Waiting);
            }
            assert forall|i: int| 0 <= i < v.blocked.len() implies v.states[#[trigger] v.blocked[i] as int]
                == v1.states[v.blocked[i] as int] by {
                assert(v1.states[v1.blocked[i] as int] == ThreadState::Blocked);
            }
            assert forall|i: int, j: int|
                0 <= i <= j < v.waiting.len() implies wake_time(#[trigger] v.states[v.waiting[i] as int])
                    <= wake_time(#[trigger] v.states[v.waiting[j] as int]) by {
                assert(v.states[v.waiting[i] as int] == v1.states[v.waiting[i] as int]);
                assert(v.states[v.waiting[j] as int] == v1.states[v.waiting[j] as int]);
            }
            assert forall|i: int| 0 <= i < v.waiting.len() implies #[trigger] v.states[v.waiting[i] as int] is Waiting by {
                assert(v.states[v.waiting[i] as int] == v1.states[v.waiting[i] as int]);
            }
            assert forall|i: int| 0 <= i < v.cpus.len() implies {
                let cpu = #[trigger] v.cpus[i];
                &&& v.valid_threads(cpu.queue)
                &&& cpu.idle matches Some(t) ==> v.valid_thread(t)
                &&& cpu.current matches Some(t) ==> v.valid_thread(t)
            } by {
                if i != cpu {
                    assert(v.cpus[i] == v1.cpus[i]);
                } else {
                    assert(v1.cpus[i].idle == v0.cpus[i].idle);
                    assert forall|j: int| 0 <= j < v.cpus[i].queue.len() implies #[trigger] v.cpus[i].queue[j] < v.states.len() by {
                        assert(v.cpus[i].queue[j] == q[j + k + 1]);
                    }
                }
            }
        }
        let timer = self.config_timer(len, uptime);
        (next, timer)
    }

    /// The index of the core `id`, if it is registered.
    pub fn find_cpu(&self, id: u32) -> (r: Option<usize>)
        requires
            self.wf(),
        ensures
            r is Some <==> exists|c: int| 0 <= c < self@.cpus.len() && (#[trigger] self@.cpus[c]).id == id,
            r matches Some(c) ==> c < self@.cpus.len() && c == cpu_index(self@, id) && self@.cpus[c as int].id == id,
    {
        let mut i: usize = 0;
        while i < self.cpus.len()
            invariant
                self.wf(),
                i <= self.cpus@.len(),
                self@.cpus.len() == self.cpus@.len(),
                forall|c: int| 0 <= c < i ==> (#[trigger] self@.cpus[c]).id != id,
            decreases self.cpus@.len() - i,
        {
            if self.cpus[i].id == id {
                proof {
                    assert(self@.cpus[i as int].id == id);
                    let c = cpu_index(self@, id);
                    assert(0 <= c < self@.cpus.len() && self@.cpus[c].id == id);
                    assert(c == i as int);
                }
                return Some(i);
            }
            proof {
                assert(self@.cpus[i as int].id == self.cpus@[i as int].id);
            }
            i += 1;
        }
        None
    }

    /// Start scheduling on the core `cpu_id` at `uptime`: `idle` becomes its idle thread, and
    /// `main`, added to its run queue, runs; on the boot core the thread that destroys exited
    /// threads joins the queue. Returns the thread to run and what to do with the timer.
    pub fn start(&mut self, cpu_id: u32, idle: ThreadId, main: ThreadId, boot_cpu_id: u32, uptime: u64) -> (r: (
        ThreadId,
        TimerAction,
    ))
        requires
            old(self).wf(),
            old(self)@.state == SchedulerState::Initing,
            exists|c: int| 0 <= c < old(self)@.cpus.len() && (#[trigger] old(self)@.cpus[c]).id == cpu_id,
            old(self)@.valid_thread(idle),
            old(self)@.valid_thread(main),
            old(self)@.states[main as int] == ThreadState::Runnable,
            cpu_id == boot_cpu_id ==> ({
                &&& old(self)@.destroyer matches Some(d)
                &&& d != main
                &&& old(self)@.states[d as int] == ThreadState::Runnable
            }),
        ensures
            final(self).wf(),
            ({
                let v = old(self)@;
                let c = cpu_index(v, cpu_id);
                let queue = if cpu_id == boot_cpu_id {
                    v.cpus[c].queue.push(main).push(v.destroyer.unwrap())
                } else {
                    v.cpus[c].queue.push(main)
                };
                final(self)@ == (SchedulerView {
                    state: SchedulerState::Started,
                    states: v.states.update(main as int, ThreadState::Running),
                    cpus: v.cpus.update(c, CpuView { queue, idle: Some(idle), current: Some(main), ..v.cpus[c] }),
                    ..v
                })
            }),
            r.0 == main,
            r.1 == timer_action_spec(1, lower_waiting_time(final(self)@), uptime),
    {
        let ghost v = self@;
        let found = self.find_cpu(cpu_id);
        let ci = found.unwrap();
        proof {
            assert(found == Some(ci));
            assert(ci < self@.cpus.len());
            assert(self@.cpus.len() == self.cpus@.len());
            assert(ci < self.cpus@.len());
        }
        let mut cv = self.take_cpu(ci);
        cv.idle_thread = Some(idle);
        self.put_cpu(ci, cv);
        proof {
            assert forall|i: int| 0 <= i < self@.cpus.len() implies {
                let cpu = #[trigger] self@.cpus[i];
                &&& self@.valid_threads(cpu.queue)
                &&& cpu.idle matches Some(t) ==> self@.valid_thread(t)
                &&& cpu.current matches Some(t) ==> self@.valid_thread(t)
            } by {
                if i != ci {
                    assert(self@.cpus[i] == v.cpus[i]);
                }
            }
            assert forall|i: int, j: int|
                0 <= i < self@.cpus.len() && 0 <= j < self@.cpus.len() && i != j implies (#[trigger] self@.cpus[i]).id
                    != (#[trigger] self@.cpus[j]).id by {
                assert(self@.cpus[i].id == v.cpus[i].id);
                assert(self@.cpus[j].id == v.cpus[j].id);
            }
        }
        self.add_thread(ci, main);
        self.state = SchedulerState::Started;
        self.states.set(main, ThreadState::Running);
        proof {
            assert(self@.cpus.len() == self.cpus@.len());
        }
        let mut cv = self.take_cpu(ci);
        cv.current_thread = Some(main);
        self.put_cpu(ci, cv);
        proof {
            let w = self@;
            assert forall|i: int| 0 <= i < w.waiting.len() implies w.states[#[trigger] w.waiting[i] as int]
                == v.states[w.waiting[i] as int] by {
                assert(v.states[v.waiting[i] as int] is Waiting);
            }
            assert forall|i: int| 0 <= i < w.blocked.len() implies w.states[#[trigger] w.blocked[i] as int]
                == v.states[w.blocked[i] as int] by {
                assert(v.states[v.blocked[i] as int] == ThreadState::Blocked);
            }
            assert forall|i: int, j: int|
                0 <= i <= j < w.waiting.len() implies wake_time(#[trigger] w.states[w.waiting[i] as int])
                    <= wake_time(#[trigger] w.states[w.waiting[j] as int]) by {
                assert(w.states[w.waiting[i] as int] == v.states[w.waiting[i] as int]);
                assert(w.states[w.waiting[j] as int] == v.states[w.waiting[j] as int]);
            }
            assert forall|i: int| 0 <= i < w.waiting.len() implies #[trigger] w.states[w.waiting[i] as int] is Waiting by {
                assert(w.states[w.waiting[i] as int] == v.states[w.waiting[i] as int]);
            }
            assert forall|i: int| 0 <= i < w.cpus.len() implies {
                let cpu = #[trigger] w.cpus[i];
                &&& w.valid_threads(cpu.queue)
                &&& cpu.idle matches Some(t) ==> w.valid_thread(t)
                &&& cpu.current matches Some(t) ==> w.valid_thread(t)
            } by {
                if i != ci {
                    assert(w.cpus[i] == v.cpus[i]);
                }
            }
            assert forall|i: int, j: int|
                0 <= i < w.cpus.len() && 0 <= j < w.cpus.len() && i != j implies (#[trigger] w.cpus[i]).id
                    != (#[trigger] w.cpus[j]).id by {
                assert(w.cpus[i].id == v.cpus[i].id);
                assert(w.cpus[j].id == v.cpus[j].id);
            }
        }
        if cpu_id == boot_cpu_id {
            let d = self.thread_destroyer_of_threads.unwrap();
            self.add_thread(ci, d);
        }
        proof {
            let c = cpu_index(v, cpu_id);
            assert(c == ci);
            assert(self@.cpus =~= v.cpus.update(
                c,
                CpuView {
                    queue: if cpu_id == boot_cpu_id {
                        v.cpus[c].queue.push(main).push(v.destroyer.unwrap())
                    } else {
                        v.cpus[c].queue.push(main)
                    },
                    idle: Some(idle),
                    current: Some(main),
                    ..v.cpus[c]
                },
            ));
            assert(self@.states =~= v.states.update(main as int, ThreadState::Running));
        }
        let timer = self.config_timer(1, uptime);
        (main, timer)
    }
}

/// Whether a thread in state `s` sleeps until `t` or earlier.
fn wakes_by(s: ThreadState, t: u64) -> (r: bool)
    ensures
        r == (s is Waiting && wake_time(s) <= t),
{
    match s {
        ThreadState::Waiting(w) => w <= t,
        _ => false,
    }
}

/// Give the core to another thread: the write that sends the core its own software generated
/// interrupt 0, whose handler runs the scheduler.
pub fn yield_now<C: InterruptsChip>(chip: &C) -> (r: RegWrite)
    ensures
        r == chip.sgi_write(CoreSelection::Me, 0),
{
    chip.send_sgi(CoreSelection::Me, 0)
}

/// The thread running on core `cpu`.
pub fn current_thread(sched: &Scheduler, cpu: usize) -> (r: ThreadId)
    requires
        sched.wf(),
        cpu < sched@.cpus.len(),
        sched@.cpus[cpu as int].current is Some,
    ensures
        Some(r) == sched@.cpus[cpu as int].current,
        sched@.valid_thread(r),
{
    proof {
        assert(sched@.cpus[cpu as int] == sched.cpus@[cpu as int]@);
    }
    sched.cpus[cpu].current_thread.unwrap()
}

/// The process of the thread running on core `cpu`.
pub fn current_process(sched: &Scheduler, cpu: usize) -> (r: ProcessId)
    requires
        sched.wf(),
        cpu < sched@.cpus.len(),
        sched@.cpus[cpu as int].current is Some,
    ensures
        r == sched@.thread_process[sched@.cpus[cpu as int].current.unwrap() as int],
{
    let t = current_thread(sched, cpu);
    sched.thread(t).process()
}

/// A core is ready for its running thread to leave the run: it runs a thread, which runs.
pub open spec fn runs_thread(v: SchedulerView, cpu: int) -> bool {
    &&& 0 <= cpu < v.cpus.len()
    &&& v.cpus[cpu].current matches Some(c)
    &&& v.valid_thread(c)
    &&& v.states[c as int] == ThreadState::Running
}

/// The running thread `c`, not sleeping nor blocked, gets the state `s`; the lists are left
/// as they are.
proof fn lemma_set_running_state(v: SchedulerView, w: SchedulerView, c: ThreadId, s: ThreadState)
    requires
        v.wf(),
        v.valid_thread(c),
        v.states[c as int] == ThreadState::Running,
        w == (SchedulerView { states: v.states.update(c as int, s), ..v }),
    ensures
        forall|i: int| 0 <= i < w.waiting.len() ==> w.states[#[trigger] w.waiting[i] as int] == v.states[w.waiting[i] as int],
        forall|i: int| 0 <= i < w.blocked.len() ==> w.states[#[trigger] w.blocked[i] as int] == v.states[w.blocked[i] as int],
        w.thread_process.len() == w.states.len(),
        w.thread_idle.len() == w.states.len(),
{
    assert forall|i: int| 0 <= i < w.waiting.len() implies w.states[#[trigger] w.waiting[i] as int] == v.states[w.waiting[i] as int] by {
        assert(v.states[v.waiting[i] as int] is Waiting);
    }
    assert forall|i: int| 0 <= i < w.blocked.len() implies w.states[#[trigger] w.blocked[i] as int] == v.states[w.blocked[i] as int] by {
        assert(v.states[v.blocked[i] as int] == ThreadState::Blocked);
    }
}

/// The thread running on core `cpu` exits with `code`: it is marked exited and handed to the
/// thread that destroys exited threads. The caller then yields.
pub fn exit(sched: &mut Scheduler, cpu: usize, code: isize)
    requires
        old(sched).wf(),
        runs_thread(old(sched)@, cpu as int),
    ensures
        final(sched).wf(),
        final(sched)@ == exit_spec(old(sched)@, cpu as int),
{
    let ghost v = sched@;
    let c = current_thread(sched, cpu);
    sched.states.set(c, ThreadState::Exited);
    proof {
        lemma_set_running_state(v, sched@, c, ThreadState::Exited);
    }
    sched.threads_to_destroy.push(c);
    proof {
        let w = sched@;
        assert forall|i: int, j: int|
            0 <= i <= j < w.waiting.len() implies wake_time(#[trigger] w.states[w.waiting[i] as int])
                <= wake_time(#[trigger] w.states[w.waiting[j] as int]) by {
            assert(w.states[w.waiting[i] as int] == v.states[w.waiting[i] as int]);
            assert(w.states[w.waiting[j] as int] == v.states[w.waiting[j] as int]);
        }
        assert forall|i: int| 0 <= i < w.waiting.len() implies #[trigger] w.states[w.waiting[i] as int] is Waiting by {
            assert(w.states[w.waiting[i] as int] == v.states[w.waiting[i] as int]);
        }
        assert forall|i: int| 0 <= i < w.to_destroy.len() implies #[trigger] w.to_destroy[i] < w.states.len() by {
            if i < v.to_destroy.len() {
                assert(w.to_destroy[i] == v.to_destroy[i]);
            }
        }
    }
}

/// The running thread of core `cpu` sleeps `duration` ns from `uptime`: it waits until
/// `uptime + duration`, inserted in the sleeping list after every thread that wakes up at or
/// before that time, so that the list stays in the order in which `wake_up_waiting_threads`
/// takes threads from its front. The caller then yields.
pub fn sleep(sched: &mut Scheduler, cpu: usize, uptime: u64, duration: u64)
    requires
        old(sched).wf(),
        runs_thread(old(sched)@, cpu as int),
        uptime + duration <= u64::MAX,
    ensures
        final(sched).wf(),
        final(sched)@ == sleep_spec(old(sched)@, cpu as int, (uptime + duration) as u64),
        ({
            let v = old(sched)@;
            let w = final(sched)@;
            let c = v.cpus[cpu as int].current.unwrap();
            let p = sleep_pos(v.states, v.waiting, (uptime + duration) as u64) as int;
            &&& p <= v.waiting.len()
            &&& w.waiting.len() == v.waiting.len() + 1
            &&& w.states[c as int] == ThreadState::Waiting((uptime + duration) as u64)
            &&& w.waiting[p] == c
            &&& w.waiting.remove(p) == v.waiting
            &&& w.waiting.no_duplicates()
            &&& forall|i: int, j: int|
                0 <= i <= j < w.waiting.len() ==> wake_time(#[trigger] w.states[w.waiting[i] as int]) <= wake_time(
                    #[trigger] w.states[w.waiting[j] as int],
                )
        }),
{
    let ghost v = sched@;
    let time_point = uptime + duration;
    let mut i: usize = 0;
    proof {
        assert(v.waiting.skip(0) =~= v.waiting);
        lemma_sleep_pos_bound(v.states, v.waiting, time_point);
    }
    while i < sched.waiting_threads.len() && wakes_by(sched.states[sched.waiting_threads[i]], time_point)
        invariant
            sched@ == v,
            v.wf(),
            i <= v.waiting.len(),
            sched.waiting_threads@.len() == v.waiting.len(),
            sleep_pos(v.states, v.waiting, time_point) == i + sleep_pos(v.states, v.waiting.skip(i as int), time_point),
            forall|j: int| 0 <= j < i ==> wake_time(#[trigger] v.states[v.waiting[j] as int]) <= time_point,
        decreases v.waiting.len() - i,
    {
        proof {
            assert(v.states[v.waiting[i as int] as int] is Waiting);
            assert(v.waiting.skip(i as int).drop_first() =~= v.waiting.skip(i + 1));
            assert(v.waiting.skip(i as int)[0] == v.waiting[i as int]);
        }
        i += 1;
    }
    proof {
        if i < v.waiting.len() {
            assert(v.states[v.waiting[i as int] as int] is Waiting);
            assert(v.waiting.skip(i as int)[0] == v.waiting[i as int]);
        }
        assert(sleep_pos(v.states, v.waiting, time_point) == i);
    }
    let c = current_thread(sched, cpu);
    sched.states.set(c, ThreadState::Waiting(time_point));
    proof {
        lemma_set_running_state(v, sched@, c, ThreadState::Waiting(time_point));
    }
    sched.waiting_threads.insert(i, c);
    proof {
        let w = sched@;
        assert(w.waiting =~= v.waiting.insert(i as int, c));
        assert forall|j: int| 0 <= j < w.waiting.len() implies #[trigger] w.states[w.waiting[j] as int] is Waiting
            && (w.waiting[j] != c ==> w.states[w.waiting[j] as int] == v.states[w.waiting[j] as int]) by {
            if j < i {
                assert(w.waiting[j] == v.waiting[j]);
            } else if j > i {
                assert(w.waiting[j] == v.waiting[j - 1]);
            }
        }
        assert forall|j: int, k: int|
            0 <= j <= k < w.waiting.len() implies wake_time(#[trigger] w.states[w.waiting[j] as int])
                <= wake_time(#[trigger] w.states[w.waiting[k] as int]) by {
            if j < i {
                assert(w.waiting[j] == v.waiting[j]);
                if k < i {
                    assert(w.waiting[k] == v.waiting[k]);
                } else if k > i {
                    assert(w.waiting[k] == v.waiting[k - 1]);
                }
            } else if j == i {
                if k > i {
                    assert(w.waiting[k] == v.waiting[k - 1]);
                    assert(v.states[v.waiting[i as int] as int] is Waiting);
                    assert(wake_time(v.states[v.waiting[i as int] as int]) > time_point);
                    assert(wake_time(v.states[v.waiting[i as int] as int]) <= wake_time(v.states[v.waiting[k - 1] as int]));
                }
            } else {
                assert(w.waiting[j] == v.waiting[j - 1]);
                assert(w.waiting[k] == v.waiting[k - 1]);
            }
        }
        assert(w.waiting.no_duplicates()) by {
            assert forall|j: int, k: int| 0 <= j < w.waiting.len() && 0 <= k < w.waiting.len() && j != k
                implies w.waiting[j] != w.waiting[k] by {
                if w.waiting[j] == c && j != i {
                    let jj = if j < i { j } else { j - 1 };
                    assert(v.waiting[jj] == c);
                    assert(v.states[v.waiting[jj] as int] is Waiting);
                }
                if w.waiting[k] == c && k != i {
                    let kk = if k < i { k } else { k - 1 };
                    assert(v.waiting[kk] == c);
                    assert(v.states[v.waiting[kk] as int] is Waiting);
                }
            }
        }
        assert(w.valid_threads(w.waiting)) by {
            assert forall|j: int| 0 <= j < w.waiting.len() implies #[trigger] w.waiting[j] < w.states.len() by {
                if j < i {
                    assert(w.waiting[j] == v.waiting[j]);
                } else if j > i {
                    assert(w.waiting[j] == v.waiting[j - 1]);
                }
            }
        }
    }
}


/// The thread `id`, if it is the thread running on core `cpu` or waits in the run queue of a
/// core.
pub fn get_thread(sched: &Scheduler, cpu: usize, id: ThreadId) -> (r: Option<ThreadId>)
    requires
        sched.wf(),
        cpu < sched@.cpus.len(),
        sched@.cpus[cpu as int].current is Some,
    ensures
        r == if sched@.cpus[cpu as int].current == Some(id) || exists|c: int, i: int|
            0 <= c < sched@.cpus.len() && 0 <= i < sched@.cpus[c].queue.len() && #[trigger] sched@.cpus[c].queue[i]
                == id {
            Some(id)
        } else {
            None
        },
{
    if current_thread(sched, cpu) == id {
        return Some(id);
    }
    let mut c: usize = 0;
    while c < sched.cpus.len()
        invariant
            sched.wf(),
            c <= sched@.cpus.len(),
            sched@.cpus.len() == sched.cpus@.len(),
            forall|d: int, i: int|
                0 <= d < c && 0 <= i < sched@.cpus[d].queue.len() ==> #[trigger] sched@.cpus[d].queue[i] != id,
        decreases sched@.cpus.len() - c,
    {
        let queue = sched.cpus[c].threads();
        proof {
            assert(sched@.cpus[c as int] == sched.cpus@[c as int]@);
        }
        let mut i: usize = 0;
        while i < queue.len()
            invariant
                c < sched@.cpus.len(),
                i <= queue@.len(),
                queue@ == sched@.cpus[c as int].queue,
                forall|j: int| 0 <= j < i ==> #[trigger] queue@[j] != id,
            decreases queue@.len() - i,
        {
            if queue[i] == id {
                proof {
                    assert(sched@.cpus[c as int].queue[i as int] == id);
                }
                return Some(id);
            }
            i += 1;
        }
        c += 1;
    }
    None
}

/// The running thread of core `cpu` is blocked until `unblock_thread`. The caller then yields.
pub fn block_thread(sched: &mut Scheduler, cpu: usize)
    requires
        old(sched).wf(),
        runs_thread(old(sched)@, cpu as int),
    ensures
        final(sched).wf(),
        final(sched)@ == block_spec(old(sched)@, cpu as int),
{
    block_thread_drop(sched, cpu, ());
}

/// Same as `block_thread` but also drop `val` once the thread is in the blocked list, so that
/// nothing unblocks it before `val` (a lock guard, say) is dropped.
pub fn block_thread_drop<T>(sched: &mut Scheduler, cpu: usize, val: T)
    requires
        old(sched).wf(),
        runs_thread(old(sched)@, cpu as int),
    ensures
        final(sched).wf(),
        final(sched)@ == block_spec(old(sched)@, cpu as int),
{
    let ghost v = sched@;
    let c = current_thread(sched, cpu);
    sched.states.set(c, ThreadState::Blocked);
    proof {
        lemma_set_running_state(v, sched@, c, ThreadState::Blocked);
    }
    sched.blocked_threads.push(c);
    {
        let _released = val;
    }
    proof {
        let w = sched@;
        assert(w.blocked =~= v.blocked.push(c));
        assert forall|i: int, j: int|
            0 <= i <= j < w.waiting.len() implies wake_time(#[trigger] w.states[w.waiting[i] as int])
                <= wake_time(#[trigger] w.states[w.waiting[j] as int]) by {
            assert(w.states[w.waiting[i] as int] == v.states[w.waiting[i] as int]);
            assert(w.states[w.waiting[j] as int] == v.states[w.waiting[j] as int]);
        }
        assert forall|i: int| 0 <= i < w.waiting.len() implies #[trigger] w.states[w.waiting[i] as int] is Waiting by {
            assert(w.states[w.waiting[i] as int] == v.states[w.waiting[i] as int]);
        }
        assert forall|i: int| 0 <= i < w.blocked.len() implies #[trigger] w.states[w.blocked[i] as int] == ThreadState::Blocked
            && w.blocked[i] < w.states.len() by {
            if i < v.blocked.len() {
                assert(w.blocked[i] == v.blocked[i]);
                assert(w.states[w.blocked[i] as int] == v.states[w.blocked[i] as int]);
            }
        }
        assert(w.blocked.no_duplicates()) by {
            assert forall|i: int, j: int| 0 <= i < w.blocked.len() && 0 <= j < w.blocked.len() && i != j
                implies w.blocked[i] != w.blocked[j] by {
                if i < v.blocked.len() && j == v.blocked.len() {
                    assert(v.states[v.blocked[i] as int] == ThreadState::Blocked);
                }
                if j < v.blocked.len() && i == v.blocked.len() {
                    assert(v.states[v.blocked[j] as int] == ThreadState::Blocked);
                }
            }
        }
    }
}

/// Unblock the thread `id` and add it to the run queue of core `cpu`. Returns `Err` if the
/// thread isn't blocked.
pub fn unblock_thread(sched: &mut Scheduler, cpu: usize, id: ThreadId) -> (r: Result<(), ()>)
    requires
        old(sched).wf(),
        cpu < old(sched)@.cpus.len(),
    ensures
        final(sched).wf(),
        r is Ok <==> old(sched)@.blocked.contains(id),
        r is Err ==> final(sched)@ == old(sched)@,
        r is Ok ==> final(sched)@ == unblock_spec(old(sched)@, cpu as int, id),
{
    let ghost v = sched@;
    let mut i: usize = 0;
    while i < sched.blocked_threads.len()
        invariant
            sched@ == v,
            i <= v.blocked.len(),
            sched.blocked_threads@ == v.blocked,
            forall|j: int| 0 <= j < i ==> #[trigger] v.blocked[j] != id,
        ensures
            i <= v.blocked.len(),
            sched.blocked_threads@ == v.blocked,
            sched@ == v,
            forall|j: int| 0 <= j < i ==> #[trigger] v.blocked[j] != id,
            i < v.blocked.len() ==> v.blocked[i as int] == id,
        decreases v.blocked.len() - i,
    {
        if sched.blocked_threads[i] == id {
            break;
        }
        i += 1;
    }
    if i == sched.blocked_threads.len() {
        proof {
            assert(!v.blocked.contains(id));
        }
        return Err(());
    }
    proof {
        assert(v.blocked[i as int] == id);
        assert(v.blocked.contains(id));
        assert(v.blocked.index_of(id) == i) by {
            let k = v.blocked.index_of(id);
            assert(v.blocked[k] == id);
        }
    }
    let thread = sched.blocked_threads.swap_remove(i);
    sched.states.set(thread, ThreadState::Runnable);
    proof {
        let w = sched@;
        assert(w.blocked =~= swap_remove_spec(v.blocked, i as int));
        assert forall|j: int| 0 <= j < w.waiting.len() implies w.states[#[trigger] w.waiting[j] as int]
            == v.states[w.waiting[j] as int] by {
            assert(v.states[v.waiting[j] as int] is Waiting);
        }
        assert forall|j: int, k: int|
            0 <= j <= k < w.waiting.len() implies wake_time(#[trigger] w.states[w.waiting[j] as int])
                <= wake_time(#[trigger] w.states[w.waiting[k] as int]) by {
            assert(w.states[w.waiting[j] as int] == v.states[w.waiting[j] as int]);
            assert(w.states[w.waiting[k] as int] == v.states[w.waiting[k] as int]);
        }
        assert forall|j: int| 0 <= j < w.waiting.len() implies #[trigger] w.states[w.waiting[j] as int] is Waiting by {
            assert(w.states[w.waiting[j] as int] == v.states[w.waiting[j] as int]);
        }
        assert forall|j: int| 0 <= j < w.blocked.len() implies #[trigger] w.states[w.blocked[j] as int]
            == ThreadState::Blocked && w.blocked[j] < w.states.len() by {
            let jj = if j == i { v.blocked.len() - 1 } else { j };
            assert(w.blocked[j] == v.blocked[jj]);
            assert(jj != i);
        }
        assert(w.blocked.no_duplicates()) by {
            assert forall|j: int, k: int| 0 <= j < w.blocked.len() && 0 <= k < w.blocked.len() && j != k
                implies w.blocked[j] != w.blocked[k] by {
                let jj = if j == i { v.blocked.len() - 1 } else { j };
                let kk = if k == i { v.blocked.len() - 1 } else { k };
                assert(w.blocked[j] == v.blocked[jj]);
                assert(w.blocked[k] == v.blocked[kk]);
            }
        }
    }
    sched.add_thread(cpu, thread);
    Ok(())
}


/// The threads to destroy are each once in the list, and each in the thread list of its
/// process.
pub open spec fn can_destroy(v: SchedulerView) -> bool {
    &&& v.to_destroy.no_duplicates()
    &&& forall|i: int|
        0 <= i < v.to_destroy.len() ==> v.processes[v.thread_process[#[trigger] v.to_destroy[i] as int] as int].contains(
            v.to_destroy[i],
        )
}

proof fn lemma_swap_remove_keeps(s: Seq<ThreadId>, i: int, x: ThreadId)
    requires
        0 <= i < s.len(),
        s.contains(x),
        s[i] != x,
    ensures
        swap_remove_spec(s, i).contains(x),
{
    let j = choose|j: int| 0 <= j < s.len() && s[j] == x;
    if j == s.len() - 1 {
        assert(swap_remove_spec(s, i)[i] == x);
    } else {
        assert(swap_remove_spec(s, i)[j] == x);
    }
}

proof fn lemma_swap_remove_valid(v: SchedulerView, s: Seq<ThreadId>, i: int)
    requires
        0 <= i < s.len(),
        v.valid_threads(s),
    ensures
        v.valid_threads(swap_remove_spec(s, i)),
{
    assert forall|j: int| 0 <= j < swap_remove_spec(s, i).len() implies #[trigger] swap_remove_spec(s, i)[j]
        < v.states.len() by {
        if j == i {
            assert(swap_remove_spec(s, i)[j] == s[s.len() - 1]);
        } else {
            assert(swap_remove_spec(s, i)[j] == s[j]);
        }
    }
}

impl Scheduler {
    /// What the thread that destroys exited threads does each round: remove each thread to
    /// destroy from the thread list of its process (see `destroy_spec`) and empty the list of
    /// threads to destroy. Returns the processes left without threads, which it does not destroy.
    pub fn destroy_exited_threads(&mut self) -> (r: Vec<ProcessId>)
        requires
            old(self).wf(),
            can_destroy(old(self)@),
        ensures
            final(self).wf(),
            ({
                let v = old(self)@;
                let (ps, emptied) = destroy_spec(v.processes, v.thread_process, v.to_destroy);
                &&& final(self)@ == (SchedulerView { processes: ps, to_destroy: Seq::empty(), ..v })
                &&& r@ == emptied
            }),
    {
        let ghost v = self@;
        let mut emptied: Vec<ProcessId> = Vec::new();
        let mut k: usize = 0;
        proof {
            assert(v.to_destroy.take(0) =~= Seq::<ThreadId>::empty());
        }
        while k < self.threads_to_destroy.len()
            invariant
                self.ids_ok(),
                v.wf(),
                can_destroy(v),
                k <= v.to_destroy.len(),
                self.threads_to_destroy@ == v.to_destroy,
                self.processes@.len() == v.processes.len(),
                ({
                    let (ps, e) = destroy_spec(v.processes, v.thread_process, v.to_destroy.take(k as int));
                    &&& self@ == (SchedulerView { processes: ps, ..v })
                    &&& emptied@ == e
                }),
                forall|i: int|
                    k <= i < v.to_destroy.len() ==> self@.processes[v.thread_process[#[trigger] v.to_destroy[i] as int] as int].contains(
                        v.to_destroy[i],
                    ),
                forall|p: int| 0 <= p < self@.processes.len() ==> v.valid_threads(#[trigger] self@.processes[p]),
            decreases v.to_destroy.len() - k,
        {
            let t = self.threads_to_destroy[k];
            let p = self.threads[t].process();
            proof {
                assert(v.to_destroy.take(k + 1).drop_last() =~= v.to_destroy.take(k as int));
                assert(v.to_destroy.take(k + 1).last() == t);
                assert(self@.processes[p as int] == self.processes@[p as int].thread_list());
            }
            let ghost before = self.processes@;
            let mut process = self.processes.remove(p);
            let ghost list = process.thread_list();
            process.remove_thread(t);
            let ghost i = first_index(list, t);
            proof {
                lemma_first_index(list, t);
            }
            let now_empty = process.thread_count() == 0;
            self.processes.insert(p, process);
            if now_empty {
                emptied.push(p);
            }
            proof {
                assert(self@.processes =~= destroy_spec(v.processes, v.thread_process, v.to_destroy.take(k + 1)).0);
                assert(self.processes@[p as int].id_spec() == p);
                assert forall|q: int| 0 <= q < self.processes@.len() implies (#[trigger] self.processes@[q]).id_spec() == q by {
                    if q != p {
                        assert(self.processes@[q] == before[q]);
                    }
                }
                assert forall|j: int|
                    k + 1 <= j < v.to_destroy.len() implies self@.processes[v.thread_process[#[trigger] v.to_destroy[j] as int] as int].contains(
                        v.to_destroy[j],
                    ) by {
                    let tj = v.to_destroy[j];
                    assert(tj != t);
                    if v.thread_process[tj as int] == p {
                        lemma_swap_remove_keeps(list, i, tj);
                    }
                }
                assert forall|q: int| 0 <= q < self@.processes.len() implies v.valid_threads(#[trigger] self@.processes[q]) by {
                    if q == p {
                        lemma_swap_remove_valid(v, list, i);
                    }
                }
            }
            k += 1;
        }
        let ghost pre = self@;
        self.threads_to_destroy.clear();
        proof {
            assert(v.to_destroy.take(k as int) =~= v.to_destroy);
            let w = self@;
            assert(w.processes == pre.processes);
            assert forall|q: int| 0 <= q < w.processes.len() implies w.valid_threads(#[trigger] w.processes[q]) by {
                assert(v.valid_threads(w.processes[q]));
            }
        }
        emptied
    }
}

} // verus!
