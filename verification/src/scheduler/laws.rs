use vstd::prelude::*;

use super::thread::{ThreadId, ThreadState};
use super::{
    block_spec, can_rerun, can_schedule, due_prefix, first_runnable, is_due, make_runnable,
    preempt_spec, runs_thread, schedule_spec, unblock_spec, wake_time, wake_up_spec, CpuView,
    SchedulerView,
};

verus! {

/// A thread that blocks and is then unblocked is runnable again, at the back of the run
/// queue it is unblocked to, and the blocked list is as it was before it blocked.
pub proof fn lemma_block_then_unblock(v: SchedulerView, cpu: int, to: int)
    requires
        v.wf(),
        runs_thread(v, cpu),
        0 <= to < v.cpus.len(),
    ensures
        ({
            let c = v.cpus[cpu].current.unwrap();
            let b = block_spec(v, cpu);
            &&& b.blocked.contains(c)
            &&& unblock_spec(b, to, c) == (SchedulerView {
                states: v.states.update(c as int, ThreadState::Runnable),
                cpus: v.cpus.update(to, CpuView { queue: v.cpus[to].queue.push(c), ..v.cpus[to] }),
                ..v
            })
        }),
{
    let c = v.cpus[cpu].current.unwrap();
    let b = block_spec(v, cpu);
    let n = v.blocked.len() as int;
    assert(b.blocked[n] == c);
    assert(!v.blocked.contains(c)) by {
        if v.blocked.contains(c) {
            let j = choose|j: int| 0 <= j < v.blocked.len() && v.blocked[j] == c;
            assert(v.states[v.blocked[j] as int] == ThreadState::Blocked);
        }
    }
    let k = b.blocked.index_of(c);
    assert(k == n) by {
        assert(0 <= k < b.blocked.len() && b.blocked[k] == c);
        if k < n {
            assert(v.blocked[k] == c);
        }
    }
    let u = unblock_spec(b, to, c);
    assert(u.blocked =~= v.blocked);
    assert(u.states =~= v.states.update(c as int, ThreadState::Runnable));
}

/// In a consistent scheduler, the sleeping threads due at `uptime` are the first ones.
proof fn lemma_due_prefix_exact(states: Seq<ThreadState>, waiting: Seq<ThreadId>, uptime: u64, i: int)
    requires
        0 <= i < waiting.len(),
        forall|a: int, b: int|
            0 <= a <= b < waiting.len() ==> wake_time(#[trigger] states[waiting[a] as int]) <= wake_time(
                #[trigger] states[waiting[b] as int],
            ),
    ensures
        i < due_prefix(states, waiting, uptime) <==> is_due(wake_time(states[waiting[i] as int]), uptime),
    decreases waiting.len(),
{
    let first_due = is_due(wake_time(states[waiting[0] as int]), uptime);
    if i > 0 && first_due {
        let rest = waiting.drop_first();
        assert forall|a: int, b: int| 0 <= a <= b < rest.len() implies wake_time(#[trigger] states[rest[a] as int])
            <= wake_time(#[trigger] states[rest[b] as int]) by {
            assert(rest[a] == waiting[a + 1]);
            assert(rest[b] == waiting[b + 1]);
        }
        assert(rest[i - 1] == waiting[i]);
        lemma_due_prefix_exact(states, rest, uptime, i - 1);
    }
    if i > 0 && !first_due {
        assert(wake_time(states[waiting[0] as int]) <= wake_time(states[waiting[i] as int]));
    }
}

/// A wake up makes a sleeping thread runnable exactly when it is due: at most
/// `WAKE_UP_MARGIN_NS` before the uptime.
pub proof fn lemma_wake_up_exactly_due(v: SchedulerView, cpu: int, uptime: u64, i: int)
    requires
        v.wf(),
        0 <= cpu < v.cpus.len(),
        0 <= i < v.waiting.len(),
    ensures
        ({
            let t = v.waiting[i];
            let w = wake_up_spec(v, cpu, uptime);
            &&& (w.states[t as int] == ThreadState::Runnable <==> is_due(wake_time(v.states[t as int]), uptime))
            &&& (w.waiting.contains(t) <==> !is_due(wake_time(v.states[t as int]), uptime))
        }),
{
    let t = v.waiting[i];
    let n = due_prefix(v.states, v.waiting, uptime) as int;
    super::lemma_due_prefix_len(v.states, v.waiting, uptime);
    lemma_due_prefix_exact(v.states, v.waiting, uptime, i);
    let woken = v.waiting.take(n);
    let w = wake_up_spec(v, cpu, uptime);
    assert((t as int) < v.states.len());
    assert(((t as int) as ThreadId) == t);
    if i < n {
        assert(woken[i] == t);
        assert(woken.contains(t));
    } else {
        assert(!woken.contains(t)) by {
            if woken.contains(t) {
                let j = choose|j: int| 0 <= j < woken.len() && woken[j] == t;
                assert(v.waiting[j] == v.waiting[i]);
            }
        }
        assert(v.states[t as int] is Waiting);
        assert(w.waiting[i - n] == t);
    }
    if w.waiting.contains(t) {
        let j = choose|j: int| 0 <= j < w.waiting.len() && w.waiting[j] == t;
        assert(v.waiting[j + n] == v.waiting[i]);
    }
}

/// The thread `schedule` runs next is running on the core after; it was runnable, or it is the
/// idle thread and no thread of the run queue was runnable.
pub proof fn lemma_schedule_runs_runnable(v: SchedulerView, cpu: int, uptime: u64)
    requires
        v.wf(),
        can_schedule(v, cpu),
    ensures
        ({
            let (w, next) = schedule_spec(v, cpu, uptime);
            let v1 = wake_up_spec(preempt_spec(v, cpu), cpu, uptime);
            let q = if can_rerun(v, cpu) {
                v1.cpus[cpu].queue.push(v.cpus[cpu].current.unwrap())
            } else {
                v1.cpus[cpu].queue
            };
            &&& w.states[next as int] == ThreadState::Running
            &&& w.cpus[cpu].current == Some(next)
            &&& (next == v.cpus[cpu].idle.unwrap() || v1.states[next as int] == ThreadState::Runnable)
            &&& (next == v.cpus[cpu].idle.unwrap() && first_runnable(v1.states, q) == q.len() ==> forall|i: int|
                0 <= i < q.len() ==> v1.states[#[trigger] q[i] as int] != ThreadState::Runnable)
        }),
{
    let v1 = wake_up_spec(preempt_spec(v, cpu), cpu, uptime);
    let c = v.cpus[cpu].current.unwrap();
    let q = if can_rerun(v, cpu) {
        v1.cpus[cpu].queue.push(c)
    } else {
        v1.cpus[cpu].queue
    };
    lemma_first_runnable_props(v1.states, q);
    let (w, next) = schedule_spec(v, cpu, uptime);
    assert((next as int) < v.states.len()) by {
        let k = first_runnable(v1.states, q) as int;
        if k < q.len() {
            assert(v.valid_threads(v.cpus[cpu].queue));
            let p = preempt_spec(v, cpu);
            let woken_n = due_prefix(p.states, p.waiting, uptime) as int;
            super::lemma_due_prefix_len(p.states, p.waiting, uptime);
            if k < v.cpus[cpu].queue.len() {
                assert(q[k] == v.cpus[cpu].queue[k]);
            } else if k < v.cpus[cpu].queue.len() + woken_n {
                assert(q[k] == v.waiting[k - v.cpus[cpu].queue.len()]);
            }
        }
    }
}

/// The first runnable thread of `q` is runnable, and no thread before it is.
proof fn lemma_first_runnable_props(states: Seq<ThreadState>, q: Seq<ThreadId>)
    ensures
        first_runnable(states, q) <= q.len(),
        first_runnable(states, q) < q.len() ==> states[q[first_runnable(states, q) as int] as int]
            == ThreadState::Runnable,
        forall|i: int| 0 <= i < first_runnable(states, q) ==> states[#[trigger] q[i] as int] != ThreadState::Runnable,
    decreases q.len(),
{
    if q.len() > 0 && states[q[0] as int] != ThreadState::Runnable {
        let rest = q.drop_first();
        lemma_first_runnable_props(states, rest);
        assert forall|i: int| 0 <= i < first_runnable(states, q) implies states[#[trigger] q[i] as int]
            != ThreadState::Runnable by {
            if i > 0 {
                assert(q[i] == rest[i - 1]);
            }
        }
        if first_runnable(states, q) < q.len() {
            assert(q[first_runnable(states, q) as int] == rest[first_runnable(states, rest) as int]);
        }
    }
}

} // verus!
