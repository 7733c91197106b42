use vstd::prelude::*;

use super::thread::ThreadId;

verus! {

pub type ProcessId = usize;

/// The index of the first `x` in `s` (the length of `s` if there is none).
pub open spec fn first_index(s: Seq<ThreadId>, x: ThreadId) -> int
    decreases s.len(),
{
    if s.len() == 0 {
        0
    } else if s[0] == x {
        0
    } else {
        1 + first_index(s.drop_first(), x)
    }
}

/// The first `x` of a sequence that holds one is at `first_index`.
pub proof fn lemma_first_index(s: Seq<ThreadId>, x: ThreadId)
    requires
        s.contains(x),
    ensures
        0 <= first_index(s, x) < s.len(),
        s[first_index(s, x)] == x,
        forall|j: int| 0 <= j < first_index(s, x) ==> s[j] != x,
    decreases s.len(),
{
    if s[0] != x {
        let j = choose|j: int| 0 <= j < s.len() && s[j] == x;
        assert(s.drop_first()[j - 1] == x);
        lemma_first_index(s.drop_first(), x);
        assert forall|j: int| 0 <= j < first_index(s, x) implies s[j] != x by {
            if j > 0 {
                assert(s[j] == s.drop_first()[j - 1]);
            }
        }
    }
}

/// A process: its id and its threads.
pub struct Process {
    id: ProcessId,
    pub threads: Vec<ThreadId>,
}

impl Process {
    pub closed spec fn id_spec(&self) -> ProcessId {
        self.id
    }

    pub closed spec fn thread_list(&self) -> Seq<ThreadId> {
        self.threads@
    }

    /// The process `id`, without threads.
    pub fn new(id: ProcessId) -> (r: Self)
        ensures
            r.id_spec() == id,
            r.thread_list() == Seq::<ThreadId>::empty(),
    {
        Process { id, threads: Vec::new() }
    }

    pub fn id(&self) -> (r: ProcessId)
        ensures
            r == self.id_spec(),
    {
        self.id
    }

    pub fn add_thread(&mut self, thread: ThreadId)
        ensures
            final(self).id_spec() == old(self).id_spec(),
            final(self).thread_list() == old(self).thread_list().push(thread),
    {
        self.threads.push(thread);
    }

    /// Remove `thread` from the threads of the process: the last thread takes its place.
    pub fn remove_thread(&mut self, thread: ThreadId)
        requires
            old(self).thread_list().contains(thread),
        ensures
            final(self).id_spec() == old(self).id_spec(),
            ({
                let l = old(self).thread_list();
                final(self).thread_list() == l.update(first_index(l, thread), l.last()).drop_last()
            }),
    {
        let ghost list = self.threads@;
        let mut i: usize = 0;
        proof {
            assert(list.skip(0) =~= list);
            if i == list.len() {
                let j = choose|j: int| 0 <= j < list.len() && list[j] == thread;
            }
        }
        while i < self.threads.len()
            invariant
                i <= list.len(),
                self.threads@ == list,
                list.contains(thread),
                forall|j: int| 0 <= j < i ==> #[trigger] list[j] != thread,
                first_index(list, thread) == i + first_index(list.skip(i as int), thread),
            ensures
                i < list.len(),
                list[i as int] == thread,
                first_index(list, thread) == i,
            decreases list.len() - i,
        {
            if self.threads[i] == thread {
                proof {
                    assert(list.skip(i as int)[0] == thread);
                }
                break;
            }
            proof {
                assert(list.skip(i as int).drop_first() =~= list.skip(i + 1));
                assert(list.skip(i as int)[0] == list[i as int]);
            }
            i += 1;
        }
        self.threads.swap_remove(i);
    }

    pub fn thread_count(&self) -> (r: usize)
        ensures
            r == self.thread_list().len(),
    {
        self.threads.len()
    }
}

} // verus!
