//! The ready queue of the scheduler: each waiting task carries the rank by
//! which the scheduler orders tasks, and the task of greatest rank runs next.
use vstd::prelude::*;
use vstd::multiset::Multiset;

verus! {

broadcast use vstd::seq_lib::group_to_multiset_ensures;

/// A task waiting to run: its rank in the scheduler's order, and the task.
pub type ReadyTask = (u64, usize);

/// The ready queue of the stride scheduler.
pub struct StrideTaskManager {
    stride_queue: Vec<ReadyTask>,
}

impl StrideTaskManager {
    /// The waiting tasks.
    pub closed spec fn tasks(&self) -> Multiset<ReadyTask> {
        self.stride_queue@.to_multiset()
    }

    /// Create an empty StrideTaskManager
    pub fn new() -> (r: Self)
        ensures
            r.tasks() == Multiset::<ReadyTask>::empty(),
    {
        let r = StrideTaskManager { stride_queue: Vec::new() };
        assert(r.stride_queue@ =~= Seq::<ReadyTask>::empty());
        r
    }

    /// Number of waiting tasks.
    pub fn len(&self) -> (r: usize)
        ensures
            r == self.tasks().len(),
    {
        self.stride_queue.len()
    }

    /// Add process back to ready queue
    pub fn add(&mut self, task: ReadyTask)
        ensures
            final(self).tasks() == old(self).tasks().insert(task),
    {
        self.stride_queue.push(task);
    }

    /// Take a process out of the ready queue: one of greatest rank; `None`
    /// when no task waits.
    pub fn fetch(&mut self) -> (r: Option<ReadyTask>)
        ensures
            old(self).tasks().len() == 0 ==> r is None && final(self).tasks() == old(self).tasks(),
            old(self).tasks().len() > 0 ==> {
                &&& r matches Some(t)
                &&& old(self).tasks().contains(t)
                &&& final(self).tasks() == old(self).tasks().remove(t)
                &&& forall|u: ReadyTask| #[trigger] old(self).tasks().contains(u) ==> u.0 <= t.0
            },
    {
        let n = self.stride_queue.len();
        if n == 0 {
            return None;
        }
        let mut best: usize = 0;
        let mut i: usize = 1;
        while i < n
            invariant
                n == self.stride_queue@.len(),
                self.stride_queue == old(self).stride_queue,
                best < i <= n,
                forall|j: int| 0 <= j < i ==> #[trigger] self.stride_queue@[j].0 <= self.stride_queue@[best as int].0,
            decreases n - i,
        {
            if self.stride_queue[i].0 > self.stride_queue[best].0 {
                best = i;
            }
            i += 1;
        }
        let ghost q = self.stride_queue@;
        let t = self.stride_queue.remove(best);
        proof {
            assert(q.to_multiset().contains(t)) by {
                assert(q[best as int] == t);
            }
            assert forall|u: ReadyTask| #[trigger] q.to_multiset().contains(u) implies u.0 <= t.0 by {
                assert(q.contains(u));
                let j = choose|j: int| 0 <= j < q.len() && q[j] == u;
                assert(q[j].0 <= q[best as int].0);
            }
        }
        Some(t)
    }
}

} // verus!
