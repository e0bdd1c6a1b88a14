use vstd::prelude::*;
use crate::config::{BIG_STRIDE, MAX_STRIDE};
use crate::task::TaskControlBlock;

verus! {

/// The stride increment of one dispatch at the given priority.
pub open spec fn pass_of(priority: usize) -> int {
    BIG_STRIDE as int / priority as int
}

/// The task after one dispatch: its stride grows by its pass; where that reaches
/// `MAX_STRIDE` the counter wraps and the task is marked as overflowed.
pub open spec fn advanced(t: TaskControlBlock) -> TaskControlBlock {
    let s = t.stride as int + pass_of(t.priority);
    if s >= MAX_STRIDE as int {
        TaskControlBlock { stride: (s - MAX_STRIDE as int) as u64, is_overflow: true, ..t }
    } else {
        TaskControlBlock { stride: s as u64, ..t }
    }
}

/// The task with its overflow mark taken off.
pub open spec fn cleared(t: TaskControlBlock) -> TaskControlBlock {
    TaskControlBlock { is_overflow: false, ..t }
}

/// Every task in the queue has wrapped its counter in the current epoch.
pub open spec fn all_overflowed(q: Seq<TaskControlBlock>) -> bool {
    forall|i: int| 0 <= i < q.len() ==> (#[trigger] q[i]).is_overflow
}

/// The queue as the selection sees it: where every task has overflowed a new epoch
/// begins and all marks are taken off, otherwise the queue as it stands.
pub open spec fn epoch_base(q: Seq<TaskControlBlock>) -> Seq<TaskControlBlock> {
    if all_overflowed(q) {
        q.map_values(|t: TaskControlBlock| cleared(t))
    } else {
        q
    }
}

/// `idx` is the first position that holds the least stride among the tasks without mark.
pub open spec fn is_winner(q: Seq<TaskControlBlock>, idx: int) -> bool {
    &&& 0 <= idx < q.len()
    &&& !q[idx].is_overflow
    &&& forall|j: int|
        0 <= j < q.len() && !(#[trigger] q[j]).is_overflow ==> q[idx].stride <= q[j].stride
    &&& forall|j: int| 0 <= j < idx && !(#[trigger] q[j]).is_overflow ==> q[idx].stride < q[j].stride
}

/// The position that the selection picks.
pub open spec fn winner(q: Seq<TaskControlBlock>) -> int {
    choose|idx: int| is_winner(q, idx)
}

/// A queue has at most one winning position.
pub proof fn lemma_winner_unique(q: Seq<TaskControlBlock>, a: int, b: int)
    requires
        is_winner(q, a),
        is_winner(q, b),
    ensures
        a == b,
        winner(q) == a,
{
    if a < b {
        assert(!q[a].is_overflow);
    } else if b < a {
        assert(!q[b].is_overflow);
    }
    let w = winner(q);
    if w < a {
        assert(!q[w].is_overflow);
    } else if a < w {
        assert(!q[a].is_overflow);
    }
}

/// The selection sees the tasks of the queue in place, each at most without its mark.
pub proof fn lemma_epoch_base(q: Seq<TaskControlBlock>)
    ensures
        epoch_base(q).len() == q.len(),
        forall|i: int|
            0 <= i < q.len() ==> (#[trigger] epoch_base(q)[i]) == q[i] || epoch_base(q)[i]
                == cleared(q[i]),
{
}

/// One dispatch leaves a well-formed task well formed.
pub proof fn lemma_advanced_wf(t: TaskControlBlock)
    requires
        t.wf(),
    ensures
        advanced(t).wf(),
        0 <= pass_of(t.priority) <= BIG_STRIDE / 2,
{
    let p = t.priority as int;
    assert(0 <= BIG_STRIDE as int / p <= BIG_STRIDE as int / 2) by (nonlinear_arith)
        requires
            p >= 2,
    ;
}

/// The ready queue and the stride scheduler that selects from it.
pub struct TaskManager {
    pub ready_queue: Vec<TaskControlBlock>,
}

impl TaskManager {
    /// The ready tasks in queue order.
    pub open spec fn view(&self) -> Seq<TaskControlBlock> {
        self.ready_queue@
    }

    pub open spec fn wf(&self) -> bool {
        forall|i: int| 0 <= i < self.ready_queue@.len() ==> (#[trigger] self.ready_queue@[i]).wf()
    }

    /// A scheduler with an empty ready queue.
    pub fn new() -> (m: Self)
        ensures
            m@ == Seq::<TaskControlBlock>::empty(),
            m.wf(),
    {
        Self { ready_queue: Vec::new() }
    }

    /// Appends a task to the ready queue.
    pub fn add(&mut self, task: TaskControlBlock)
        ensures
            final(self)@ == old(self)@.push(task),
            old(self).wf() && task.wf() ==> final(self).wf(),
    {
        self.ready_queue.push(task);
    }

    /// Takes the next task to run out of the ready queue.
    ///
    /// The task chosen is the first one with the least stride among those that have not
    /// overflowed in this epoch. Where every task has overflowed, all marks are taken off
    /// first. The chosen task leaves with its stride advanced by its pass.
    pub fn fetch(&mut self) -> (r: Option<TaskControlBlock>)
        requires
            old(self).wf(),
        ensures
            final(self).wf(),
            old(self)@.len() == 0 ==> r.is_none() && final(self)@ == old(self)@,
            old(self)@.len() > 0 ==> {
                let base = epoch_base(old(self)@);
                let w = winner(base);
                &&& is_winner(base, w)
                &&& r == Some(advanced(base[w]))
                &&& final(self)@ == base.remove(w)
                &&& advanced(base[w]).wf()
            },
    {
        let n: usize = self.ready_queue.len();
        let mut mi: u64 = MAX_STRIDE;
        let mut index: usize = 0;
        let mut i: usize = 0;
        while i < n
            invariant
                n == self.ready_queue@.len(),
                self.wf(),
                0 <= i <= n,
                mi <= MAX_STRIDE,
                mi == MAX_STRIDE ==> forall|k: int|
                    0 <= k < i ==> (#[trigger] self.ready_queue@[k]).is_overflow,
                mi < MAX_STRIDE ==> {
                    &&& index < i
                    &&& !self.ready_queue@[index as int].is_overflow
                    &&& self.ready_queue@[index as int].stride == mi
                    &&& forall|k: int|
                        0 <= k < i && !(#[trigger] self.ready_queue@[k]).is_overflow ==> mi
                            <= self.ready_queue@[k].stride
                    &&& forall|k: int|
                        0 <= k < index && !(#[trigger] self.ready_queue@[k]).is_overflow ==> mi
                            < self.ready_queue@[k].stride
                },
            decreases n - i,
        {
            assert(self.ready_queue@[i as int].wf());
            let stride: u64 = self.ready_queue[i].stride;
            let is_overflow: bool = self.ready_queue[i].is_overflow;
            if !is_overflow && stride < mi {
                mi = stride;
                index = i;
            }
            i += 1;
        }
        if n > 0 && mi == MAX_STRIDE {
            assert(all_overflowed(old(self)@));
            i = 0;
            while i < n
                invariant
                    n == self.ready_queue@.len(),
                    n == old(self)@.len(),
                    old(self).wf(),
                    0 <= i <= n,
                    mi <= MAX_STRIDE,
                    forall|k: int| 0 <= k < i ==> #[trigger] self.ready_queue@[k] == cleared(old(self)@[k]),
                    forall|k: int| i <= k < n ==> #[trigger] self.ready_queue@[k] == old(self)@[k],
                    mi == MAX_STRIDE ==> i == 0,
                    mi < MAX_STRIDE ==> {
                        &&& index < i
                        &&& self.ready_queue@[index as int].stride == mi
                        &&& forall|k: int|
                            0 <= k < i ==> mi <= (#[trigger] self.ready_queue@[k]).stride
                        &&& forall|k: int|
                            0 <= k < index ==> mi < (#[trigger] self.ready_queue@[k]).stride
                    },
                decreases n - i,
            {
                assert(old(self)@[i as int].wf());
                let stride: u64 = self.ready_queue[i].stride;
                self.ready_queue[i].is_overflow = false;
                if stride < mi {
                    mi = stride;
                    index = i;
                }
                i += 1;
            }
            assert(self.ready_queue@ =~= epoch_base(old(self)@));
        } else {
            assert(n > 0 ==> !all_overflowed(old(self)@)) by {
                if n > 0 {
                    assert(!self.ready_queue@[index as int].is_overflow);
                }
            }
        }
        if mi == MAX_STRIDE {
            None
        } else {
            let ghost base = self.ready_queue@;
            proof {
                assert(base == epoch_base(old(self)@));
                assert forall|k: int| 0 <= k < base.len() implies (#[trigger] base[k]).wf() by {
                    assert(old(self)@[k].wf());
                }
                assert(is_winner(base, index as int));
                lemma_winner_unique(base, index as int, index as int);
                lemma_advanced_wf(base[index as int]);
            }
            let priority: usize = self.ready_queue[index].priority;
            let pass: u64 = BIG_STRIDE / (priority as u64);
            self.ready_queue[index].stride += pass;
            if self.ready_queue[index].stride >= MAX_STRIDE {
                self.ready_queue[index].is_overflow = true;
                self.ready_queue[index].stride -= MAX_STRIDE;
            }
            assert(self.ready_queue@[index as int] == advanced(base[index as int]));
            let task = self.ready_queue.remove(index);
            assert(self.ready_queue@ =~= base.remove(index as int));
            Some(task)
        }
    }
}

/// Adds a task to the ready queue of `manager`.
pub fn add_task(manager: &mut TaskManager, task: TaskControlBlock)
    ensures
        final(manager)@ == old(manager)@.push(task),
        old(manager).wf() && task.wf() ==> final(manager).wf(),
{
    manager.add(task);
}

/// Takes the next task to run out of the ready queue of `manager`.
pub fn fetch_task(manager: &mut TaskManager) -> (r: Option<TaskControlBlock>)
    requires
        old(manager).wf(),
    ensures
        final(manager).wf(),
        old(manager)@.len() == 0 ==> r.is_none() && final(manager)@ == old(manager)@,
        old(manager)@.len() > 0 ==> {
            let base = epoch_base(old(manager)@);
            let w = winner(base);
            &&& is_winner(base, w)
            &&& r == Some(advanced(base[w]))
            &&& final(manager)@ == base.remove(w)
            &&& advanced(base[w]).wf()
        },
{
    manager.fetch()
}

} // verus!
