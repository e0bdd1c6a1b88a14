use vstd::prelude::*;
use crate::config::{BIG_STRIDE, DEFAULT_PRIORITY, MAX_IMAGE_SIZE, MAX_SYSCALL_NUM};
use crate::manager::{
    add_task, advanced, epoch_base, fetch_task, is_winner, lemma_advanced_wf, lemma_epoch_base,
    winner, TaskManager,
};
use crate::mm::{MemorySet, Page};
use crate::table::{
    has_pid, lemma_rearranged, lemma_unreferenced, referenced, same_identity, table_wf,
};
use crate::task::{TaskControlBlock, TaskStatus};

verus! {

/// A task that may be missing, as a sequence of one task or none.
pub open spec fn option_seq(t: Option<TaskControlBlock>) -> Seq<TaskControlBlock> {
    match t {
        Some(x) => seq![x],
        None => Seq::empty(),
    }
}

/// The task that the scheduler dispatches from the ready queue `q`, now running.
pub open spec fn dispatched(q: Seq<TaskControlBlock>) -> Option<TaskControlBlock> {
    if q.len() == 0 {
        None
    } else {
        let base = epoch_base(q);
        Some(TaskControlBlock { status: TaskStatus::Running, ..advanced(base[winner(base)]) })
    }
}

/// The ready queue `q` after the scheduler has dispatched a task from it.
pub open spec fn remaining(q: Seq<TaskControlBlock>) -> Seq<TaskControlBlock> {
    if q.len() == 0 {
        q
    } else {
        let base = epoch_base(q);
        base.remove(winner(base))
    }
}

/// The runnable tasks after one of them was dispatched, ran and yielded: the chosen
/// task has left its place and stands at the back, its stride advanced.
pub open spec fn yield_step(q: Seq<TaskControlBlock>) -> Seq<TaskControlBlock> {
    remaining(q).push(TaskControlBlock { status: TaskStatus::Ready, ..dispatched(q).unwrap() })
}

/// What is left of a task that has exited with `code`: its control block, marked as a
/// zombie, with the exit code recorded and the address space released.
pub open spec fn is_zombie_of(z: TaskControlBlock, t: TaskControlBlock, code: i32) -> bool {
    &&& z == (TaskControlBlock {
        status: TaskStatus::Zombie,
        exit_code: code,
        memory_set: z.memory_set,
        ..t
    })
    &&& z.memory_set@ == Map::<int, Page>::empty()
}

/// Dispatching from the ready queue `q` keeps the invariant of the tasks that exist, the
/// states of the tasks that stay in the queue, and every bound on the start times.
pub(crate) proof fn lemma_dispatch(
    z: Seq<TaskControlBlock>,
    q: Seq<TaskControlBlock>,
    next_pid: usize,
    bound: int,
)
    requires
        table_wf(z + q, next_pid),
        q.len() > 0,
        is_winner(epoch_base(q), winner(epoch_base(q))),
        forall|i: int| 0 <= i < q.len() ==> (#[trigger] q[i]).status == TaskStatus::Ready,
        forall|i: int| 0 <= i < (z + q).len() ==> (#[trigger] (z + q)[i]).start_time <= bound,
    ensures
        dispatched(q).is_some(),
        dispatched(q).unwrap().wf(),
        dispatched(q).unwrap().status == TaskStatus::Running,
        remaining(q).len() == q.len() - 1,
        table_wf(z + remaining(q) + option_seq(dispatched(q)), next_pid),
        forall|i: int|
            0 <= i < remaining(q).len() ==> (#[trigger] remaining(q)[i]).status
                == TaskStatus::Ready && remaining(q)[i].wf(),
        forall|i: int|
            0 <= i < (z + remaining(q) + option_seq(dispatched(q))).len() ==> (#[trigger] (z
                + remaining(q) + option_seq(dispatched(q)))[i]).start_time <= bound,
{
    let base = epoch_base(q);
    let w = winner(base);
    let d = dispatched(q).unwrap();
    let s1 = z + q;
    let s2 = z + remaining(q) + option_seq(dispatched(q));
    let zl = z.len() as int;
    let ql = q.len() as int;
    lemma_epoch_base(q);
    assert forall|m: int| 0 <= m < ql implies (#[trigger] base[m]).wf() && same_identity(
        base[m],
        q[m],
    ) && base[m].status == q[m].status && base[m].start_time == q[m].start_time by {
        assert(s1[zl + m] == q[m]);
        assert(s1[zl + m].wf());
    }
    lemma_advanced_wf(base[w]);
    let f = |i: int|
        if i < zl {
            i
        } else if i < zl + ql - 1 {
            if i - zl < w {
                i
            } else {
                i + 1
            }
        } else {
            zl + w
        };
    let g = |k: int|
        if k < zl {
            k
        } else if k - zl == w {
            zl + ql - 1
        } else if k - zl < w {
            k
        } else {
            k - 1
        };
    assert forall|i: int| 0 <= i < s2.len() implies 0 <= #[trigger] f(i) < s1.len() && s2[i].wf()
        && same_identity(s2[i], s1[f(i)]) && s2[i].start_time <= bound by {
        if i < zl {
            assert(s2[i] == z[i]);
            assert(s1[i] == z[i]);
            assert(s1[i].wf());
        } else if i < zl + ql - 1 {
            let m = i - zl;
            let m1 = if m < w { m } else { m + 1 };
            assert(s2[i] == remaining(q)[m]);
            assert(remaining(q)[m] == base[m1]);
            assert(s1[zl + m1] == q[m1]);
            assert(same_identity(base[m1], q[m1]));
        } else {
            assert(s2[i] == d);
            assert(s1[zl + w] == q[w]);
            assert(same_identity(base[w], q[w]));
        }
    }
    assert forall|k: int| 0 <= k < s1.len() implies 0 <= #[trigger] g(k) < s2.len() && f(g(k))
        == k by {}
    assert forall|i: int, j: int| 0 <= i < j < s2.len() implies #[trigger] f(i) != #[trigger] f(
        j,
    ) by {}
    lemma_rearranged(s1, s2, f, g, next_pid);
    assert forall|i: int| 0 <= i < s2.len() implies (#[trigger] s2[i]).start_time <= bound by {
        let k = f(i);
        assert(s2[i].start_time <= bound);
    }
    assert forall|i: int| 0 <= i < remaining(q).len() implies (#[trigger] remaining(q)[i]).status
        == TaskStatus::Ready && remaining(q)[i].wf() by {
        let m1 = if i < w { i } else { i + 1 };
        assert(remaining(q)[i] == base[m1]);
    }
}

/// The whole state of the core: the scheduler with its ready tasks, the running task,
/// the zombies that wait for their parents, and what is needed to create tasks.
pub struct Kernel {
    pub manager: TaskManager,
    /// The task that holds the processor; `None` while the processor is idle.
    pub current: Option<TaskControlBlock>,
    /// Tasks that have exited and have not been reaped.
    pub zombies: Vec<TaskControlBlock>,
    /// The pid that the next new task gets; pids are never handed out twice.
    pub next_pid: usize,
    /// Number of zombies reaped so far.
    pub reaped: usize,
    /// Latest reading of the monotonic clock, in microseconds.
    pub clock_us: usize,
}

impl Kernel {
    /// Every task that exists: the zombies, the ready tasks, the running task.
    pub open spec fn tasks(&self) -> Seq<TaskControlBlock> {
        self.zombies@ + self.manager@ + option_seq(self.current)
    }

    /// The clock in milliseconds.
    pub open spec fn clock_ms(&self) -> int {
        self.clock_us as int / 1000
    }

    /// The invariant of the core. No two tasks share a pid; the tasks in the ready queue
    /// are ready, the one that holds the processor is the only one running, the others are
    /// zombies; every entry of a children list names a task that exists, so none is
    /// destroyed while it is referenced; and the tasks that exist are as many as were
    /// created and have not been reaped.
    pub open spec fn wf(&self) -> bool {
        &&& table_wf(self.tasks(), self.next_pid)
        &&& self.next_pid < isize::MAX
        &&& forall|i: int|
            0 <= i < self.zombies@.len() ==> (#[trigger] self.zombies@[i]).status
                == TaskStatus::Zombie
        &&& forall|i: int|
            0 <= i < self.manager@.len() ==> (#[trigger] self.manager@[i]).status
                == TaskStatus::Ready
        &&& self.current.is_some() ==> self.current.unwrap().status == TaskStatus::Running
        &&& self.tasks().len() + self.reaped == self.next_pid
        &&& forall|i: int|
            0 <= i < self.tasks().len() ==> (#[trigger] self.tasks()[i]).start_time
                <= self.clock_ms()
    }

    /// The tasks that compete for the processor, as the scheduler would see them if the
    /// running task yielded now: the ready tasks, then the running task.
    pub open spec fn runnable(&self) -> Seq<TaskControlBlock> {
        match self.current {
            Some(t) => self.ready().push(TaskControlBlock { status: TaskStatus::Ready, ..t }),
            None => self.ready(),
        }
    }

    /// Number of tasks that exist, zombies included.
    pub open spec fn live_count(&self) -> nat {
        self.tasks().len()
    }

    /// Number of tasks created so far: the one of boot and one for each fork or spawn.
    pub open spec fn created(&self) -> nat {
        self.next_pid as nat
    }

    /// The tasks that exist are those that were created and have not been reaped, and
    /// every task that a children list names exists: none was destroyed while referenced.
    /// This holds in every state that the operations of the core can reach, since each
    /// of them keeps the invariant.
    pub proof fn lemma_live_tasks(&self)
        requires
            self.wf(),
        ensures
            self.live_count() == self.created() - self.reaped,
            forall|pid: usize| referenced(self.tasks(), pid) ==> has_pid(self.tasks(), pid),
    {
        assert forall|pid: usize| referenced(self.tasks(), pid) implies has_pid(
            self.tasks(),
            pid,
        ) by {
            if !has_pid(self.tasks(), pid) {
                lemma_unreferenced(self.tasks(), pid, self.next_pid);
            }
        }
    }

    /// The states agree in everything but the running task.
    pub open spec fn same_but_current(&self, other: &Kernel) -> bool {
        *self == (Kernel { current: self.current, ..*other })
    }

    /// Hands the processor to the next ready task, if there is one.
    fn run_next(&mut self)
        requires
            old(self).current.is_none(),
            old(self).manager.wf(),
        ensures
            final(self).current == dispatched(old(self).manager@),
            final(self).manager@ == remaining(old(self).manager@),
            final(self).manager.wf(),
            final(self).current.is_some() ==> final(self).current.unwrap().wf(),
            final(self).zombies == old(self).zombies,
            final(self).next_pid == old(self).next_pid,
            final(self).reaped == old(self).reaped,
            final(self).clock_us == old(self).clock_us,
            old(self).manager@.len() > 0 ==> is_winner(
                epoch_base(old(self).ready()),
                winner(epoch_base(old(self).ready())),
            ),
    {
        match fetch_task(&mut self.manager) {
            Some(mut task) => {
                task.status = TaskStatus::Running;
                self.current = Some(task);
            },
            None => {},
        }
    }

    /// The ready tasks in queue order.
    pub open spec fn ready(&self) -> Seq<TaskControlBlock> {
        self.manager@
    }

    /// Boots the core with one task, loaded from `image` under pid 0, and dispatches it.
    pub fn new(image: &Vec<u8>) -> (k: Kernel)
        requires
            image@.len() <= MAX_IMAGE_SIZE,
        ensures
            k.wf(),
            k.ready().len() == 0,
            k.zombies@.len() == 0,
            k.next_pid == 1,
            k.reaped == 0,
            k.clock_us == 0,
            k.current.is_some(),
            k.current.unwrap().is_fresh(0, image@, None, 0),
            k.current.unwrap().status == TaskStatus::Running,
            k.current.unwrap().stride == BIG_STRIDE / (DEFAULT_PRIORITY as u64),
            !k.current.unwrap().is_overflow,
    {
        let init = TaskControlBlock::new(0, image, None, 0);
        let mut k = Kernel {
            manager: TaskManager::new(),
            current: None,
            zombies: Vec::new(),
            next_pid: 1,
            reaped: 0,
            clock_us: 0,
        };
        add_task(&mut k.manager, init);
        let ghost q = k.manager@;
        proof {
            assert(q =~= seq![init]);
            assert(k.zombies@ + q =~= q);
            assert(!init.is_overflow);
            assert(epoch_base(q) == q);
            assert(is_winner(q, 0));
            crate::manager::lemma_winner_unique(q, 0, 0);
        }
        k.run_next();
        proof {
            lemma_dispatch(k.zombies@, q, 1, 0);
            assert(k.tasks() =~= k.zombies@ + remaining(q) + option_seq(dispatched(q)));
        }
        k
    }

    /// Takes a new reading of the monotonic clock; one that lies behind the latest is
    /// ignored.
    pub fn advance_clock(&mut self, now_us: usize)
        requires
            old(self).wf(),
        ensures
            final(self).wf(),
            final(self).clock_us == (if now_us > old(self).clock_us {
                now_us
            } else {
                old(self).clock_us
            }),
            *final(self) == (Kernel { clock_us: final(self).clock_us, ..*old(self) }),
    {
        if now_us > self.clock_us {
            self.clock_us = now_us;
        }
        proof {
            assert(self.tasks() == old(self).tasks());
            assert forall|i: int| 0 <= i < self.tasks().len() implies (#[trigger] self.tasks()[i]).start_time
                <= self.clock_ms() by {
                assert(old(self).tasks()[i].start_time <= old(self).clock_ms());
            }
        }
    }

    /// Counts one call of the syscall `syscall_id` for the running task. A counter that
    /// has reached its largest value stays there; an identifier out of range is ignored.
    pub fn record_syscall(&mut self, syscall_id: usize)
        requires
            old(self).wf(),
            old(self).current.is_some(),
        ensures
            final(self).wf(),
            final(self).same_but_current(old(self)),
            final(self).current.is_some(),
            ({
                let before = old(self).current.unwrap();
                let after = final(self).current.unwrap();
                &&& after == (TaskControlBlock { syscall_times: after.syscall_times, ..before })
                &&& after.syscall_times@ == (if syscall_id < MAX_SYSCALL_NUM
                    && before.syscall_times@[syscall_id as int] < u32::MAX {
                    before.syscall_times@.update(
                        syscall_id as int,
                        (before.syscall_times@[syscall_id as int] + 1) as u32,
                    )
                } else {
                    before.syscall_times@
                })
            }),
    {
        let mut task = self.current.take().unwrap();
        if syscall_id < MAX_SYSCALL_NUM && task.syscall_times[syscall_id] < u32::MAX {
            let count: u32 = task.syscall_times[syscall_id];
            task.syscall_times[syscall_id] = count + 1;
        }
        self.current = Some(task);
        proof {
            let s1 = old(self).tasks();
            let s2 = self.tasks();
            assert(s1[s1.len() - 1] == old(self).current.unwrap());
            assert forall|i: int| 0 <= i < s2.len() implies 0 <= i < s1.len() && (
            #[trigger] s2[i]).wf() && same_identity(s2[i], s1[i]) && s2[i].start_time
                == s1[i].start_time by {
                assert(s1[i].wf());
            }
            lemma_rearranged(s1, s2, |i: int| i, |i: int| i, self.next_pid);
            assert forall|i: int| 0 <= i < s2.len() implies (#[trigger] s2[i]).start_time
                <= self.clock_ms() by {
                assert(s1[i].start_time <= old(self).clock_ms());
            }
        }
    }

    /// The running task gives up the processor: it goes to the back of the ready queue
    /// and the scheduler dispatches the next task, which may be the same one.
    pub fn suspend_current_and_run_next(&mut self)
        requires
            old(self).wf(),
            old(self).current.is_some(),
        ensures
            final(self).wf(),
            ({
                let q = old(self).ready().push(
                    TaskControlBlock { status: TaskStatus::Ready, ..old(self).current.unwrap() },
                );
                &&& final(self).current == dispatched(q)
                &&& final(self).ready() == remaining(q)
            }),
            final(self).current.is_some(),
            final(self).runnable() == yield_step(old(self).runnable()),
            final(self).zombies == old(self).zombies,
            final(self).next_pid == old(self).next_pid,
            final(self).reaped == old(self).reaped,
            final(self).clock_us == old(self).clock_us,
            final(self).live_count() == old(self).live_count(),
    {
        let mut task = self.current.take().unwrap();
        task.status = TaskStatus::Ready;
        proof {
            let s1 = old(self).tasks();
            let s2 = self.zombies@ + self.manager@.push(task);
            assert(s2.len() == s1.len());
            assert forall|i: int| 0 <= i < s2.len() implies 0 <= i < s1.len() && (
            #[trigger] s2[i]).wf() && same_identity(s2[i], s1[i]) && s2[i].start_time
                == s1[i].start_time by {
                assert(s1[i].wf());
            }
            lemma_rearranged(s1, s2, |i: int| i, |i: int| i, self.next_pid);
            assert forall|i: int| 0 <= i < s2.len() implies (#[trigger] s2[i]).start_time
                <= self.clock_ms() by {
                assert(s1[i].start_time <= self.clock_ms());
            }
            assert forall|i: int| 0 <= i < self.manager@.push(task).len() implies (
            #[trigger] self.manager@.push(task)[i]).wf() by {
                assert(s2[self.zombies@.len() + i].wf());
            }
        }
        add_task(&mut self.manager, task);
        let ghost q = self.manager@;
        self.run_next();
        proof {
            lemma_dispatch(self.zombies@, q, self.next_pid, self.clock_ms());
            assert(self.tasks() =~= self.zombies@ + remaining(q) + option_seq(dispatched(q)));
        }
    }

    /// The running task exits with `exit_code`: it becomes a zombie, gives back its
    /// address space and keeps its control block until its parent reaps it. The scheduler
    /// then dispatches the next ready task; without one the processor stays idle.
    pub fn exit_current_and_run_next(&mut self, exit_code: i32)
        requires
            old(self).wf(),
            old(self).current.is_some(),
        ensures
            final(self).wf(),
            final(self).zombies@.len() == old(self).zombies@.len() + 1,
            final(self).zombies@.drop_last() == old(self).zombies@,
            is_zombie_of(final(self).zombies@.last(), old(self).current.unwrap(), exit_code),
            final(self).current == dispatched(old(self).ready()),
            final(self).ready() == remaining(old(self).ready()),
            final(self).next_pid == old(self).next_pid,
            final(self).reaped == old(self).reaped,
            final(self).clock_us == old(self).clock_us,
            final(self).live_count() == old(self).live_count(),
    {
        let mut task = self.current.take().unwrap();
        task.status = TaskStatus::Zombie;
        task.exit_code = exit_code;
        task.memory_set = MemorySet::new_bare();
        let ghost zl = self.zombies@.len() as int;
        let ghost ql = self.manager@.len() as int;
        let ghost q = self.manager@;
        proof {
            let s1 = old(self).tasks();
            let s2 = self.zombies@.push(task) + q;
            let f = |i: int|
                if i < zl {
                    i
                } else if i == zl {
                    zl + ql
                } else {
                    i - 1
                };
            let g = |k: int|
                if k < zl {
                    k
                } else if k == zl + ql {
                    zl
                } else {
                    k + 1
                };
            assert forall|i: int| 0 <= i < s2.len() implies 0 <= #[trigger] f(i) < s1.len() && s2[i].wf()
                && same_identity(s2[i], s1[f(i)]) && s2[i].start_time == s1[f(i)].start_time by {
                assert(s1[f(i)].wf());
            }
            assert forall|k: int| 0 <= k < s1.len() implies 0 <= #[trigger] g(k) < s2.len() && f(
                g(k),
            ) == k by {}
            assert forall|i: int, j: int| 0 <= i < j < s2.len() implies #[trigger] f(i)
                != #[trigger] f(j) by {}
            lemma_rearranged(s1, s2, f, g, self.next_pid);
            assert forall|i: int| 0 <= i < s2.len() implies (#[trigger] s2[i]).start_time
                <= self.clock_ms() by {
                assert(s1[f(i)].start_time <= self.clock_ms());
            }
            assert forall|i: int| 0 <= i < q.len() implies (#[trigger] q[i]).wf() by {
                assert(s2[zl + 1 + i].wf());
            }
        }
        self.zombies.push(task);
        self.run_next();
        proof {
            assert(self.zombies@.drop_last() =~= old(self).zombies@);
            if ql > 0 {
                lemma_dispatch(self.zombies@, q, self.next_pid, self.clock_ms());
                assert(self.tasks() =~= self.zombies@ + remaining(q) + option_seq(dispatched(q)));
            } else {
                assert(self.tasks() =~= self.zombies@ + q);
            }
        }
    }
}

} // verus!
