use vstd::prelude::*;
use crate::config::{BIG_STRIDE, MAX_STRIDE};
use crate::kernel::{dispatched, yield_step};
use crate::manager::{
    advanced, all_overflowed, cleared, epoch_base, is_winner, lemma_epoch_base,
    lemma_winner_unique, pass_of, winner,
};
use crate::table::has_pid;
use crate::task::{TaskControlBlock, TaskStatus};

verus! {

/// The stride of a task counted from the start of the current epoch: a task that has
/// overflowed stands one full round of the counter ahead.
pub open spec fn virtual_time(t: TaskControlBlock) -> int {
    t.stride as int + if t.is_overflow {
        MAX_STRIDE as int
    } else {
        0
    }
}

/// The runnable tasks after `k` dispatches, each followed by a yield.
pub open spec fn run(q: Seq<TaskControlBlock>, k: nat) -> Seq<TaskControlBlock>
    decreases k,
{
    if k == 0 {
        q
    } else {
        yield_step(run(q, (k - 1) as nat))
    }
}

/// How often the task `pid` is dispatched in the first `k` dispatches from `q`.
pub open spec fn dispatch_count(q: Seq<TaskControlBlock>, k: nat, pid: usize) -> nat
    decreases k,
{
    if k == 0 {
        0
    } else {
        let before = run(q, (k - 1) as nat);
        dispatch_count(q, (k - 1) as nat, pid) + if dispatched(before).unwrap().pid == pid {
            1nat
        } else {
            0nat
        }
    }
}

/// How many epochs begin in the first `k` dispatches from `q`.
pub open spec fn epochs_begun(q: Seq<TaskControlBlock>, k: nat) -> nat
    decreases k,
{
    if k == 0 {
        0
    } else {
        epochs_begun(q, (k - 1) as nat) + if all_overflowed(run(q, (k - 1) as nat)) {
            1nat
        } else {
            0nat
        }
    }
}

/// The tasks are valid for the scheduler, have distinct pids and the common priority
/// `priority`, whose pass is `pass`, and no task is more than one pass ahead of another.
#[verifier::opaque]
pub open spec fn level(q: Seq<TaskControlBlock>, priority: usize, pass: int) -> bool {
    &&& q.len() > 0
    &&& priority >= 2
    &&& pass == pass_of(priority)
    &&& forall|i: int|
        0 <= i < q.len() ==> (#[trigger] q[i]).stride < MAX_STRIDE && q[i].priority == priority
    &&& forall|i: int, j: int| 0 <= i < j < q.len() ==> (#[trigger] q[i]).pid != (#[trigger] q[j]).pid
    &&& forall|i: int, j: int|
        0 <= i < q.len() && 0 <= j < q.len() ==> virtual_time(#[trigger] q[i]) - virtual_time(
            #[trigger] q[j],
        ) <= pass
}

/// Tasks that have never been dispatched are level, whatever their common priority.
pub proof fn lemma_unscheduled_level(q: Seq<TaskControlBlock>, priority: usize)
    requires
        q.len() > 0,
        priority >= 2,
        forall|i: int|
            0 <= i < q.len() ==> (#[trigger] q[i]).is_unscheduled() && q[i].priority == priority,
        forall|i: int, j: int| 0 <= i < j < q.len() ==> (#[trigger] q[i]).pid != (#[trigger] q[j]).pid,
    ensures
        level(q, priority, pass_of(priority)),
{
    reveal(level);
    assert(0 <= BIG_STRIDE as int / priority as int) by (nonlinear_arith)
        requires
            priority >= 2,
    ;
    assert forall|i: int, j: int| 0 <= i < q.len() && 0 <= j < q.len() implies virtual_time(
        #[trigger] q[i],
    ) - virtual_time(#[trigger] q[j]) <= pass_of(priority) by {
        assert(q[i].is_unscheduled());
        assert(q[j].is_unscheduled());
    }
}

/// `idx` wins among the first `n` tasks of `q`.
spec fn wins_upto(q: Seq<TaskControlBlock>, n: int, idx: int) -> bool {
    &&& 0 <= idx < n
    &&& !q[idx].is_overflow
    &&& forall|j: int| 0 <= j < n && !(#[trigger] q[j]).is_overflow ==> q[idx].stride <= q[j].stride
    &&& forall|j: int| 0 <= j < idx && !(#[trigger] q[j]).is_overflow ==> q[idx].stride < q[j].stride
}

proof fn lemma_wins_upto(q: Seq<TaskControlBlock>, n: int) -> (idx: int)
    requires
        0 <= n <= q.len(),
    ensures
        idx == -1 ==> forall|j: int| 0 <= j < n ==> (#[trigger] q[j]).is_overflow,
        idx != -1 ==> wins_upto(q, n, idx),
    decreases n,
{
    if n == 0 {
        -1
    } else {
        let prev = lemma_wins_upto(q, n - 1);
        let t = q[n - 1];
        if !t.is_overflow && (prev == -1 || t.stride < q[prev].stride) {
            n - 1
        } else {
            prev
        }
    }
}

/// A queue that holds a task without overflow mark has a winner.
pub proof fn lemma_winner_exists(q: Seq<TaskControlBlock>)
    requires
        exists|i: int| 0 <= i < q.len() && !(#[trigger] q[i]).is_overflow,
    ensures
        is_winner(q, winner(q)),
{
    let idx = lemma_wins_upto(q, q.len() as int);
    assert(is_winner(q, idx));
}

/// The selection always finds a task in a queue that is not empty.
pub proof fn lemma_base_has_winner(q: Seq<TaskControlBlock>)
    requires
        q.len() > 0,
    ensures
        is_winner(epoch_base(q), winner(epoch_base(q))),
{
    let base = epoch_base(q);
    lemma_epoch_base(q);
    if all_overflowed(q) {
        assert(base[0] == cleared(q[0]));
        assert(!base[0].is_overflow);
    } else {
        let i = choose|i: int| 0 <= i < q.len() && !(#[trigger] q[i]).is_overflow;
        assert(!base[i].is_overflow);
    }
    lemma_winner_exists(base);
}

/// What one dispatch and yield does to tasks that are level: the tasks stay level; every
/// task but the chosen one keeps its place in the order and its virtual time, the chosen
/// one goes to the back one pass later; and where a new epoch begins, every virtual time
/// is counted anew, one round of the counter lower.
proof fn lemma_step(q: Seq<TaskControlBlock>, priority: usize, pass: int)
    requires
        level(q, priority, pass),
    ensures
        ({
            let w = winner(epoch_base(q));
            let roll = if all_overflowed(q) {
                MAX_STRIDE as int
            } else {
                0
            };
            let s = yield_step(q);
            let n = q.len() as int;
            &&& 0 <= w < n
            &&& dispatched(q).is_some()
            &&& dispatched(q).unwrap().pid == q[w].pid
            &&& level(s, priority, pass)
            &&& s.len() == n
            &&& forall|j: int|
                0 <= j < n - 1 ==> (#[trigger] s[j]).pid == q[if j < w {
                    j
                } else {
                    j + 1
                }].pid && virtual_time(s[j]) + roll == virtual_time(
                    q[if j < w {
                        j
                    } else {
                        j + 1
                    }],
                )
            &&& s[n - 1].pid == q[w].pid
            &&& virtual_time(s[n - 1]) + roll == virtual_time(q[w]) + pass
        }),
{
    reveal(level);
    let base = epoch_base(q);
    let w = winner(base);
    let roll = if all_overflowed(q) {
        MAX_STRIDE as int
    } else {
        0
    };
    let s = yield_step(q);
    let n = q.len() as int;
    lemma_epoch_base(q);
    lemma_base_has_winner(q);
    assert(0 <= pass <= BIG_STRIDE / 2) by (nonlinear_arith)
        requires
            pass == BIG_STRIDE as int / priority as int,
            priority >= 2,
    ;
    // the queue as the selection sees it: the same tasks, all one round lower where a
    // new epoch begins
    assert forall|j: int| 0 <= j < n implies (#[trigger] base[j]).pid == q[j].pid
        && base[j].priority == priority && base[j].stride == q[j].stride && virtual_time(base[j])
        + roll == virtual_time(q[j]) by {
        assert(q[j].stride < MAX_STRIDE);
        if all_overflowed(q) {
            assert(q[j].is_overflow);
            assert(base[j] == cleared(q[j]));
        }
    }
    // the chosen task is behind no other
    assert forall|j: int| 0 <= j < n implies virtual_time(base[w]) <= virtual_time(
        #[trigger] base[j],
    ) by {
        assert(q[j].stride < MAX_STRIDE);
        assert(q[w].stride < MAX_STRIDE);
    }
    let d = advanced(base[w]);
    assert(q[w].stride < MAX_STRIDE);
    assert(virtual_time(d) == virtual_time(base[w]) + pass);
    assert(d.stride < MAX_STRIDE);
    assert(s[n - 1] == (TaskControlBlock { status: TaskStatus::Ready, ..d }));
    assert forall|j: int| 0 <= j < n - 1 implies (#[trigger] s[j]) == base[if j < w {
        j
    } else {
        j + 1
    }] by {}
    assert forall|i: int, j: int| 0 <= i < s.len() && 0 <= j < s.len() implies virtual_time(
        #[trigger] s[i],
    ) - virtual_time(#[trigger] s[j]) <= pass by {
        let i0 = if i == n - 1 { w } else if i < w { i } else { i + 1 };
        let j0 = if j == n - 1 { w } else if j < w { j } else { j + 1 };
        assert(virtual_time(q[i0]) - virtual_time(q[j0]) <= pass);
        assert(virtual_time(base[w]) <= virtual_time(base[i0]));
        assert(virtual_time(base[w]) <= virtual_time(base[j0]));
        assert(virtual_time(q[i0]) - virtual_time(q[w]) <= pass);
        assert(virtual_time(q[j0]) - virtual_time(q[w]) <= pass);
    }
    assert forall|i: int, j: int| 0 <= i < j < s.len() implies (#[trigger] s[i]).pid != (
    #[trigger] s[j]).pid by {
        let i0 = if i == n - 1 { w } else if i < w { i } else { i + 1 };
        let j0 = if j == n - 1 { w } else if j < w { j } else { j + 1 };
        if i0 < j0 {
            assert(q[i0].pid != q[j0].pid);
        } else {
            assert(q[j0].pid != q[i0].pid);
        }
    }
    assert forall|i: int| 0 <= i < s.len() implies (#[trigger] s[i]).stride < MAX_STRIDE
        && s[i].priority == priority by {
        let i0 = if i == n - 1 { w } else if i < w { i } else { i + 1 };
        assert(q[i0].stride < MAX_STRIDE);
    }
}

/// Among level tasks, two at different places differ in their pids, and neither is more
/// than one pass ahead of the other.
proof fn lemma_level_pair(q: Seq<TaskControlBlock>, priority: usize, pass: int, i: int, j: int)
    requires
        level(q, priority, pass),
        0 <= i < q.len(),
        0 <= j < q.len(),
    ensures
        i != j ==> q[i].pid != q[j].pid,
        virtual_time(q[i]) - virtual_time(q[j]) <= pass,
{
    reveal(level);
    if i < j {
        assert(q[i].pid != q[j].pid);
    } else if j < i {
        assert(q[j].pid != q[i].pid);
    }
}

/// After any number of dispatches the tasks are the same and still level, and the
/// virtual time of each, counted over the epochs begun since, has grown by one pass for
/// each of its dispatches.
proof fn lemma_run(q: Seq<TaskControlBlock>, priority: usize, pass: int, k: nat)
    requires
        level(q, priority, pass),
    ensures
        level(run(q, k), priority, pass),
        run(q, k).len() == q.len(),
        forall|i: int| 0 <= i < q.len() ==> has_pid(run(q, k), (#[trigger] q[i]).pid),
        forall|j: int| 0 <= j < q.len() ==> has_pid(q, (#[trigger] run(q, k)[j]).pid),
        forall|i: int, j: int|
            0 <= i < q.len() && 0 <= j < q.len() && (#[trigger] run(q, k)[j]).pid == (
            #[trigger] q[i]).pid ==> virtual_time(run(q, k)[j]) + epochs_begun(q, k)
                * MAX_STRIDE as int == virtual_time(q[i]) + pass * dispatch_count(q, k, q[i].pid),
    decreases k,
{
    if k == 0 {
        assert forall|j: int| 0 <= j < q.len() implies has_pid(q, (#[trigger] run(q, k)[j]).pid) by {
            assert(q[j].pid == run(q, k)[j].pid);
        }
        assert forall|i: int, j: int|
            0 <= i < q.len() && 0 <= j < q.len() && (#[trigger] run(q, k)[j]).pid == (
            #[trigger] q[i]).pid implies virtual_time(run(q, k)[j]) + epochs_begun(q, k)
            * MAX_STRIDE as int == virtual_time(q[i]) + pass * dispatch_count(q, k, q[i].pid) by {
            lemma_level_pair(q, priority, pass, i, j);
            assert(pass * 0 == 0);
        }
    } else {
        let k1 = (k - 1) as nat;
        let before = run(q, k1);
        let after = run(q, k);
        let n = q.len() as int;
        lemma_run(q, priority, pass, k1);
        lemma_step(before, priority, pass);
        let w = winner(epoch_base(before));
        let roll = if all_overflowed(before) {
            MAX_STRIDE as int
        } else {
            0
        };
        let e1 = epochs_begun(q, k1) as int;
        let e = epochs_begun(q, k) as int;
        assert(e * MAX_STRIDE as int == e1 * MAX_STRIDE as int + roll) by (nonlinear_arith)
            requires
                e == e1 + (if roll == 0 { 0int } else { 1int }),
                roll == 0 || roll == MAX_STRIDE as int,
        ;
        assert forall|i: int| 0 <= i < q.len() implies has_pid(after, (#[trigger] q[i]).pid) by {
            assert(has_pid(before, q[i].pid));
            let j0 = choose|j0: int| 0 <= j0 < before.len() && (#[trigger] before[j0]).pid == q[i].pid;
            let j = if j0 == w { n - 1 } else if j0 < w { j0 } else { j0 - 1 };
            assert(after[j].pid == q[i].pid);
        }
        assert forall|j: int| 0 <= j < q.len() implies has_pid(q, (#[trigger] after[j]).pid) by {
            let j0 = if j == n - 1 { w } else if j < w { j } else { j + 1 };
            assert(after[j].pid == before[j0].pid);
            assert(has_pid(q, before[j0].pid));
        }
        assert forall|i: int, j: int|
            0 <= i < q.len() && 0 <= j < q.len() && (#[trigger] after[j]).pid == (
            #[trigger] q[i]).pid implies virtual_time(after[j]) + e * MAX_STRIDE as int
            == virtual_time(q[i]) + pass * dispatch_count(q, k, q[i].pid) by {
            let j0 = if j == n - 1 { w } else if j < w { j } else { j + 1 };
            assert(before[j0].pid == q[i].pid);
            let c1 = dispatch_count(q, k1, q[i].pid) as int;
            let c = dispatch_count(q, k, q[i].pid) as int;
            assert(virtual_time(before[j0]) + e1 * MAX_STRIDE as int == virtual_time(q[i]) + pass
                * c1);
            if j == n - 1 {
                assert(c == c1 + 1);
                assert(pass * c == pass * c1 + pass) by (nonlinear_arith)
                    requires
                        c == c1 + 1,
                ;
            } else {
                // another task was chosen: pids are distinct
                lemma_level_pair(before, priority, pass, j0, w);
                assert(c == c1);
            }
        }
    }
}

/// Where the pass is zero, level tasks are dispatched in turn: the selection always
/// takes the task at the front.
proof fn lemma_front_wins(q: Seq<TaskControlBlock>, priority: usize)
    requires
        level(q, priority, 0),
    ensures
        winner(epoch_base(q)) == 0,
{
    reveal(level);
    let base = epoch_base(q);
    lemma_epoch_base(q);
    assert forall|j: int| 0 <= j < q.len() implies !(#[trigger] base[j]).is_overflow
        && base[j].stride == base[0].stride by {
        assert(virtual_time(q[j]) - virtual_time(q[0]) <= 0);
        assert(virtual_time(q[0]) - virtual_time(q[j]) <= 0);
        assert(q[j].stride < MAX_STRIDE);
        assert(q[0].stride < MAX_STRIDE);
        if all_overflowed(q) {
            assert(q[j].is_overflow);
            assert(q[0].is_overflow);
        } else {
            let i = choose|i: int| 0 <= i < q.len() && !(#[trigger] q[i]).is_overflow;
            assert(virtual_time(q[j]) - virtual_time(q[i]) <= 0);
            assert(virtual_time(q[0]) - virtual_time(q[i]) <= 0);
            assert(q[i].stride < MAX_STRIDE);
        }
    }
    assert(is_winner(base, 0));
    lemma_winner_unique(base, 0, 0);
}

/// Where the pass is zero, after any number of dispatches the tasks are the same and
/// still level, and along the order in which they stand their dispatch counts never
/// fall and rise by one at most.
proof fn lemma_run_in_turn(q: Seq<TaskControlBlock>, priority: usize, k: nat)
    requires
        level(q, priority, 0),
    ensures
        level(run(q, k), priority, 0),
        run(q, k).len() == q.len(),
        forall|i: int| 0 <= i < q.len() ==> has_pid(run(q, k), (#[trigger] q[i]).pid),
        forall|j: int| 0 <= j < q.len() ==> has_pid(q, (#[trigger] run(q, k)[j]).pid),
        forall|i: int, j: int|
            0 <= i <= j < q.len() ==> dispatch_count(q, k, (#[trigger] run(q, k)[i]).pid)
                <= dispatch_count(q, k, (#[trigger] run(q, k)[j]).pid) <= dispatch_count(
                q,
                k,
                run(q, k)[i].pid,
            ) + 1,
    decreases k,
{
    if k == 0 {
        assert forall|j: int| 0 <= j < q.len() implies has_pid(q, (#[trigger] run(q, k)[j]).pid) by {
            assert(q[j].pid == run(q, k)[j].pid);
        }
    } else {
        let k1 = (k - 1) as nat;
        let before = run(q, k1);
        let after = run(q, k);
        let n = q.len() as int;
        lemma_run_in_turn(q, priority, k1);
        lemma_step(before, priority, 0);
        lemma_front_wins(before, priority);
        assert forall|i: int| 0 <= i < q.len() implies has_pid(after, (#[trigger] q[i]).pid) by {
            assert(has_pid(before, q[i].pid));
            let j0 = choose|j0: int| 0 <= j0 < before.len() && (#[trigger] before[j0]).pid == q[i].pid;
            let j = if j0 == 0 { n - 1 } else { j0 - 1 };
            assert(after[j].pid == q[i].pid);
        }
        assert forall|j: int| 0 <= j < q.len() implies has_pid(q, (#[trigger] after[j]).pid) by {
            let j0 = if j == n - 1 { 0 } else { j + 1 };
            assert(after[j].pid == before[j0].pid);
            assert(has_pid(q, before[j0].pid));
        }
        assert forall|i: int, j: int| 0 <= i <= j < q.len() implies dispatch_count(
            q,
            k,
            (#[trigger] after[i]).pid,
        ) <= dispatch_count(q, k, (#[trigger] after[j]).pid) <= dispatch_count(q, k, after[i].pid)
            + 1 by {
            let i0 = if i == n - 1 { 0 } else { i + 1 };
            let j0 = if j == n - 1 { 0 } else { j + 1 };
            assert(after[i].pid == before[i0].pid);
            assert(after[j].pid == before[j0].pid);
            lemma_level_pair(before, priority, 0, i0, 0);
            lemma_level_pair(before, priority, 0, j0, 0);
            assert(dispatch_count(q, k1, before[0].pid) <= dispatch_count(q, k1, before[i0].pid)
                <= dispatch_count(q, k1, before[0].pid) + 1);
            assert(dispatch_count(q, k1, before[0].pid) <= dispatch_count(q, k1, before[j0].pid)
                <= dispatch_count(q, k1, before[0].pid) + 1);
            if j < n - 1 {
                assert(dispatch_count(q, k1, before[i0].pid) <= dispatch_count(
                    q,
                    k1,
                    before[j0].pid,
                ) <= dispatch_count(q, k1, before[i0].pid) + 1);
            }
        }
    }
}

/// Fairness of stride scheduling among tasks of equal priority.
///
/// Take runnable tasks of one priority, none of them more than one pass ahead of
/// another, and let the scheduler dispatch `k` times, the dispatched task yielding each
/// time. Then over these `k` dispatches no task is dispatched more than twice more often
/// than any other, and no more than once more often than a task that started at the
/// same virtual time.
pub proof fn lemma_fair_dispatch(q: Seq<TaskControlBlock>, priority: usize, k: nat, a: int, b: int)
    requires
        level(q, priority, pass_of(priority)),
        0 <= a < q.len(),
        0 <= b < q.len(),
    ensures
        dispatch_count(q, k, q[a].pid) <= dispatch_count(q, k, q[b].pid) + 2,
        virtual_time(q[a]) == virtual_time(q[b]) ==> dispatch_count(q, k, q[a].pid)
            <= dispatch_count(q, k, q[b].pid) + 1,
{
    let pass = pass_of(priority);
    let s = run(q, k);
    assert(0 <= pass) by {
        reveal(level);
        assert(0 <= BIG_STRIDE as int / priority as int) by (nonlinear_arith)
            requires
                priority >= 2,
        ;
    }
    if pass == 0 {
        lemma_run_in_turn(q, priority, k);
    } else {
        lemma_run(q, priority, pass, k);
    }
    assert(has_pid(s, q[a].pid));
    assert(has_pid(s, q[b].pid));
    let ja = choose|j: int| 0 <= j < s.len() && (#[trigger] s[j]).pid == q[a].pid;
    let jb = choose|j: int| 0 <= j < s.len() && (#[trigger] s[j]).pid == q[b].pid;
    let ca = dispatch_count(q, k, q[a].pid) as int;
    let cb = dispatch_count(q, k, q[b].pid) as int;
    if pass == 0 {
        if ja <= jb {
            assert(dispatch_count(q, k, s[ja].pid) <= dispatch_count(q, k, s[jb].pid));
        } else {
            assert(dispatch_count(q, k, s[ja].pid) <= dispatch_count(q, k, s[jb].pid) + 1);
        }
    } else {
        let e = epochs_begun(q, k) * MAX_STRIDE as int;
        assert(virtual_time(s[ja]) + e == virtual_time(q[a]) + pass * ca);
        assert(virtual_time(s[jb]) + e == virtual_time(q[b]) + pass * cb);
        lemma_level_pair(s, priority, pass, ja, jb);
        lemma_level_pair(q, priority, pass, b, a);
        let lead = virtual_time(q[b]) - virtual_time(q[a]);
        assert(pass * ca - pass * cb <= pass + lead);
        assert(ca - cb <= 2) by (nonlinear_arith)
            requires
                pass * ca - pass * cb <= pass + lead,
                lead <= pass,
                pass >= 1,
        ;
        if lead == 0 {
            assert(ca - cb <= 1) by (nonlinear_arith)
                requires
                    pass * ca - pass * cb <= pass,
                    pass >= 1,
            ;
        }
    }
}

/// How often the first `n` tasks of `q` are dispatched, taken together, in the first
/// `k` dispatches from `q`.
pub open spec fn count_sum(q: Seq<TaskControlBlock>, k: nat, n: nat) -> nat
    decreases n,
{
    if n == 0 {
        0
    } else {
        count_sum(q, k, (n - 1) as nat) + dispatch_count(q, k, q[n - 1].pid)
    }
}

/// One of the first `n` tasks of `q` has pid `pid`.
spec fn among_first(q: Seq<TaskControlBlock>, n: nat, pid: usize) -> bool {
    exists|i: int| 0 <= i < n && (#[trigger] q[i]).pid == pid
}

/// The `k`-th dispatch counts once for the first `n` tasks if it takes one of them,
/// and not at all otherwise.
proof fn lemma_sum_step(q: Seq<TaskControlBlock>, priority: usize, pass: int, k: nat, n: nat)
    requires
        level(q, priority, pass),
        k > 0,
        n <= q.len(),
    ensures
        count_sum(q, k, n) == count_sum(q, (k - 1) as nat, n) + (if among_first(
            q,
            n,
            dispatched(run(q, (k - 1) as nat)).unwrap().pid,
        ) {
            1nat
        } else {
            0nat
        }),
    decreases n,
{
    let d = dispatched(run(q, (k - 1) as nat)).unwrap().pid;
    if n > 0 {
        let n1 = (n - 1) as nat;
        lemma_sum_step(q, priority, pass, k, n1);
        if q[n - 1].pid == d {
            if among_first(q, n1, d) {
                let i = choose|i: int| 0 <= i < n1 && (#[trigger] q[i]).pid == d;
                lemma_level_pair(q, priority, pass, i, n - 1);
            }
            assert(among_first(q, n, d));
        } else {
            if among_first(q, n, d) {
                let i = choose|i: int| 0 <= i < n && (#[trigger] q[i]).pid == d;
                assert(among_first(q, n1, d));
            }
            if among_first(q, n1, d) {
                let i = choose|i: int| 0 <= i < n1 && (#[trigger] q[i]).pid == d;
                assert(among_first(q, n, d));
            }
        }
    }
}

/// Every dispatch takes one of the tasks: their dispatch counts add up to the number
/// of dispatches.
proof fn lemma_counts_total(q: Seq<TaskControlBlock>, priority: usize, k: nat)
    requires
        level(q, priority, pass_of(priority)),
    ensures
        count_sum(q, k, q.len()) == k,
    decreases k,
{
    let pass = pass_of(priority);
    if k == 0 {
        lemma_sum_zero(q, q.len());
    } else {
        let k1 = (k - 1) as nat;
        lemma_counts_total(q, priority, k1);
        assert(0 <= pass) by {
            reveal(level);
            assert(0 <= BIG_STRIDE as int / priority as int) by (nonlinear_arith)
                requires
                    priority >= 2,
            ;
        }
        if pass == 0 {
            lemma_run_in_turn(q, priority, k1);
        } else {
            lemma_run(q, priority, pass, k1);
        }
        let before = run(q, k1);
        lemma_step(before, priority, pass);
        let w = winner(epoch_base(before));
        let d = dispatched(before).unwrap().pid;
        assert(has_pid(q, before[w].pid));
        assert(among_first(q, q.len(), d));
        lemma_sum_step(q, priority, pass, k, q.len());
    }
}

proof fn lemma_sum_zero(q: Seq<TaskControlBlock>, n: nat)
    ensures
        count_sum(q, 0, n) == 0,
    decreases n,
{
    if n > 0 {
        lemma_sum_zero(q, (n - 1) as nat);
    }
}

/// The first `n` tasks together are dispatched within two dispatches each of what the
/// task at `a` gets.
proof fn lemma_sum_bounds(q: Seq<TaskControlBlock>, priority: usize, k: nat, a: int, n: nat)
    requires
        level(q, priority, pass_of(priority)),
        0 <= a < q.len(),
        n <= q.len(),
    ensures
        n * (dispatch_count(q, k, q[a].pid) - 2) <= count_sum(q, k, n) <= n * (dispatch_count(
            q,
            k,
            q[a].pid,
        ) + 2),
    decreases n,
{
    let c = dispatch_count(q, k, q[a].pid) as int;
    if n > 0 {
        let n1 = (n - 1) as nat;
        lemma_sum_bounds(q, priority, k, a, n1);
        lemma_fair_dispatch(q, priority, k, a, n - 1);
        lemma_fair_dispatch(q, priority, k, n - 1, a);
        assert(n * (c - 2) == n1 * (c - 2) + (c - 2)) by (nonlinear_arith)
            requires
                n == n1 + 1,
        ;
        assert(n * (c + 2) == n1 * (c + 2) + (c + 2)) by (nonlinear_arith)
            requires
                n == n1 + 1,
        ;
    } else {
        assert(0 * (c - 2) == 0);
        assert(0 * (c + 2) == 0);
    }
}

/// Each task of equal priority gets its share of the processor.
///
/// Take `n` runnable tasks of one priority, none of them more than one pass ahead of
/// another, and let the scheduler dispatch `k` times, the dispatched task yielding each
/// time. Then each task is dispatched `k / n` times, give or take two: `n` times its
/// count lies within `2 * n` of `k`.
pub proof fn lemma_fair_share(q: Seq<TaskControlBlock>, priority: usize, k: nat, a: int)
    requires
        level(q, priority, pass_of(priority)),
        0 <= a < q.len(),
    ensures
        q.len() * (dispatch_count(q, k, q[a].pid) - 2) <= k <= q.len() * (dispatch_count(
            q,
            k,
            q[a].pid,
        ) + 2),
{
    lemma_counts_total(q, priority, k);
    lemma_sum_bounds(q, priority, k, a, q.len());
}

} // verus!
