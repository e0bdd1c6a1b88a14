use vstd::prelude::*;
use crate::task::TaskControlBlock;

verus! {

/// Two control blocks stand for the same task with the same relatives.
pub open spec fn same_identity(a: TaskControlBlock, b: TaskControlBlock) -> bool {
    &&& a.pid == b.pid
    &&& a.parent == b.parent
    &&& a.children@ == b.children@
}

/// Some task of `s` has pid `child` and names `parent` as its parent.
pub open spec fn child_linked(s: Seq<TaskControlBlock>, child: usize, parent: usize) -> bool {
    exists|j: int| 0 <= j < s.len() && (#[trigger] s[j]).pid == child && s[j].parent == Some(parent)
}

/// Some task of `s` has pid `pid`.
pub open spec fn has_pid(s: Seq<TaskControlBlock>, pid: usize) -> bool {
    exists|j: int| 0 <= j < s.len() && (#[trigger] s[j]).pid == pid
}

/// Some children list among the tasks of `s` names `pid`.
pub open spec fn referenced(s: Seq<TaskControlBlock>, pid: usize) -> bool {
    exists|i: int, c: int|
        0 <= i < s.len() && 0 <= c < s[i].children@.len() && #[trigger] s[i].children@[c] == pid
}

/// The invariant of the set of all tasks that exist: each is well formed with a pid
/// below the next one to hand out, no two share a pid, and every entry of a children
/// list names a task that exists and that names the list's owner as its parent.
pub open spec fn table_wf(s: Seq<TaskControlBlock>, next_pid: usize) -> bool {
    &&& forall|i: int| 0 <= i < s.len() ==> (#[trigger] s[i]).wf() && s[i].pid < next_pid
    &&& forall|i: int, j: int| 0 <= i < j < s.len() ==> (#[trigger] s[i]).pid != (#[trigger] s[j]).pid
    &&& forall|i: int, c: int|
        0 <= i < s.len() && 0 <= c < s[i].children@.len() ==> child_linked(
            s,
            #[trigger] s[i].children@[c],
            s[i].pid,
        )
}

/// The invariant holds of the same tasks in another order, whatever else has changed
/// in them but their pids and relatives.
pub(crate) proof fn lemma_rearranged(
    s1: Seq<TaskControlBlock>,
    s2: Seq<TaskControlBlock>,
    f: spec_fn(int) -> int,
    g: spec_fn(int) -> int,
    next_pid: usize,
)
    requires
        table_wf(s1, next_pid),
        forall|i: int|
            0 <= i < s2.len() ==> 0 <= #[trigger] f(i) < s1.len() && s2[i].wf() && same_identity(
                s2[i],
                s1[f(i)],
            ),
        forall|i: int, j: int| 0 <= i < j < s2.len() ==> #[trigger] f(i) != #[trigger] f(j),
        forall|k: int| 0 <= k < s1.len() ==> 0 <= #[trigger] g(k) < s2.len() && f(g(k)) == k,
    ensures
        table_wf(s2, next_pid),
{
    assert forall|i: int| 0 <= i < s2.len() implies (#[trigger] s2[i]).wf() && s2[i].pid
        < next_pid by {
        assert(s1[f(i)].pid < next_pid);
    }
    assert forall|i: int, j: int| 0 <= i < j < s2.len() implies (#[trigger] s2[i]).pid != (
    #[trigger] s2[j]).pid by {
        let a = f(i);
        let b = f(j);
        if a < b {
            assert(s1[a].pid != s1[b].pid);
        } else {
            assert(s1[b].pid != s1[a].pid);
        }
    }
    assert forall|i: int, c: int| 0 <= i < s2.len() && 0 <= c < s2[i].children@.len() implies child_linked(
        s2,
        #[trigger] s2[i].children@[c],
        s2[i].pid,
    ) by {
        let a = f(i);
        assert(child_linked(s1, s1[a].children@[c], s1[a].pid));
        let k = choose|k: int|
            0 <= k < s1.len() && (#[trigger] s1[k]).pid == s1[a].children@[c] && s1[k].parent
                == Some(s1[a].pid);
        let j = g(k);
        assert(f(j) == k);
        assert(s2[j].pid == s2[i].children@[c] && s2[j].parent == Some(s2[i].pid));
    }
}

/// The invariant holds once a new task with the next pid is added behind the others and
/// entered in the children list of the task at `p`, which it names as its parent.
pub(crate) proof fn lemma_add_child(
    s1: Seq<TaskControlBlock>,
    s2: Seq<TaskControlBlock>,
    p: int,
    next_pid: usize,
)
    requires
        table_wf(s1, next_pid),
        next_pid < usize::MAX,
        0 <= p < s1.len(),
        s2.len() == s1.len() + 1,
        forall|i: int| 0 <= i < s2.len() ==> (#[trigger] s2[i]).wf(),
        forall|i: int| 0 <= i < s1.len() && i != p ==> same_identity(#[trigger] s2[i], s1[i]),
        s2[p].pid == s1[p].pid,
        s2[p].parent == s1[p].parent,
        s2[p].children@ == s1[p].children@.push(next_pid),
        s2[s1.len() as int].pid == next_pid,
        s2[s1.len() as int].parent == Some(s1[p].pid),
        s2[s1.len() as int].children@.len() == 0,
    ensures
        table_wf(s2, (next_pid + 1) as usize),
{
    let n = s1.len() as int;
    assert forall|i: int| 0 <= i < s2.len() implies (#[trigger] s2[i]).wf() && s2[i].pid < next_pid
        + 1 by {
        if i < n {
            assert(s1[i].pid < next_pid);
        }
    }
    assert forall|i: int, j: int| 0 <= i < j < s2.len() implies (#[trigger] s2[i]).pid != (
    #[trigger] s2[j]).pid by {
        assert(s1[i].pid < next_pid);
        if j < n {
            assert(s1[i].pid != s1[j].pid);
        }
    }
    assert forall|i: int, c: int| 0 <= i < s2.len() && 0 <= c < s2[i].children@.len() implies child_linked(
        s2,
        #[trigger] s2[i].children@[c],
        s2[i].pid,
    ) by {
        if i == p && c == s1[p].children@.len() {
            assert(s2[n].pid == s2[i].children@[c] && s2[n].parent == Some(s2[i].pid));
        } else {
            assert(s2[i].children@[c] == s1[i].children@[c]);
            assert(child_linked(s1, s1[i].children@[c], s1[i].pid));
            let k = choose|k: int|
                0 <= k < s1.len() && (#[trigger] s1[k]).pid == s1[i].children@[c] && s1[k].parent
                    == Some(s1[i].pid);
            assert(s2[k].pid == s2[i].children@[c] && s2[k].parent == Some(s2[i].pid));
        }
    }
}

/// The invariant holds once the task at `z` is taken away together with the entry `c`
/// that names it in the children list of its parent at `p`: no other entry names it.
pub(crate) proof fn lemma_reap(
    s1: Seq<TaskControlBlock>,
    s2: Seq<TaskControlBlock>,
    z: int,
    p: int,
    c: int,
    next_pid: usize,
)
    requires
        table_wf(s1, next_pid),
        0 <= z < s1.len(),
        0 <= p < s1.len(),
        z != p,
        0 <= c < s1[p].children@.len(),
        s1[p].children@[c] == s1[z].pid,
        s2.len() == s1.len() - 1,
        forall|i: int| 0 <= i < s2.len() ==> (#[trigger] s2[i]).wf(),
        forall|i: int| 0 <= i < z && i != p ==> same_identity(#[trigger] s2[i], s1[i]),
        forall|i: int| z <= i < s2.len() && i + 1 != p ==> same_identity(#[trigger] s2[i], s1[i + 1]),
        ({
            let q = if p < z { p } else { p - 1 };
            &&& s2[q].pid == s1[p].pid
            &&& s2[q].parent == s1[p].parent
            &&& s2[q].children@ == s1[p].children@.remove(c)
        }),
    ensures
        table_wf(s2, next_pid),
        !has_pid(s2, s1[z].pid),
{
    let q = if p < z { p } else { p - 1 };
    let gone = s1[z].pid;
    assert(s1[p].wf());
    assert forall|i: int| 0 <= i < s2.len() implies (#[trigger] s2[i]).wf() && s2[i].pid
        < next_pid && s2[i].pid != gone by {
        let k = if i < z { i } else { i + 1 };
        assert(s1[k].pid < next_pid);
        if k < z {
            assert(s1[k].pid != s1[z].pid);
        } else {
            assert(s1[z].pid != s1[k].pid);
        }
    }
    assert forall|i: int, j: int| 0 <= i < j < s2.len() implies (#[trigger] s2[i]).pid != (
    #[trigger] s2[j]).pid by {
        let a = if i < z { i } else { i + 1 };
        let b = if j < z { j } else { j + 1 };
        assert(s1[a].pid != s1[b].pid);
    }
    assert forall|i: int, d: int| 0 <= i < s2.len() && 0 <= d < s2[i].children@.len() implies child_linked(
        s2,
        #[trigger] s2[i].children@[d],
        s2[i].pid,
    ) by {
        let a = if i < z { i } else { i + 1 };
        let d1 = if i == q && d >= c { d + 1 } else { d };
        assert(s2[i].children@[d] == s1[a].children@[d1]);
        assert(child_linked(s1, s1[a].children@[d1], s1[a].pid));
        let k = choose|k: int|
            0 <= k < s1.len() && (#[trigger] s1[k]).pid == s1[a].children@[d1] && s1[k].parent
                == Some(s1[a].pid);
        if k == z {
            // the entry names the task that leaves: then its owner is the parent at `p`,
            // and the entry is the one that was taken out
            assert(child_linked(s1, s1[p].children@[c], s1[p].pid));
            let k2 = choose|k2: int|
                0 <= k2 < s1.len() && (#[trigger] s1[k2]).pid == s1[p].children@[c]
                    && s1[k2].parent == Some(s1[p].pid);
            if k2 < z {
                assert(s1[k2].pid != s1[z].pid);
            } else if z < k2 {
                assert(s1[z].pid != s1[k2].pid);
            }
            assert(s1[a].pid == s1[p].pid);
            if a < p {
                assert(s1[a].pid != s1[p].pid);
            } else if p < a {
                assert(s1[p].pid != s1[a].pid);
            }
            assert(a == p);
            if d1 < c {
                assert(s1[p].children@[d1] != s1[p].children@[c]);
            } else if c < d1 {
                assert(s1[p].children@[c] != s1[p].children@[d1]);
            }
            assert(false);
        }
        let j = if k < z { k } else { k - 1 };
        assert(s2[j].pid == s2[i].children@[d] && s2[j].parent == Some(s2[i].pid));
    }
    assert(!has_pid(s2, gone));
}

/// Among tasks that meet the invariant, no children list names a pid that no task has.
pub(crate) proof fn lemma_unreferenced(s: Seq<TaskControlBlock>, pid: usize, next_pid: usize)
    requires
        table_wf(s, next_pid),
        !has_pid(s, pid),
    ensures
        !referenced(s, pid),
{
    if referenced(s, pid) {
        let (i, c) = choose|i: int, c: int|
            0 <= i < s.len() && 0 <= c < s[i].children@.len() && #[trigger] s[i].children@[c]
                == pid;
        assert(child_linked(s, s[i].children@[c], s[i].pid));
        let j = choose|j: int|
            0 <= j < s.len() && (#[trigger] s[j]).pid == s[i].children@[c] && s[j].parent == Some(
                s[i].pid,
            );
        assert(s[j].pid == pid);
    }
}

} // verus!
