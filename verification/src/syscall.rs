use vstd::prelude::*;
use vstd::bytes::{
    lemma_auto_spec_u32_to_from_le_bytes, lemma_auto_spec_u64_to_from_le_bytes,
    spec_u32_to_le_bytes, spec_u64_to_le_bytes, u32_to_le_bytes, u64_to_le_bytes,
};
use crate::config::{MAX_IMAGE_SIZE, MAX_SYSCALL_NUM, PAGE_SIZE, USER_BASE};
use crate::kernel::{dispatched, is_zombie_of, remaining, yield_step, Kernel};
use crate::mm::{
    access_fault, access_ok, fresh_pages, page_fault, page_range, range_covered, range_overlaps,
    span_at, span_count, user_bytes, user_writable, written, MapPermission, MemorySet, Page,
    PageSpan, TranslateError, VirtAddr,
};
use crate::table::{
    has_pid, lemma_add_child, lemma_reap, lemma_rearranged, lemma_unreferenced, referenced,
    same_identity,
};
use crate::task::{TaskControlBlock, TaskStatus};

verus! {

/// Stores the bytes `src` at user address `dst`, page by page: the range is cut at page
/// boundaries and each part is copied into the frame behind its page. Nothing is stored
/// unless every page of the range may be written.
pub fn copy_paddr_vaddr(memory_set: &mut MemorySet, src: &Vec<u8>, dst: usize) -> (r: Result<
    (),
    TranslateError,
>)
    requires
        old(memory_set).wf(),
        dst + src@.len() <= usize::MAX,
    ensures
        final(memory_set).wf(),
        r.is_ok() == access_ok(old(memory_set)@, dst as int, src@.len() as int, true),
        r.is_ok() ==> final(memory_set)@ == written(old(memory_set)@, dst as int, src@),
        match r {
            Ok(_) => true,
            Err(e) => access_fault(old(memory_set)@, dst as int, src@.len() as int, true, e)
                && *final(memory_set) == *old(memory_set),
        },
{
    let len: usize = src.len();
    let buffers = match memory_set.translated_byte_buffer(dst, len, true) {
        Ok(buffers) => buffers,
        Err(e) => {
            return Err(e);
        },
    };
    let ghost first = dst as int / PAGE_SIZE as int;
    let ghost count = span_count(dst as int, len as int);
    let ghost before = memory_set@;
    let mut start: usize = 0;
    let mut k: usize = 0;
    proof {
        assert(memory_set@ =~= written(before, dst as int, src@.subrange(0, 0))) by {
            memory_set.lemma_pages_whole();
            assert forall|v: int| before.dom().contains(v) implies before[v] == written(
                before,
                dst as int,
                src@.subrange(0, 0),
            )[v] by {
                assert(before[v].data =~= written(before, dst as int, src@.subrange(0, 0))[v].data);
            }
        }
    }
    while k < buffers.len()
        invariant
            memory_set.wf(),
            len == src@.len(),
            dst + len <= usize::MAX,
            first == dst as int / PAGE_SIZE as int,
            count == span_count(dst as int, len as int),
            buffers@.len() == count,
            forall|j: int| 0 <= j < count ==> #[trigger] buffers@[j] == span_at(dst as int, len as int, j),
            access_ok(before, dst as int, len as int, true),
            0 <= k <= count,
            0 <= start <= len,
            k == 0 ==> start == 0,
            0 < k < count ==> dst + start == (first + k) * PAGE_SIZE as int,
            k > 0 && k == count ==> start == len,
            memory_set@ == written(before, dst as int, src@.subrange(0, start as int)),
        decreases count - k,
    {
        let span: PageSpan = buffers[k];
        assert(span == span_at(dst as int, len as int, k as int));
        let ghost pre = memory_set@;
        let ghost vpn = first + k;
        proof {
            assert(crate::mm::page_fault(before, vpn, true).is_none());
            assert(pre.dom().contains(vpn));
        }
        memory_set.write_span(&span, src, start);
        proof {
            let next = start + span.len;
            let target = written(before, dst as int, src@.subrange(0, next));
            let prior = written(before, dst as int, src@.subrange(0, start as int));
            assert forall|v: int| memory_set@.dom().contains(v) implies #[trigger] memory_set@[v]
                == target[v] by {
                if v == vpn {
                    assert(memory_set@[v].data =~= target[v].data);
                } else {
                    assert(prior[v].data =~= target[v].data);
                }
            }
            assert(memory_set@ =~= target);
        }
        start = start + span.len;
        k += 1;
    }
    proof {
        assert(src@.subrange(0, start as int) =~= src@);
    }
    Ok(())
}

/// Fetches the `len` bytes at user address `src`, page by page. Nothing is fetched
/// unless every page of the range may be read.
pub fn copy_vaddr_paddr(memory_set: &MemorySet, src: usize, len: usize) -> (r: Result<
    Vec<u8>,
    TranslateError,
>)
    requires
        memory_set.wf(),
        src + len <= usize::MAX,
    ensures
        r.is_ok() == access_ok(memory_set@, src as int, len as int, false),
        match r {
            Ok(bytes) => bytes@ == user_bytes(memory_set@, src as int, len as int),
            Err(e) => access_fault(memory_set@, src as int, len as int, false, e),
        },
{
    let buffers = match memory_set.translated_byte_buffer(src, len, false) {
        Ok(buffers) => buffers,
        Err(e) => {
            return Err(e);
        },
    };
    let ghost first = src as int / PAGE_SIZE as int;
    let ghost count = span_count(src as int, len as int);
    let mut out: Vec<u8> = Vec::new();
    let mut start: usize = 0;
    let mut k: usize = 0;
    proof {
        memory_set.lemma_pages_whole();
        assert(out@ =~= user_bytes(memory_set@, src as int, 0));
    }
    while k < buffers.len()
        invariant
            memory_set.wf(),
            src + len <= usize::MAX,
            first == src as int / PAGE_SIZE as int,
            count == span_count(src as int, len as int),
            buffers@.len() == count,
            forall|j: int| 0 <= j < count ==> #[trigger] buffers@[j] == span_at(src as int, len as int, j),
            access_ok(memory_set@, src as int, len as int, false),
            forall|vpn: int| #[trigger]
                memory_set@.dom().contains(vpn) ==> memory_set@[vpn].data.len() == PAGE_SIZE,
            0 <= k <= count,
            0 <= start <= len,
            k == 0 ==> start == 0,
            0 < k < count ==> src + start == (first + k) * PAGE_SIZE as int,
            k > 0 && k == count ==> start == len,
            out@ == user_bytes(memory_set@, src as int, start as int),
        decreases count - k,
    {
        let span: PageSpan = buffers[k];
        assert(span == span_at(src as int, len as int, k as int));
        let ghost vpn = first + k;
        proof {
            assert(crate::mm::page_fault(memory_set@, vpn, false).is_none());
            assert(memory_set@.dom().contains(vpn));
        }
        memory_set.read_span(&span, &mut out);
        proof {
            assert(out@ =~= user_bytes(memory_set@, src as int, start + span.len));
        }
        start = start + span.len;
        k += 1;
    }
    Ok(out)
}

/// The byte that the address space `m` holds at user address `a`.
pub open spec fn byte_at(m: Map<int, Page>, a: int) -> u8 {
    m[a / PAGE_SIZE as int].data[a % PAGE_SIZE as int]
}

/// The byte at offset `i` from user address `ptr` can be read and is not zero.
pub open spec fn str_byte(m: Map<int, Page>, ptr: int, i: int) -> bool {
    &&& ptr + i < usize::MAX
    &&& page_fault(m, (ptr + i) / PAGE_SIZE as int, false).is_none()
    &&& byte_at(m, ptr + i) != 0
}

/// `s` is the string that the address space `m` holds at user address `ptr`: its bytes
/// in order, none of them zero, with a zero byte behind the last.
pub open spec fn is_str_at(m: Map<int, Page>, ptr: int, s: Seq<u8>) -> bool {
    &&& forall|i: int| 0 <= i < s.len() ==> #[trigger] str_byte(m, ptr, i) && s[i] == byte_at(m, ptr + i)
    &&& ptr + s.len() < usize::MAX
    &&& page_fault(m, (ptr + s.len()) / PAGE_SIZE as int, false).is_none()
    &&& byte_at(m, ptr + s.len()) == 0
}

/// The address space `m` holds no string at user address `ptr`: `n` bytes can be read,
/// none of them zero, and `e` is what stops the next one from being read. A byte that
/// lies at the very end of the address space counts as not mapped.
pub open spec fn str_fault_at(m: Map<int, Page>, ptr: int, n: int, e: TranslateError) -> bool {
    &&& 0 <= n
    &&& forall|i: int| 0 <= i < n ==> #[trigger] str_byte(m, ptr, i)
    &&& if ptr + n >= usize::MAX {
        e == TranslateError::NotMapped
    } else {
        page_fault(m, (ptr + n) / PAGE_SIZE as int, false) == Some(e)
    }
}

/// Fetches the string at user address `ptr`: the bytes up to the first zero byte.
pub fn translated_str(memory_set: &MemorySet, ptr: usize) -> (r: Result<Vec<u8>, TranslateError>)
    requires
        memory_set.wf(),
    ensures
        match r {
            Ok(s) => is_str_at(memory_set@, ptr as int, s@),
            Err(e) => exists|n: int| str_fault_at(memory_set@, ptr as int, n, e),
        },
{
    let mut out: Vec<u8> = Vec::new();
    let mut addr: usize = ptr;
    loop
        invariant
            memory_set.wf(),
            addr == ptr + out@.len(),
            forall|i: int|
                0 <= i < out@.len() ==> #[trigger] str_byte(memory_set@, ptr as int, i) && out@[i]
                    == byte_at(memory_set@, ptr + i),
        decreases usize::MAX - addr,
    {
        if addr == usize::MAX {
            assert(str_fault_at(
                memory_set@,
                ptr as int,
                out@.len() as int,
                TranslateError::NotMapped,
            ));
            return Err(TranslateError::NotMapped);
        }
        let ghost vpn = addr as int / PAGE_SIZE as int;
        assert(span_count(addr as int, 1) == 1);
        match copy_vaddr_paddr(memory_set, addr, 1) {
            Err(e) => {
                proof {
                    let v = choose|v: int|
                        {
                            &&& vpn <= v < vpn + span_count(addr as int, 1)
                            &&& #[trigger] page_fault(memory_set@, v, false) == Some(e)
                        };
                    assert(v == vpn);
                    assert(str_fault_at(memory_set@, ptr as int, out@.len() as int, e));
                }
                return Err(e);
            },
            Ok(bytes) => {
                let b: u8 = bytes[0];
                assert(page_fault(memory_set@, vpn, false).is_none());
                assert(b == byte_at(memory_set@, addr as int));
                if b == 0 {
                    return Ok(out);
                }
                out.push(b);
                addr += 1;
            },
        }
    }
}

/// The running task exits with `exit_code` and the next ready task is dispatched.
/// The task that called never runs again; its control block stays as a zombie.
pub fn sys_exit(kernel: &mut Kernel, exit_code: i32)
    requires
        old(kernel).wf(),
        old(kernel).current.is_some(),
    ensures
        final(kernel).wf(),
        final(kernel).zombies@.len() == old(kernel).zombies@.len() + 1,
        final(kernel).zombies@.drop_last() == old(kernel).zombies@,
        is_zombie_of(final(kernel).zombies@.last(), old(kernel).current.unwrap(), exit_code),
        final(kernel).current == dispatched(old(kernel).ready()),
        final(kernel).ready() == remaining(old(kernel).ready()),
        final(kernel).next_pid == old(kernel).next_pid,
        final(kernel).reaped == old(kernel).reaped,
        final(kernel).clock_us == old(kernel).clock_us,
        final(kernel).live_count() == old(kernel).live_count(),
{
    kernel.exit_current_and_run_next(exit_code);
}

/// The running task gives up the processor and goes to the back of the ready queue.
pub fn sys_yield(kernel: &mut Kernel) -> (r: isize)
    requires
        old(kernel).wf(),
        old(kernel).current.is_some(),
    ensures
        r == 0,
        final(kernel).wf(),
        ({
            let q = old(kernel).ready().push(
                TaskControlBlock { status: TaskStatus::Ready, ..old(kernel).current.unwrap() },
            );
            &&& final(kernel).current == dispatched(q)
            &&& final(kernel).ready() == remaining(q)
        }),
        final(kernel).current.is_some(),
        final(kernel).runnable() == yield_step(old(kernel).runnable()),
        final(kernel).zombies == old(kernel).zombies,
        final(kernel).next_pid == old(kernel).next_pid,
        final(kernel).reaped == old(kernel).reaped,
        final(kernel).clock_us == old(kernel).clock_us,
        final(kernel).live_count() == old(kernel).live_count(),
{
    kernel.suspend_current_and_run_next();
    0
}

/// The pid of the running task.
pub fn sys_getpid(kernel: &Kernel) -> (r: isize)
    requires
        kernel.wf(),
        kernel.current.is_some(),
    ensures
        r == kernel.current.unwrap().pid,
{
    let task = kernel.current.as_ref().unwrap();
    proof {
        assert(kernel.tasks()[kernel.tasks().len() - 1] == kernel.current.unwrap());
        assert(kernel.tasks()[kernel.tasks().len() - 1].wf());
    }
    task.pid as isize
}

/// Sets the priority of the running task. A priority below 2 is refused with -1 and
/// changes nothing; any other is stored and returned.
pub fn sys_set_priority(kernel: &mut Kernel, prio: isize) -> (r: isize)
    requires
        old(kernel).wf(),
        old(kernel).current.is_some(),
    ensures
        final(kernel).wf(),
        prio < 2 ==> r == -1 && *final(kernel) == *old(kernel),
        prio >= 2 ==> r == prio && final(kernel).current == Some(
            TaskControlBlock { priority: prio as usize, ..old(kernel).current.unwrap() },
        ) && final(kernel).same_but_current(old(kernel)),
{
    if prio < 2 {
        return -1;
    }
    let mut task = kernel.current.take().unwrap();
    proof {
        lemma_current_wf(old(kernel));
    }
    task.set_priority(prio as usize);
    kernel.current = Some(task);
    proof {
        lemma_current_replaced(old(kernel), kernel);
    }
    prio
}

/// Whether a request to map `len` bytes from `start` on with the rights `prot` is
/// granted: `start` is page-aligned, `prot` is non-zero with no bit above bit 2, the
/// range lies within the address space, and none of its pages is mapped.
pub open spec fn mmap_ok(m: Map<int, Page>, start: usize, len: usize, prot: usize) -> bool {
    &&& VirtAddr(start).spec_aligned()
    &&& MapPermission::spec_prot_valid(prot as int)
    &&& start + len <= usize::MAX
    &&& !range_overlaps(m, VirtAddr(start).spec_floor(), VirtAddr((start + len) as usize).spec_ceil())
}

/// The address space after a granted request to map `len` bytes from `start` on: the
/// pages of the range are added, zero-filled, with the rights of `prot` and user access.
pub open spec fn mmap_result(m: Map<int, Page>, start: usize, len: usize, prot: usize) -> Map<
    int,
    Page,
> {
    m.union_prefer_right(
        fresh_pages(
            VirtAddr(start).spec_floor(),
            VirtAddr((start + len) as usize).spec_ceil(),
            MapPermission::spec_from_prot(prot as int).spec_union(
                MapPermission { r: false, w: false, x: false, u: true },
            ),
        ),
    )
}

/// Whether a request to unmap `len` bytes from `start` on is granted: `start` is
/// page-aligned, the range lies within the address space, and all its pages are mapped.
pub open spec fn munmap_ok(m: Map<int, Page>, start: usize, len: usize) -> bool {
    &&& VirtAddr(start).spec_aligned()
    &&& start + len <= usize::MAX
    &&& range_covered(m, VirtAddr(start).spec_floor(), VirtAddr((start + len) as usize).spec_ceil())
}

/// The address space after a granted request to unmap `len` bytes from `start` on.
pub open spec fn munmap_result(m: Map<int, Page>, start: usize, len: usize) -> Map<int, Page> {
    m.remove_keys(
        page_range(VirtAddr(start).spec_floor(), VirtAddr((start + len) as usize).spec_ceil()),
    )
}

/// The pages that a request for `len` bytes from `start` on touches.
pub open spec fn request_pages(start: usize, len: usize) -> Set<int> {
    page_range(VirtAddr(start).spec_floor(), VirtAddr((start + len) as usize).spec_ceil())
}

/// The two requests name byte ranges that share a page.
pub open spec fn requests_overlap(start1: usize, len1: usize, start2: usize, len2: usize) -> bool {
    exists|vpn: int|
        #[trigger] request_pages(start1, len1).contains(vpn) && request_pages(
            start2,
            len2,
        ).contains(vpn)
}

/// After a granted request to map a range, a request to map a range that overlaps it
/// is refused, whatever rights it asks for, while a request to unmap exactly the first
/// range is granted and gives back the address space as it was before.
pub proof fn lemma_overlapping_mmap_refused(
    m: Map<int, Page>,
    start1: usize,
    len1: usize,
    prot1: usize,
    start2: usize,
    len2: usize,
    prot2: usize,
)
    requires
        mmap_ok(m, start1, len1, prot1),
        start2 + len2 <= usize::MAX,
        requests_overlap(start1, len1, start2, len2),
    ensures
        !mmap_ok(mmap_result(m, start1, len1, prot1), start2, len2, prot2),
        munmap_ok(mmap_result(m, start1, len1, prot1), start1, len1),
        munmap_result(mmap_result(m, start1, len1, prot1), start1, len1) == m,
{
    let after = mmap_result(m, start1, len1, prot1);
    let s1 = VirtAddr(start1).spec_floor();
    let e1 = VirtAddr((start1 + len1) as usize).spec_ceil();
    let vpn = choose|vpn: int|
        #[trigger] request_pages(start1, len1).contains(vpn) && request_pages(
            start2,
            len2,
        ).contains(vpn);
    assert(after.dom().contains(vpn));
    assert forall|v: int| s1 <= v < e1 implies !(#[trigger] m.dom().contains(v)) by {}
    assert(munmap_result(after, start1, len1) =~= m);
}

/// A request to unmap a range of which no page is mapped is refused, unless the range
/// holds no page at all.
pub proof fn lemma_unmapped_munmap_refused(m: Map<int, Page>, start: usize, len: usize)
    requires
        start + len <= usize::MAX,
        len > 0,
        !range_overlaps(m, VirtAddr(start).spec_floor(), VirtAddr((start + len) as usize).spec_ceil()),
    ensures
        !munmap_ok(m, start, len),
{
    let vpn = VirtAddr(start).spec_floor();
    assert(!m.dom().contains(vpn));
}

/// The state `post` differs from `pre` in the address space of the running task alone.
pub open spec fn only_memory_changed(pre: &Kernel, post: &Kernel) -> bool {
    &&& post.same_but_current(pre)
    &&& pre.current.is_some()
    &&& post.current.is_some()
    &&& post.current.unwrap() == (TaskControlBlock {
        memory_set: post.current.unwrap().memory_set,
        ..pre.current.unwrap()
    })
}

/// Maps `len` bytes from `start` on into the address space of the running task, each
/// page on a zero-filled frame. Returns 0, or -1 where the request is not granted;
/// then nothing has changed.
pub fn sys_mmap(kernel: &mut Kernel, start: usize, len: usize, prot: usize) -> (r: isize)
    requires
        old(kernel).wf(),
        old(kernel).current.is_some(),
    ensures
        final(kernel).wf(),
        mmap_ok(old(kernel).current.unwrap().memory_set@, start, len, prot) ==> r == 0
            && only_memory_changed(old(kernel), final(kernel))
            && final(kernel).current.unwrap().memory_set@ == mmap_result(
            old(kernel).current.unwrap().memory_set@,
            start,
            len,
            prot,
        ),
        !mmap_ok(old(kernel).current.unwrap().memory_set@, start, len, prot) ==> r == -1
            && *final(kernel) == *old(kernel),
{
    let perm = match MapPermission::from_prot(prot) {
        Some(perm) => perm,
        None => {
            return -1;
        },
    };
    if start % PAGE_SIZE != 0 || len > usize::MAX - start {
        return -1;
    }
    proof {
        lemma_current_wf(old(kernel));
    }
    let start_va = VirtAddr(start);
    let end_va = VirtAddr(start + len);
    let mut task = kernel.current.take().unwrap();
    if task.memory_set.overlaps(start_va.floor(), end_va.ceil()) {
        kernel.current = Some(task);
        return -1;
    }
    task.memory_set.insert_framed_area(start_va, end_va, perm.union(MapPermission::user()));
    kernel.current = Some(task);
    proof {
        lemma_current_replaced(old(kernel), kernel);
    }
    0
}

/// Unmaps `len` bytes from `start` on from the address space of the running task and
/// releases their frames. Returns 0, or -1 where the request is not granted; then
/// nothing has changed.
pub fn sys_munmap(kernel: &mut Kernel, start: usize, len: usize) -> (r: isize)
    requires
        old(kernel).wf(),
        old(kernel).current.is_some(),
    ensures
        final(kernel).wf(),
        munmap_ok(old(kernel).current.unwrap().memory_set@, start, len) ==> r == 0
            && only_memory_changed(old(kernel), final(kernel))
            && final(kernel).current.unwrap().memory_set@ == munmap_result(
            old(kernel).current.unwrap().memory_set@,
            start,
            len,
        ),
        !munmap_ok(old(kernel).current.unwrap().memory_set@, start, len) ==> r == -1
            && *final(kernel) == *old(kernel),
{
    if start % PAGE_SIZE != 0 || len > usize::MAX - start {
        return -1;
    }
    proof {
        lemma_current_wf(old(kernel));
    }
    let start_va = VirtAddr(start);
    let end_va = VirtAddr(start + len);
    let mut task = kernel.current.take().unwrap();
    let r = task.memory_set.remove_framed_area(start_va, end_va);
    kernel.current = Some(task);
    proof {
        if r == 0 {
            lemma_current_replaced(old(kernel), kernel);
        }
    }
    r
}

/// Moves the program break of the running task by `size` bytes. Returns the previous
/// break, or -1 where the request cannot be granted; then nothing has changed.
pub fn sys_sbrk(kernel: &mut Kernel, size: i32) -> (r: isize)
    requires
        old(kernel).wf(),
        old(kernel).current.is_some(),
    ensures
        final(kernel).wf(),
        old(kernel).current.unwrap().brk_grantable(size) ==> {
            let before = old(kernel).current.unwrap();
            let after = final(kernel).current.unwrap();
            &&& r == before.program_brk
            &&& final(kernel).same_but_current(old(kernel))
            &&& final(kernel).current.is_some()
            &&& after.program_brk == before.program_brk + size
            &&& after.memory_set@ == before.brk_memory(size)
            &&& after == (TaskControlBlock {
                memory_set: after.memory_set,
                program_brk: after.program_brk,
                ..before
            })
        },
        !old(kernel).current.unwrap().brk_grantable(size) ==> r == -1 && *final(kernel) == *old(
            kernel,
        ),
{
    proof {
        lemma_current_wf(old(kernel));
    }
    let mut task = kernel.current.take().unwrap();
    let r = task.change_program_brk(size);
    kernel.current = Some(task);
    match r {
        Some(old_brk) => {
            proof {
                lemma_current_replaced(old(kernel), kernel);
            }
            old_brk as isize
        },
        None => -1,
    }
}

/// What the running task is after it has created the child `pid`: as before, with the
/// child entered behind the others in its children list.
pub open spec fn is_parent_of_new(after: TaskControlBlock, before: TaskControlBlock, pid: usize) -> bool {
    &&& after == (TaskControlBlock { children: after.children, ..before })
    &&& after.children@ == before.children@.push(pid)
}

/// The state `post` is `pre` after the running task has created `child`: the child
/// stands at the back of the ready queue under the pid that was next, and its parent
/// lists it.
pub open spec fn child_created(pre: &Kernel, post: &Kernel) -> bool {
    &&& pre.current.is_some()
    &&& post.current.is_some()
    &&& is_parent_of_new(post.current.unwrap(), pre.current.unwrap(), pre.next_pid)
    &&& post.ready().len() == pre.ready().len() + 1
    &&& post.ready().drop_last() == pre.ready()
    &&& post.ready().last().pid == pre.next_pid
    &&& post.ready().last().parent == Some(pre.current.unwrap().pid)
    &&& post.ready().last().is_unscheduled()
    &&& post.zombies == pre.zombies
    &&& post.next_pid == pre.next_pid + 1
    &&& post.reaped == pre.reaped
    &&& post.clock_us == pre.clock_us
}

/// Creating a child keeps the core well formed and adds one task to those that exist.
proof fn lemma_child_created(pre: &Kernel, post: &Kernel)
    requires
        pre.wf(),
        pre.next_pid + 1 < isize::MAX,
        child_created(pre, post),
        post.current.unwrap().wf(),
        post.ready().last().wf(),
        post.ready().last().children@.len() == 0,
        post.ready().last().start_time <= pre.clock_ms(),
    ensures
        post.wf(),
        post.live_count() == pre.live_count() + 1,
{
    let s1 = pre.tasks();
    let s2 = post.tasks();
    let n = s1.len() as int;
    let child = post.ready().last();
    let mid = pre.zombies@ + pre.ready() + seq![post.current.unwrap()] + seq![child];
    assert(s1[n - 1] == pre.current.unwrap());
    assert(post.ready() =~= pre.ready().push(child));
    assert forall|i: int| 0 <= i < mid.len() implies (#[trigger] mid[i]).wf() by {
        if i < n - 1 {
            assert(mid[i] == s1[i]);
            assert(s1[i].wf());
        }
    }
    assert forall|i: int| 0 <= i < n && i != n - 1 implies same_identity(#[trigger] mid[i], s1[i]) by {
        assert(mid[i] == s1[i]);
    }
    lemma_add_child(s1, mid, n - 1, pre.next_pid);
    let f = |i: int|
        if i == n - 1 {
            n
        } else if i == n {
            n - 1
        } else {
            i
        };
    let zl = pre.zombies@.len() as int;
    assert(s2.len() == n + 1);
    assert forall|i: int| 0 <= i < s2.len() implies 0 <= #[trigger] f(i) < mid.len() && s2[i].wf()
        && same_identity(s2[i], mid[f(i)]) && s2[i] == mid[f(i)] by {
        if i < zl {
            assert(s2[i] == pre.zombies@[i]);
            assert(mid[i] == pre.zombies@[i]);
        } else if i < n - 1 {
            assert(s2[i] == post.ready()[i - zl]);
            assert(post.ready()[i - zl] == pre.ready()[i - zl]);
            assert(mid[i] == pre.ready()[i - zl]);
        } else if i == n - 1 {
            assert(s2[i] == post.ready()[i - zl]);
            assert(post.ready()[i - zl] == child);
            assert(mid[n] == child);
        } else {
            assert(s2[i] == post.current.unwrap());
            assert(mid[n - 1] == post.current.unwrap());
        }
        assert(mid[f(i)].wf());
    }
    assert forall|k: int| 0 <= k < mid.len() implies 0 <= #[trigger] f(k) < s2.len() && f(f(k))
        == k by {}
    assert forall|i: int, j: int| 0 <= i < j < s2.len() implies #[trigger] f(i) != #[trigger] f(
        j,
    ) by {}
    lemma_rearranged(mid, s2, f, f, post.next_pid);
    assert forall|i: int| 0 <= i < s2.len() implies (#[trigger] s2[i]).start_time
        <= post.clock_ms() by {
        let k = f(i);
        if k < n - 1 {
            assert(mid[k] == s1[k]);
            assert(s1[k].start_time <= pre.clock_ms());
        } else if k == n - 1 {
            assert(s1[n - 1].start_time <= pre.clock_ms());
        }
    }
    assert forall|i: int| 0 <= i < post.ready().len() implies (#[trigger] post.ready()[i]).status
        == TaskStatus::Ready by {
        if i < pre.ready().len() {
            assert(post.ready()[i] == pre.ready()[i]);
        }
    }
}

/// No entry of the children list of the running task names the pid that is next.
proof fn lemma_next_pid_unused(kernel: &Kernel)
    requires
        kernel.wf(),
        kernel.current.is_some(),
    ensures
        forall|i: int|
            0 <= i < kernel.current.unwrap().children@.len()
                ==> kernel.current.unwrap().children@[i] != kernel.next_pid,
{
    let s = kernel.tasks();
    let n = s.len() as int;
    assert(s[n - 1] == kernel.current.unwrap());
    assert forall|i: int| 0 <= i < kernel.current.unwrap().children@.len() implies kernel.current.unwrap().children@[i]
        != kernel.next_pid by {
        assert(crate::table::child_linked(s, s[n - 1].children@[i], s[n - 1].pid));
    }
}

/// Duplicates the running task. The copy gets the next pid, becomes a child of the
/// caller and goes to the back of the ready queue; its saved return value is 0. Returns
/// the pid of the copy.
pub fn sys_fork(kernel: &mut Kernel) -> (r: isize)
    requires
        old(kernel).wf(),
        old(kernel).current.is_some(),
        old(kernel).next_pid + 1 < isize::MAX,
    ensures
        final(kernel).wf(),
        r == old(kernel).next_pid,
        child_created(old(kernel), final(kernel)),
        final(kernel).ready().last().is_fork_of(
            &old(kernel).current.unwrap(),
            old(kernel).next_pid,
            old(kernel).clock_ms() as usize,
        ),
        final(kernel).ready().last().trap_cx.sepc == old(kernel).current.unwrap().trap_cx.sepc,
        final(kernel).ready().last().trap_cx.x@ == old(kernel).current.unwrap().trap_cx.x@.update(
            10,
            0usize,
        ),
        final(kernel).live_count() == old(kernel).live_count() + 1,
{
    proof {
        lemma_current_wf(old(kernel));
        lemma_next_pid_unused(old(kernel));
    }
    let new_pid: usize = kernel.next_pid;
    let now_ms: usize = kernel.clock_us / 1000;
    let mut task = kernel.current.take().unwrap();
    let mut new_task = task.fork(new_pid, now_ms);
    // the copy resumes as if its own call had returned 0
    new_task.trap_cx.x[10] = 0;
    kernel.current = Some(task);
    kernel.manager.add(new_task);
    kernel.next_pid = new_pid + 1;
    proof {
        assert(kernel.ready().drop_last() =~= old(kernel).ready());
        lemma_child_created(old(kernel), kernel);
    }
    new_pid as isize
}

/// Replaces the program of the running task by `image`, the content of the file that
/// the caller named. Where the file could not be opened, `image` is `None`: the call
/// returns -1 and nothing changes. Otherwise the task gets a fresh address space and a
/// fresh context and the call returns 0.
pub fn sys_exec(kernel: &mut Kernel, image: Option<&Vec<u8>>) -> (r: isize)
    requires
        old(kernel).wf(),
        old(kernel).current.is_some(),
        image.is_some() ==> image.unwrap()@.len() <= MAX_IMAGE_SIZE,
    ensures
        final(kernel).wf(),
        image.is_none() ==> r == -1 && *final(kernel) == *old(kernel),
        image.is_some() ==> {
            let before = old(kernel).current.unwrap();
            let after = final(kernel).current.unwrap();
            let top = crate::mm::image_stack_top(image.unwrap()@.len() as int);
            &&& r == 0
            &&& final(kernel).same_but_current(old(kernel))
            &&& final(kernel).current.is_some()
            &&& after.memory_set@ == crate::mm::image_pages(image.unwrap()@)
            &&& after.trap_cx.is_app_init(USER_BASE, top as usize)
            &&& after.heap_bottom == top
            &&& after.program_brk == top
            &&& after == (TaskControlBlock {
                memory_set: after.memory_set,
                trap_cx: after.trap_cx,
                heap_bottom: after.heap_bottom,
                program_brk: after.program_brk,
                ..before
            })
        },
{
    match image {
        Some(all_data) => {
            proof {
                lemma_current_wf(old(kernel));
            }
            let mut task = kernel.current.take().unwrap();
            task.exec(all_data);
            kernel.current = Some(task);
            proof {
                lemma_current_replaced(old(kernel), kernel);
            }
            0
        },
        None => -1,
    }
}

/// Creates a task from `image`, the content of the file that the caller named. Where
/// the file could not be opened, `image` is `None`: the call returns -1 and nothing
/// changes. Otherwise the new task gets the next pid, becomes a child of the caller and
/// goes to the back of the ready queue, and the call returns its pid.
pub fn sys_spawn(kernel: &mut Kernel, image: Option<&Vec<u8>>) -> (r: isize)
    requires
        old(kernel).wf(),
        old(kernel).current.is_some(),
        old(kernel).next_pid + 1 < isize::MAX,
        image.is_some() ==> image.unwrap()@.len() <= MAX_IMAGE_SIZE,
    ensures
        final(kernel).wf(),
        image.is_none() ==> r == -1 && *final(kernel) == *old(kernel),
        image.is_some() ==> {
            &&& r == old(kernel).next_pid
            &&& child_created(old(kernel), final(kernel))
            &&& final(kernel).ready().last().is_fresh(
                old(kernel).next_pid,
                image.unwrap()@,
                Some(old(kernel).current.unwrap().pid),
                old(kernel).clock_ms() as usize,
            )
            &&& final(kernel).live_count() == old(kernel).live_count() + 1
        },
{
    match image {
        Some(all_data) => {
            proof {
                lemma_current_wf(old(kernel));
                lemma_next_pid_unused(old(kernel));
            }
            let new_pid: usize = kernel.next_pid;
            let now_ms: usize = kernel.clock_us / 1000;
            let mut task = kernel.current.take().unwrap();
            let new_task = task.spawn(new_pid, all_data, now_ms);
            kernel.current = Some(task);
            kernel.manager.add(new_task);
            kernel.next_pid = new_pid + 1;
            proof {
                assert(kernel.ready().drop_last() =~= old(kernel).ready());
                lemma_child_created(old(kernel), kernel);
            }
            new_pid as isize
        },
        None => -1,
    }
}

/// Stores `bytes` at user address `ptr` of the running task, or nothing at all where
/// the task may not be written there.
fn store_user(kernel: &mut Kernel, bytes: &Vec<u8>, ptr: usize) -> (ok: bool)
    requires
        old(kernel).wf(),
        old(kernel).current.is_some(),
    ensures
        final(kernel).wf(),
        ok == user_writable(
            old(kernel).current.unwrap().memory_set@,
            ptr as int,
            bytes@.len() as int,
        ),
        ok ==> only_memory_changed(old(kernel), final(kernel))
            && final(kernel).current.unwrap().memory_set@ == written(
            old(kernel).current.unwrap().memory_set@,
            ptr as int,
            bytes@,
        ),
        !ok ==> *final(kernel) == *old(kernel),
{
    if bytes.len() > usize::MAX - ptr {
        return false;
    }
    proof {
        lemma_current_wf(old(kernel));
    }
    let mut task = kernel.current.take().unwrap();
    let r = copy_paddr_vaddr(&mut task.memory_set, bytes, ptr);
    kernel.current = Some(task);
    match r {
        Ok(_) => {
            proof {
                lemma_current_replaced(old(kernel), kernel);
            }
            true
        },
        Err(_) => false,
    }
}

/// Seconds and microseconds of a clock reading.
#[derive(Clone, Copy, Debug)]
pub struct TimeVal {
    pub sec: usize,
    pub usec: usize,
}

/// Size of a `TimeVal` in user memory, in bytes.
pub const TIME_VAL_SIZE: usize = 16;

impl TimeVal {
    /// The value as it lies in user memory: seconds, then microseconds, each as eight
    /// bytes with the lowest first.
    pub open spec fn spec_to_bytes(&self) -> Seq<u8> {
        spec_u64_to_le_bytes(self.sec as u64) + spec_u64_to_le_bytes(self.usec as u64)
    }

    pub fn to_bytes(&self) -> (bytes: Vec<u8>)
        ensures
            bytes@ == self.spec_to_bytes(),
            bytes@.len() == TIME_VAL_SIZE,
    {
        proof {
            lemma_auto_spec_u64_to_from_le_bytes();
        }
        let mut bytes = u64_to_le_bytes(self.sec as u64);
        let mut rest = u64_to_le_bytes(self.usec as u64);
        bytes.append(&mut rest);
        bytes
    }
}

/// What a task learns about itself.
#[derive(Clone, Copy, Debug)]
pub struct TaskInfo {
    /// Where the task stands in its life cycle.
    pub status: TaskStatus,
    /// How often the task has made each syscall.
    pub syscall_times: [u32; MAX_SYSCALL_NUM],
    /// Milliseconds since the task was created.
    pub time: usize,
}

/// Size of a `TaskInfo` in user memory, in bytes.
pub const TASK_INFO_SIZE: usize = 2016;

/// The number that stands for a status in user memory.
pub open spec fn spec_status_code(status: TaskStatus) -> u8 {
    match status {
        TaskStatus::Ready => 0,
        TaskStatus::Running => 1,
        TaskStatus::Zombie => 2,
    }
}

pub fn status_code(status: TaskStatus) -> (code: u8)
    ensures
        code == spec_status_code(status),
{
    match status {
        TaskStatus::Ready => 0,
        TaskStatus::Running => 1,
        TaskStatus::Zombie => 2,
    }
}

/// Counters as they lie in user memory: four bytes each, the lowest first.
pub open spec fn counters_bytes(counters: Seq<u32>) -> Seq<u8> {
    Seq::new(4 * counters.len(), |i: int| spec_u32_to_le_bytes(counters[i / 4])[i % 4])
}

impl TaskInfo {
    /// The value as it lies in user memory: the status in one byte and three bytes of
    /// padding, the counters, four bytes of padding, and the time as eight bytes with
    /// the lowest first.
    pub open spec fn spec_to_bytes(&self) -> Seq<u8> {
        seq![spec_status_code(self.status), 0u8, 0u8, 0u8] + counters_bytes(self.syscall_times@)
            + seq![0u8, 0u8, 0u8, 0u8] + spec_u64_to_le_bytes(self.time as u64)
    }

    pub fn to_bytes(&self) -> (bytes: Vec<u8>)
        ensures
            bytes@ == self.spec_to_bytes(),
            bytes@.len() == TASK_INFO_SIZE,
    {
        proof {
            lemma_auto_spec_u64_to_from_le_bytes();
            lemma_auto_spec_u32_to_from_le_bytes();
        }
        let mut bytes: Vec<u8> = Vec::new();
        bytes.push(status_code(self.status));
        bytes.push(0);
        bytes.push(0);
        bytes.push(0);
        let ghost head = bytes@;
        assert(head =~= seq![spec_status_code(self.status), 0u8, 0u8, 0u8]);
        let mut k: usize = 0;
        assert(bytes@ =~= head + counters_bytes(self.syscall_times@.subrange(0, 0)));
        while k < MAX_SYSCALL_NUM
            invariant
                0 <= k <= MAX_SYSCALL_NUM,
                head.len() == 4,
                bytes@ == head + counters_bytes(self.syscall_times@.subrange(0, k as int)),
                forall|x: u32| #[trigger] spec_u32_to_le_bytes(x).len() == 4,
            decreases MAX_SYSCALL_NUM - k,
        {
            let mut part = u32_to_le_bytes(self.syscall_times[k]);
            bytes.append(&mut part);
            assert(bytes@ =~= head + counters_bytes(
                self.syscall_times@.subrange(0, k as int + 1),
            ));
            k += 1;
        }
        assert(self.syscall_times@.subrange(0, MAX_SYSCALL_NUM as int) =~= self.syscall_times@);
        bytes.push(0);
        bytes.push(0);
        bytes.push(0);
        bytes.push(0);
        let mut tail = u64_to_le_bytes(self.time as u64);
        bytes.append(&mut tail);
        assert(bytes@ =~= self.spec_to_bytes());
        bytes
    }
}

/// The clock reading of the core as seconds and microseconds.
pub open spec fn time_val_of(clock_us: usize) -> TimeVal {
    TimeVal { sec: (clock_us / 1_000_000) as usize, usec: (clock_us % 1_000_000) as usize }
}

/// Stores the time on the monotonic clock at user address `ts` of the running task, as
/// a `TimeVal`. Returns 0, or -1 where the task may not be written there; then nothing
/// has changed. The time zone `tz` is not looked at.
pub fn sys_get_time(kernel: &mut Kernel, ts: usize, tz: usize) -> (r: isize)
    requires
        old(kernel).wf(),
        old(kernel).current.is_some(),
    ensures
        final(kernel).wf(),
        user_writable(old(kernel).current.unwrap().memory_set@, ts as int, TIME_VAL_SIZE as int)
            ==> r == 0 && only_memory_changed(old(kernel), final(kernel))
            && final(kernel).current.unwrap().memory_set@ == written(
            old(kernel).current.unwrap().memory_set@,
            ts as int,
            time_val_of(old(kernel).clock_us).spec_to_bytes(),
        ),
        !user_writable(old(kernel).current.unwrap().memory_set@, ts as int, TIME_VAL_SIZE as int)
            ==> r == -1 && *final(kernel) == *old(kernel),
{
    let us: usize = kernel.clock_us;
    let time_val = TimeVal { sec: us / 1_000_000, usec: us % 1_000_000 };
    let bytes = time_val.to_bytes();
    if store_user(kernel, &bytes, ts) {
        0
    } else {
        -1
    }
}

/// What the running task learns about itself: that it is running, its syscall counts,
/// and the milliseconds since it was created.
pub open spec fn task_info_of(task: TaskControlBlock, clock_ms: int) -> TaskInfo {
    TaskInfo {
        status: TaskStatus::Running,
        syscall_times: task.syscall_times,
        time: (clock_ms - task.start_time) as usize,
    }
}

/// Stores what the running task learns about itself at its user address `ti`, as a
/// `TaskInfo`. Returns 0, or -1 where the task may not be written there; then nothing
/// has changed.
pub fn sys_task_info(kernel: &mut Kernel, ti: usize) -> (r: isize)
    requires
        old(kernel).wf(),
        old(kernel).current.is_some(),
    ensures
        final(kernel).wf(),
        user_writable(old(kernel).current.unwrap().memory_set@, ti as int, TASK_INFO_SIZE as int)
            ==> r == 0 && only_memory_changed(old(kernel), final(kernel))
            && final(kernel).current.unwrap().memory_set@ == written(
            old(kernel).current.unwrap().memory_set@,
            ti as int,
            task_info_of(old(kernel).current.unwrap(), old(kernel).clock_ms()).spec_to_bytes(),
        ),
        !user_writable(old(kernel).current.unwrap().memory_set@, ti as int, TASK_INFO_SIZE as int)
            ==> r == -1 && *final(kernel) == *old(kernel),
{
    proof {
        lemma_current_wf(old(kernel));
    }
    let current_time: usize = kernel.clock_us / 1000;
    let task = kernel.current.as_ref().unwrap();
    let task_info = TaskInfo {
        status: TaskStatus::Running,
        syscall_times: task.syscall_times,
        time: current_time - task.start_time,
    };
    let bytes = task_info.to_bytes();
    if store_user(kernel, &bytes, ti) {
        0
    } else {
        -1
    }
}

/// Whether the pid that a caller waits for stands for the child `child`: -1 stands for
/// every child, any other number for the child with that pid.
pub open spec fn pid_matches(pid: isize, child: usize) -> bool {
    pid == -1 || pid == child
}

/// Some entry of `children` is one that the caller waits for.
pub open spec fn has_matching_child(children: Seq<usize>, pid: isize) -> bool {
    exists|c: int| 0 <= c < children.len() && pid_matches(pid, #[trigger] children[c])
}

/// Entry `c` is the first of `children` that the caller waits for and that is a zombie.
pub open spec fn reapable(
    children: Seq<usize>,
    zombies: Seq<TaskControlBlock>,
    pid: isize,
    c: int,
) -> bool {
    &&& 0 <= c < children.len()
    &&& pid_matches(pid, children[c])
    &&& has_pid(zombies, children[c])
    &&& forall|d: int|
        0 <= d < c ==> !(pid_matches(pid, #[trigger] children[d]) && has_pid(zombies, children[d]))
}

/// Some child that the caller waits for is a zombie.
pub open spec fn has_reapable(children: Seq<usize>, zombies: Seq<TaskControlBlock>, pid: isize) -> bool {
    exists|c: int| reapable(children, zombies, pid, c)
}

/// The entry of the child that a wait reaps.
pub open spec fn reap_choice(children: Seq<usize>, zombies: Seq<TaskControlBlock>, pid: isize) -> int {
    choose|c: int| reapable(children, zombies, pid, c)
}

/// Where the zombie with pid `pid` stands among `zombies`.
pub open spec fn zombie_index(zombies: Seq<TaskControlBlock>, pid: usize) -> int {
    choose|k: int| 0 <= k < zombies.len() && (#[trigger] zombies[k]).pid == pid
}

/// The exit code as it lies in user memory: four bytes, the lowest first.
pub open spec fn exit_code_bytes(code: i32) -> Seq<u8> {
    spec_u32_to_le_bytes(code as u32)
}

/// At most one entry is the first that can be reaped.
pub proof fn lemma_reapable_unique(
    children: Seq<usize>,
    zombies: Seq<TaskControlBlock>,
    pid: isize,
    a: int,
    b: int,
)
    requires
        reapable(children, zombies, pid, a),
        reapable(children, zombies, pid, b),
    ensures
        a == b,
{
    if a < b {
        assert(pid_matches(pid, children[a]) && has_pid(zombies, children[a]));
    } else if b < a {
        assert(pid_matches(pid, children[b]) && has_pid(zombies, children[b]));
    }
}

/// Looks for the zombie with pid `pid`.
fn find_zombie(zombies: &Vec<TaskControlBlock>, pid: usize) -> (r: Option<usize>)
    ensures
        match r {
            Some(k) => k < zombies@.len() && zombies@[k as int].pid == pid,
            None => !has_pid(zombies@, pid),
        },
{
    let mut k: usize = 0;
    while k < zombies.len()
        invariant
            0 <= k <= zombies@.len(),
            forall|j: int| 0 <= j < k ==> (#[trigger] zombies@[j]).pid != pid,
        decreases zombies@.len() - k,
    {
        if zombies[k].pid == pid {
            return Some(k);
        }
        k += 1;
    }
    None
}

/// Reaps one child of the running task that has exited, without ever blocking.
///
/// `pid` names the child to wait for; -1 stands for any child. Where no child is waited
/// for, the call returns -1. Where such children exist and none is a zombie, it returns
/// -2. Otherwise the first zombie among them is reaped: its exit code is stored at user
/// address `exit_code_ptr`, it leaves the children list, its control block is destroyed
/// and its pid is returned. Nothing names that pid any more. Where the exit code cannot
/// be stored, the call returns -1 and no child is reaped. Whenever the result is
/// negative, nothing has changed.
pub fn sys_waitpid(kernel: &mut Kernel, pid: isize, exit_code_ptr: usize) -> (r: isize)
    requires
        old(kernel).wf(),
        old(kernel).current.is_some(),
    ensures
        final(kernel).wf(),
        ({
            let before = old(kernel).current.unwrap();
            let children = before.children@;
            let zombies = old(kernel).zombies@;
            let memory = before.memory_set@;
            let c = reap_choice(children, zombies, pid);
            let k = zombie_index(zombies, children[c]);
            let after = final(kernel).current.unwrap();
            &&& !has_matching_child(children, pid) ==> r == -1 && *final(kernel) == *old(kernel)
            &&& has_matching_child(children, pid) && !has_reapable(children, zombies, pid) ==> r
                == -2 && *final(kernel) == *old(kernel)
            &&& has_reapable(children, zombies, pid) && !user_writable(
                memory,
                exit_code_ptr as int,
                4,
            ) ==> r == -1 && *final(kernel) == *old(kernel)
            &&& has_reapable(children, zombies, pid) && user_writable(
                memory,
                exit_code_ptr as int,
                4,
            ) ==> {
                &&& reapable(children, zombies, pid, c)
                &&& 0 <= k < zombies.len()
                &&& zombies[k].pid == children[c]
                &&& r == children[c]
                &&& final(kernel).zombies@ == zombies.remove(k)
                &&& final(kernel).current.is_some()
                &&& after == (TaskControlBlock {
                    children: after.children,
                    memory_set: after.memory_set,
                    ..before
                })
                &&& after.children@ == children.remove(c)
                &&& after.memory_set@ == written(
                    memory,
                    exit_code_ptr as int,
                    exit_code_bytes(zombies[k].exit_code),
                )
                &&& final(kernel).manager == old(kernel).manager
                &&& final(kernel).next_pid == old(kernel).next_pid
                &&& final(kernel).reaped == old(kernel).reaped + 1
                &&& final(kernel).clock_us == old(kernel).clock_us
                &&& final(kernel).live_count() == old(kernel).live_count() - 1
                &&& !has_pid(final(kernel).tasks(), children[c])
                &&& !referenced(final(kernel).tasks(), children[c])
            }
        }),
{
    proof {
        lemma_current_wf(old(kernel));
        lemma_auto_spec_u32_to_from_le_bytes();
    }
    let ghost before = old(kernel).current.unwrap();
    let ghost children = before.children@;
    let ghost zombies = old(kernel).zombies@;
    let task = kernel.current.as_ref().unwrap();
    let n: usize = task.children.len();
    // is there a child that the caller waits for, and is one of them a zombie?
    let mut any: bool = false;
    let mut found: Option<(usize, usize)> = None;
    let mut i: usize = 0;
    while i < n && found.is_none()
        invariant
            n == children.len(),
            task.children@ == children,
            kernel.zombies@ == zombies,
            0 <= i <= n,
            any == (exists|d: int| 0 <= d < i && pid_matches(pid, #[trigger] children[d])),
            forall|d: int|
                0 <= d < i && found.is_none() ==> !(pid_matches(pid, #[trigger] children[d])
                    && has_pid(zombies, children[d])),
            match found {
                Some((c, k)) => reapable(children, zombies, pid, c as int) && k < zombies.len()
                    && zombies[k as int].pid == children[c as int] && i == c + 1,
                None => true,
            },
        decreases n - i + (if found.is_none() { 1int } else { 0int }),
    {
        let child: usize = task.children[i];
        if pid == -1 || (pid >= 0 && pid as usize == child) {
            any = true;
            match find_zombie(&kernel.zombies, child) {
                Some(k) => {
                    found = Some((i, k));
                },
                None => {},
            }
        }
        i += 1;
    }
    let (c, k) = match found {
        Some(pair) => pair,
        None => {
            proof {
                assert(!has_reapable(children, zombies, pid)) by {
                    if has_reapable(children, zombies, pid) {
                        let c0 = reap_choice(children, zombies, pid);
                        assert(pid_matches(pid, children[c0]) && has_pid(zombies, children[c0]));
                    }
                }
            }
            if any {
                return -2;
            } else {
                return -1;
            }
        },
    };
    proof {
        let c0 = reap_choice(children, zombies, pid);
        lemma_reapable_unique(children, zombies, pid, c as int, c0);
        let s = old(kernel).tasks();
        let k0 = zombie_index(zombies, children[c as int]);
        assert(s[k as int] == zombies[k as int]);
        assert(s[k0] == zombies[k0]);
        if k0 < k {
            assert(s[k0].pid != s[k as int].pid);
        } else if k < k0 {
            assert(s[k as int].pid != s[k0].pid);
        }
    }
    let found_pid: usize = task.children[c];
    let exit_code: i32 = kernel.zombies[k].exit_code;
    let bytes = u32_to_le_bytes(#[verifier::truncate] (exit_code as u32));
    if !store_user(kernel, &bytes, exit_code_ptr) {
        return -1;
    }
    let ghost mid = *kernel;
    let mut task = kernel.current.take().unwrap();
    proof {
        lemma_current_wf(&mid);
    }
    task.children.remove(c);
    kernel.current = Some(task);
    kernel.zombies.remove(k);
    proof {
        let s1 = mid.tasks();
        let s2 = kernel.tasks();
        let last = s1.len() - 1;
        let zl = zombies.len() as int;
        assert(s1[last] == mid.current.unwrap());
        assert(s1[k as int] == zombies[k as int]);
        assert(s2.len() == s1.len() - 1);
        assert forall|j: int| 0 <= j < s2.len() implies (#[trigger] s2[j]).wf() && s2[j].start_time
            <= kernel.clock_ms() && (j < k && j != last ==> s2[j] == s1[j]) && (k <= j && j + 1
            != last ==> s2[j] == s1[j + 1]) by {
            if j < k {
                assert(s2[j] == zombies[j]);
                assert(s1[j] == zombies[j]);
                assert(s1[j].wf());
                assert(s1[j].start_time <= mid.clock_ms());
            } else if j + 1 < last {
                assert(s1[j + 1].wf());
                assert(s1[j + 1].start_time <= mid.clock_ms());
                if j < zl - 1 {
                    assert(s2[j] == kernel.zombies@[j]);
                    assert(s1[j + 1] == zombies[j + 1]);
                } else {
                    assert(s2[j] == kernel.ready()[j - (zl - 1)]);
                    assert(s1[j + 1] == mid.ready()[j + 1 - zl]);
                }
            } else {
                assert(s2[j] == kernel.current.unwrap());
                assert(s1[last].start_time <= mid.clock_ms());
            }
        }
        lemma_reap(s1, s2, k as int, last, c as int, kernel.next_pid);
        lemma_unreferenced(s2, found_pid, kernel.next_pid);
        assert forall|j: int| 0 <= j < kernel.zombies@.len() implies (#[trigger] kernel.zombies@[j]).status
            == TaskStatus::Zombie by {
            let j1 = if j < k { j } else { j + 1 };
            assert(kernel.zombies@[j] == zombies[j1]);
        }
        assert(s1[k as int].pid < kernel.next_pid);
    }
    kernel.reaped = kernel.reaped + 1;
    found_pid as isize
}

/// The running task of a well-formed core is well formed.
proof fn lemma_current_wf(kernel: &Kernel)
    requires
        kernel.wf(),
        kernel.current.is_some(),
    ensures
        kernel.current.unwrap().wf(),
        kernel.current.unwrap().pid < kernel.next_pid,
        kernel.current.unwrap().start_time <= kernel.clock_ms(),
{
    let s = kernel.tasks();
    assert(s[s.len() - 1] == kernel.current.unwrap());
    assert(s[s.len() - 1].wf());
}

/// A core stays well formed when its running task changes in nothing that the invariant
/// of the core looks at.
proof fn lemma_current_replaced(pre: &Kernel, post: &Kernel)
    requires
        pre.wf(),
        pre.current.is_some(),
        post.current.is_some(),
        post.same_but_current(pre),
        post.current.unwrap().wf(),
        same_identity(post.current.unwrap(), pre.current.unwrap()),
        post.current.unwrap().status == pre.current.unwrap().status,
        post.current.unwrap().start_time == pre.current.unwrap().start_time,
    ensures
        post.wf(),
{
    let s1 = pre.tasks();
    let s2 = post.tasks();
    assert(s2.len() == s1.len());
    assert forall|i: int| 0 <= i < s2.len() implies 0 <= i < s1.len() && (#[trigger] s2[i]).wf()
        && same_identity(s2[i], s1[i]) && s2[i].start_time == s1[i].start_time by {
        assert(s1[i].wf());
    }
    lemma_rearranged(s1, s2, |i: int| i, |i: int| i, pre.next_pid);
    assert forall|i: int| 0 <= i < s2.len() implies (#[trigger] s2[i]).start_time
        <= post.clock_ms() by {
        assert(s1[i].start_time <= pre.clock_ms());
    }
}

} // verus!
