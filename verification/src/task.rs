use vstd::prelude::*;
use crate::config::{
    DEFAULT_PRIORITY, MAX_IMAGE_SIZE, MAX_STRIDE, MAX_SYSCALL_NUM, MIN_PRIORITY, USER_BASE,
    USER_SPACE_LIMIT,
};
use crate::mm::{
    fresh_pages, image_pages, image_stack_top, page_range, range_covered, range_overlaps,
    MapPermission, MemorySet, Page, VirtAddr,
};

verus! {

/// Where a task stands in its life cycle.
#[derive(Clone, Copy, Debug, PartialEq, Eq, Structural)]
pub enum TaskStatus {
    Ready,
    Running,
    Zombie,
}

/// The user registers saved when a task enters the kernel.
#[derive(Clone, Copy, Debug)]
pub struct TrapContext {
    /// General-purpose registers; `x[2]` is the stack pointer, `x[10]` the return value.
    pub x: [usize; 32],
    /// Address at which the task resumes.
    pub sepc: usize,
}

/// The process control block of one task.
pub struct TaskControlBlock {
    pub pid: usize,
    pub status: TaskStatus,
    /// Stride counter, always below `MAX_STRIDE`.
    pub stride: u64,
    /// Set once the stride counter has wrapped in the current epoch.
    pub is_overflow: bool,
    pub priority: usize,
    pub memory_set: MemorySet,
    pub trap_cx: TrapContext,
    /// Pid of the task that created this one; a lookup key, never an owner.
    pub parent: Option<usize>,
    /// Pids of the tasks that this one created and has not reaped.
    pub children: Vec<usize>,
    pub exit_code: i32,
    pub heap_bottom: usize,
    pub program_brk: usize,
    /// Clock reading, in milliseconds, at which the task was created.
    pub start_time: usize,
    pub syscall_times: [u32; MAX_SYSCALL_NUM],
}

impl TaskControlBlock {
    /// The invariant of a single control block.
    pub open spec fn wf(&self) -> bool {
        &&& self.stride < MAX_STRIDE
        &&& self.priority >= MIN_PRIORITY
        &&& self.memory_set.wf()
        &&& self.pid < isize::MAX
        &&& self.heap_bottom <= self.program_brk <= USER_SPACE_LIMIT
        &&& forall|i: int, j: int|
            0 <= i < j < self.children@.len() ==> self.children@[i] != self.children@[j]
    }

    /// The task has never been dispatched: it is ready, with stride zero and no overflow mark.
    pub open spec fn is_unscheduled(&self) -> bool {
        &&& self.status == TaskStatus::Ready
        &&& self.stride == 0
        &&& !self.is_overflow
    }

    /// The task is as a program image leaves it when loaded under `pid` at time `now_ms`:
    /// with the default priority, its address space the image's, its stack pointer at the
    /// top of the stack, its heap empty above it, no children and no syscalls counted.
    pub open spec fn is_fresh(
        &self,
        pid: usize,
        image: Seq<u8>,
        parent: Option<usize>,
        now_ms: usize,
    ) -> bool {
        let top = image_stack_top(image.len() as int);
        &&& self.pid == pid
        &&& self.priority == DEFAULT_PRIORITY
        &&& self.memory_set@ == image_pages(image)
        &&& self.trap_cx.is_app_init(USER_BASE, top as usize)
        &&& self.parent == parent
        &&& self.children@ == Seq::<usize>::empty()
        &&& self.exit_code == 0
        &&& self.heap_bottom == top
        &&& self.program_brk == top
        &&& self.start_time == now_ms
        &&& self.syscall_times@ == Seq::new(MAX_SYSCALL_NUM as nat, |i: int| 0u32)
    }

    /// The task is the copy that `origin` leaves when it forks under `pid` at time `now_ms`:
    /// the same memory contents and heap, on frames of its own; the default priority, no
    /// children and no syscalls counted.
    pub open spec fn is_fork_of(&self, origin: &TaskControlBlock, pid: usize, now_ms: usize) -> bool {
        &&& self.pid == pid
        &&& self.priority == DEFAULT_PRIORITY
        &&& self.memory_set@ == origin.memory_set@
        &&& self.parent == Some(origin.pid)
        &&& self.children@ == Seq::<usize>::empty()
        &&& self.exit_code == 0
        &&& self.heap_bottom == origin.heap_bottom
        &&& self.program_brk == origin.program_brk
        &&& self.start_time == now_ms
        &&& self.syscall_times@ == Seq::new(MAX_SYSCALL_NUM as nat, |i: int| 0u32)
    }

    /// Whether a request to move the program break by `size` bytes can be granted: the new
    /// break stays between the heap bottom and the user space limit, the pages that a
    /// growing heap takes are all unmapped, and those that a shrinking heap gives back are
    /// all mapped.
    pub open spec fn brk_grantable(&self, size: i32) -> bool {
        let new_brk = self.program_brk as int + size as int;
        &&& self.heap_bottom <= new_brk <= USER_SPACE_LIMIT
        &&& size >= 0 ==> !range_overlaps(
            self.memory_set@,
            VirtAddr(self.program_brk).spec_ceil(),
            VirtAddr(new_brk as usize).spec_ceil(),
        )
        &&& size < 0 ==> range_covered(
            self.memory_set@,
            VirtAddr(new_brk as usize).spec_ceil(),
            VirtAddr(self.program_brk).spec_ceil(),
        )
    }

    /// The address space after a granted request to move the program break by `size` bytes.
    pub open spec fn brk_memory(&self, size: i32) -> Map<int, Page> {
        let new_brk = self.program_brk as int + size as int;
        if size >= 0 {
            self.memory_set@.union_prefer_right(
                fresh_pages(
                    VirtAddr(self.program_brk).spec_ceil(),
                    VirtAddr(new_brk as usize).spec_ceil(),
                    MapPermission { r: true, w: true, x: false, u: true },
                ),
            )
        } else {
            self.memory_set@.remove_keys(
                page_range(
                    VirtAddr(new_brk as usize).spec_ceil(),
                    VirtAddr(self.program_brk).spec_ceil(),
                ),
            )
        }
    }

    /// Loads a program image as a new task.
    pub fn new(pid: usize, image: &Vec<u8>, parent: Option<usize>, now_ms: usize) -> (t: Self)
        requires
            pid < isize::MAX,
            image@.len() <= MAX_IMAGE_SIZE,
        ensures
            t.wf(),
            t.is_fresh(pid, image@, parent, now_ms),
            t.is_unscheduled(),
    {
        let (memory_set, user_sp, entry) = MemorySet::from_image(image);
        TaskControlBlock {
            pid,
            status: TaskStatus::Ready,
            stride: 0,
            is_overflow: false,
            priority: DEFAULT_PRIORITY,
            memory_set,
            trap_cx: TrapContext::app_init_context(entry, user_sp),
            parent,
            children: Vec::new(),
            exit_code: 0,
            heap_bottom: user_sp,
            program_brk: user_sp,
            start_time: now_ms,
            syscall_times: zero_counters(),
        }
    }

    /// Duplicates the task under `pid` and records the copy as a child.
    pub fn fork(&mut self, pid: usize, now_ms: usize) -> (child: Self)
        requires
            old(self).wf(),
            pid < isize::MAX,
            forall|i: int| 0 <= i < old(self).children@.len() ==> old(self).children@[i] != pid,
        ensures
            final(self).wf(),
            child.wf(),
            child.is_fork_of(old(self), pid, now_ms),
            child.is_unscheduled(),
            child.trap_cx == old(self).trap_cx,
            final(self).children@ == old(self).children@.push(pid),
            *final(self) == (TaskControlBlock { children: final(self).children, ..*old(self) }),
    {
        let child = TaskControlBlock {
            pid,
            status: TaskStatus::Ready,
            stride: 0,
            is_overflow: false,
            priority: DEFAULT_PRIORITY,
            memory_set: self.memory_set.duplicate(),
            trap_cx: self.trap_cx,
            parent: Some(self.pid),
            children: Vec::new(),
            exit_code: 0,
            heap_bottom: self.heap_bottom,
            program_brk: self.program_brk,
            start_time: now_ms,
            syscall_times: zero_counters(),
        };
        self.children.push(pid);
        child
    }

    /// Replaces the program of the task by a freshly loaded image. The task keeps its
    /// identity, its relatives and its scheduling state.
    pub fn exec(&mut self, image: &Vec<u8>)
        requires
            old(self).wf(),
            image@.len() <= MAX_IMAGE_SIZE,
        ensures
            final(self).wf(),
            final(self).memory_set@ == image_pages(image@),
            final(self).trap_cx.is_app_init(
                USER_BASE,
                image_stack_top(image@.len() as int) as usize,
            ),
            final(self).heap_bottom == image_stack_top(image@.len() as int),
            final(self).program_brk == image_stack_top(image@.len() as int),
            *final(self) == (TaskControlBlock {
                memory_set: final(self).memory_set,
                trap_cx: final(self).trap_cx,
                heap_bottom: final(self).heap_bottom,
                program_brk: final(self).program_brk,
                ..*old(self)
            }),
    {
        let (memory_set, user_sp, entry) = MemorySet::from_image(image);
        self.memory_set = memory_set;
        self.trap_cx = TrapContext::app_init_context(entry, user_sp);
        self.heap_bottom = user_sp;
        self.program_brk = user_sp;
    }

    /// Loads a program image as a new task under `pid` and records it as a child.
    pub fn spawn(&mut self, pid: usize, image: &Vec<u8>, now_ms: usize) -> (child: Self)
        requires
            old(self).wf(),
            pid < isize::MAX,
            image@.len() <= MAX_IMAGE_SIZE,
            forall|i: int| 0 <= i < old(self).children@.len() ==> old(self).children@[i] != pid,
        ensures
            final(self).wf(),
            child.wf(),
            child.is_fresh(pid, image@, Some(old(self).pid), now_ms),
            child.is_unscheduled(),
            final(self).children@ == old(self).children@.push(pid),
            *final(self) == (TaskControlBlock { children: final(self).children, ..*old(self) }),
    {
        let child = TaskControlBlock::new(pid, image, Some(self.pid), now_ms);
        self.children.push(pid);
        child
    }

    /// Moves the program break by `size` bytes and returns the previous break, or changes
    /// nothing and returns `None` where the request cannot be granted.
    pub fn change_program_brk(&mut self, size: i32) -> (r: Option<usize>)
        requires
            old(self).wf(),
        ensures
            final(self).wf(),
            old(self).brk_grantable(size) ==> {
                &&& r == Some(old(self).program_brk)
                &&& final(self).program_brk == old(self).program_brk + size
                &&& final(self).memory_set@ == old(self).brk_memory(size)
                &&& *final(self) == (TaskControlBlock {
                    memory_set: final(self).memory_set,
                    program_brk: final(self).program_brk,
                    ..*old(self)
                })
            },
            !old(self).brk_grantable(size) ==> r.is_none() && *final(self) == *old(self),
    {
        let old_brk: usize = self.program_brk;
        let target: i64 = old_brk as i64 + size as i64;
        if target < self.heap_bottom as i64 || target > USER_SPACE_LIMIT as i64 {
            return None;
        }
        let new_brk: usize = target as usize;
        let old_end: usize = VirtAddr(old_brk).ceil();
        let new_end: usize = VirtAddr(new_brk).ceil();
        if size >= 0 {
            if self.memory_set.overlaps(old_end, new_end) {
                return None;
            }
            self.memory_set.map_pages(
                old_end,
                new_end,
                MapPermission { r: true, w: true, x: false, u: true },
            );
        } else {
            if !self.memory_set.covers(new_end, old_end) {
                return None;
            }
            self.memory_set.unmap_pages(new_end, old_end);
        }
        self.program_brk = new_brk;
        Some(old_brk)
    }

    /// Stores a new priority, in force from the next dispatch on.
    pub fn set_priority(&mut self, priority: usize)
        requires
            old(self).wf(),
            priority >= MIN_PRIORITY,
        ensures
            final(self).wf(),
            *final(self) == (TaskControlBlock { priority, ..*old(self) }),
    {
        self.priority = priority;
    }
}

/// Syscall counters with nothing counted yet.
fn zero_counters() -> (a: [u32; MAX_SYSCALL_NUM])
    ensures
        a@ == Seq::new(MAX_SYSCALL_NUM as nat, |i: int| 0u32),
{
    let a = [0u32;MAX_SYSCALL_NUM];
    assert(a@ =~= Seq::new(MAX_SYSCALL_NUM as nat, |i: int| 0u32));
    a
}

impl TrapContext {
    /// The context is the one a program starts with: every register zero but the stack
    /// pointer, and execution resuming at `entry`.
    pub open spec fn is_app_init(&self, entry: usize, sp: usize) -> bool {
        &&& self.sepc == entry
        &&& self.x@ == Seq::new(
            32,
            |i: int|
                if i == 2 {
                    sp
                } else {
                    0usize
                },
        )
    }

    /// The context with which a freshly loaded program starts.
    pub fn app_init_context(entry: usize, sp: usize) -> (cx: Self)
        ensures
            cx.is_app_init(entry, sp),
    {
        let mut x = [0usize;32];
        x[2] = sp;
        let cx = TrapContext { x, sepc: entry };
        assert(cx.x@ =~= Seq::new(
            32,
            |i: int|
                if i == 2 {
                    sp
                } else {
                    0usize
                },
        ));
        cx
    }
}

} // verus!
