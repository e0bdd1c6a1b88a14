use vstd::prelude::*;

verus! {

/// Size of one page of virtual memory, in bytes.
pub const PAGE_SIZE: usize = 4096;

/// The stride numerator: one dispatch advances a task by `BIG_STRIDE / priority`.
pub const BIG_STRIDE: u64 = 0x10_0000;

/// Exclusive upper bound of every stride counter.
pub const MAX_STRIDE: u64 = 0x1_0000_0000;

/// Priority given to a task at creation.
pub const DEFAULT_PRIORITY: usize = 16;

/// Lowest priority a task may hold.
pub const MIN_PRIORITY: usize = 2;

/// Number of distinct syscall identifiers that are counted per task.
pub const MAX_SYSCALL_NUM: usize = 500;

/// Number of pages in the user stack of a freshly loaded program.
pub const USER_STACK_PAGES: usize = 2;

/// Highest address that a program break may reach.
pub const USER_SPACE_LIMIT: usize = 0x7fff_f000;

/// Address at which a program image is loaded and entered. The pages below stay free.
pub const USER_BASE: usize = 0x1_0000;

/// Largest program image, in bytes, that fits between the load address and the user
/// space limit together with its guard page and its stack.
pub const MAX_IMAGE_SIZE: usize = 0x7ffe_c000;

} // verus!
