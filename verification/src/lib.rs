//! The scheduling and address-space core of a small teaching kernel.
//!
//! The core creates, schedules and tears down user tasks and keeps the virtual memory
//! of each. It holds no global state: every operation takes the state it works on.
//!
//! - [`config`]: the constants of the system.
//! - [`mm`]: address spaces made of framed areas, and the checked access to user memory.
//! - [`task`]: the process control block and what a single task does to itself.
//! - [`manager`]: the ready queue and the stride scheduler that selects from it.
//! - [`table`]: the invariant of the set of all tasks that exist.
//! - [`kernel`]: the state of the core, dispatch, yield and exit.
//! - [`syscall`]: the syscalls, stated over the state of the core.
//! - [`fairness`]: what stride scheduling guarantees to tasks of equal priority.

pub mod config;
pub mod fairness;
pub mod kernel;
pub mod manager;
pub mod mm;
pub mod syscall;
pub mod table;
pub mod task;
