//! Process-management and scheduling core of a single-core teaching kernel.
//!
//! The crate models the kernel state that the syscall layer operates on —
//! process control blocks, the stride-scheduler ready queue, each process's
//! address space — as explicit values, and verifies the syscall handlers
//! against contracts over that model.  The hardware collaborators (page
//! tables, the program loader, the timer, trap assembly) appear only through
//! the state they maintain: pages with contents, a program store, a clock.
pub mod config;
pub mod mm;
pub mod kernel;
pub mod manager;
pub mod syscall;
pub mod task;
pub mod wire;
