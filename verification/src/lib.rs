//! The decision logic of a small teaching kernel's system calls, written over
//! plain models of the per-process kernel state they read and change.
//!
//! Each `sys_*` function takes the part of the state that the call touches
//! (descriptor table, root directory, address space, child list, sync objects,
//! ready queue) and returns what the kernel hands back to user space, or, where
//! a call blocks, performs I/O or switches tasks, the step that the
//! surrounding kernel must take next.

pub mod deadlock;
pub mod fs;
pub mod manager;
pub mod mm;
pub mod process;
pub mod slots;
pub mod sync;
