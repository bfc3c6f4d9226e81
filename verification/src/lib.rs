//! Memory and process management core of a small cooperative single-CPU
//! kernel: a bitmap frame allocator, per-process virtual memory pools,
//! process control blocks and a round-robin scheduler, each with a
//! machine-checked contract.

pub mod addr;
pub mod frame_laws;
pub mod interrupts;
pub mod machine;
pub mod memory;
pub mod page_table;
pub mod process_table;
pub mod scheduler;
pub mod vm_pool;
