//! A verified model of the memory, file-descriptor, process and thread
//! bookkeeping of a small RISC-V teaching kernel.
use vstd::prelude::*;

pub mod config;
pub mod address;
pub mod frame_allocator;
pub mod page_table;
pub mod memory_set;
pub mod user_mem;
pub mod elf;
pub mod trap;
pub mod task;
pub mod fs;
pub mod syscall;
