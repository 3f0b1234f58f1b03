//! System calls: what each one decides and changes in the kernel state it
//! is given.
pub mod fs;
pub mod process;
pub mod thread;
