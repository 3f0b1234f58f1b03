//! Constants of the kernel.
use vstd::prelude::*;

verus! {

/// Size of the user stack of an application.
pub const USER_STACK_SIZE: usize = 8192;
/// Size of the kernel stack of an application.
pub const KERNEL_STACK_SIZE: usize = 8192;
/// Size of the kernel heap.
pub const KERNEL_HEAP_SIZE: usize = 0x200_0000;
/// Size of a page: 4 KiB.
pub const PAGE_SIZE: usize = 0x1000;
/// Number of offset bits in an address: 12.
pub const PAGE_SIZE_BITS: usize = 0xc;
/// Virtual address of the trampoline page, the highest page of every address space.
pub const TRAMPOLINE: usize = usize::MAX - PAGE_SIZE + 1;
/// Virtual address of the page that holds a task's trap context, just below the trampoline.
pub const TRAP_CONTEXT_BASE: usize = TRAMPOLINE - PAGE_SIZE;
/// Clock frequency of the board.
pub const CLOCK_FREQ: usize = 12500000;
/// End of physical memory.
pub const MEMORY_END: usize = 0x88000000;
/// Base of the MMIO window of the VirtIO block device.
pub const MMIO_BASE: usize = 0x10001000;
/// Length of the MMIO window of the VirtIO block device.
pub const MMIO_LEN: usize = 0x1000;
/// Largest virtual page number: that of the trampoline page.
pub const MAX_VPN: usize = usize::MAX / PAGE_SIZE;

/// The trampoline page is the page of the largest page number.
pub proof fn lemma_layout_constants()
    ensures
        MAX_VPN * PAGE_SIZE == TRAMPOLINE,
        TRAP_CONTEXT_BASE + PAGE_SIZE == TRAMPOLINE,
        TRAMPOLINE % PAGE_SIZE == 0,
        MAX_VPN > 0x8_0000,
{
    assert(usize::MAX == 0xffff_ffff || usize::MAX == 0xffff_ffff_ffff_ffff);
}

} // verus!
