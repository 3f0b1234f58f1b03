//! Page arithmetic on virtual addresses: an address is a `usize`, a virtual
//! page number (vpn) is the address divided by the page size.
use vstd::prelude::*;
use crate::config::{PAGE_SIZE, MAX_VPN};

verus! {

/// The page that holds `va`.
pub open spec fn floor_vpn(va: int) -> int {
    va / (PAGE_SIZE as int)
}

/// The first page that starts at or above `va`.
pub open spec fn ceil_vpn(va: int) -> int {
    (va + PAGE_SIZE - 1) / (PAGE_SIZE as int)
}

/// The first address of page `vpn`.
pub open spec fn vpn_base(vpn: int) -> int {
    vpn * PAGE_SIZE
}

/// Rounds an address down to its page number.
pub fn va_floor(va: usize) -> (vpn: usize)
    ensures
        vpn == floor_vpn(va as int),
        vpn <= MAX_VPN,
        vpn_base(vpn as int) <= va < vpn_base(vpn as int) + PAGE_SIZE,
{
    va / PAGE_SIZE
}

/// Rounds an address up to a page number.
pub fn va_ceil(va: usize) -> (vpn: usize)
    ensures
        vpn == ceil_vpn(va as int),
        vpn <= MAX_VPN + 1,
        va <= vpn_base(vpn as int) < va + PAGE_SIZE,
{
    let f = va / PAGE_SIZE;
    if va % PAGE_SIZE == 0 {
        f
    } else {
        f + 1
    }
}

/// The first address of a page.
pub fn vpn_to_va(vpn: usize) -> (va: usize)
    requires
        vpn <= MAX_VPN,
    ensures
        va == vpn_base(vpn as int),
{
    proof {
        assert(vpn * PAGE_SIZE <= MAX_VPN * PAGE_SIZE) by (nonlinear_arith)
            requires vpn <= MAX_VPN;
        crate::config::lemma_layout_constants();
    }
    vpn * PAGE_SIZE
}

} // verus!
