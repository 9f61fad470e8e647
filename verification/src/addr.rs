//! Address helpers shared outside the physical allocator.

use vstd::prelude::*;

use crate::pmm::PHYS_BASE;

verus! {

/// The higher-half alias of a physical address: where the kernel reads the
/// address through its permanent map of physical memory.
pub fn higher_half(addr: u64) -> (r: u64)
    ensures
        r == addr | PHYS_BASE,
        addr < 0x8000_0000_0000 ==> r == addr + PHYS_BASE,
{
    proof {
        assert(addr < 0x8000_0000_0000 ==> (addr | 0xffff8000_0000_0000u64) == addr
            + 0xffff8000_0000_0000) by (bit_vector);
    }
    addr | PHYS_BASE
}

} // verus!
