//! The memory configuration the Merkle tree is built against: cells per
//! address space and the pointer width, with the derived tree dimensions.

use vstd::prelude::*;
use vstd::arithmetic::power2::pow2;

verus! {

/// Number of reserved low address spaces excluded from Merkleization.
pub const ADDR_SPACE_OFFSET: usize = 1;

/// Per-address-space cell counts plus the global pointer-width bound.
pub struct MemoryConfig {
    /// Cells in each address space; the first `ADDR_SPACE_OFFSET` entries
    /// are reserved and hold no cells.
    pub addr_space_cells: Vec<usize>,
    /// Bits of a pointer. Cells are chunked eight to a leaf, so leaf labels
    /// use `pointer_max_bits - 3` bits.
    pub pointer_max_bits: usize,
}

impl MemoryConfig {
    /// Address spaces beyond the reserved offset.
    pub open spec fn num_addr_spaces(self) -> nat {
        (self.addr_space_cells@.len() - ADDR_SPACE_OFFSET) as nat
    }

    /// Bits of a leaf label within one address space.
    pub open spec fn label_bits(self) -> nat {
        (self.pointer_max_bits - 3) as nat
    }

    /// The configuration invariant: a power-of-two count of address spaces,
    /// empty reserved spaces, chunk-aligned cell counts that fit under the
    /// pointer bound, and dimensions small enough to index and allocate.
    pub open spec fn valid(self) -> bool {
        &&& 3 <= self.pointer_max_bits <= 32
        &&& self.label_bits() <= 29
        &&& self.addr_space_cells@.len() > ADDR_SPACE_OFFSET
        &&& (exists|e: nat| e <= 10 && self.num_addr_spaces() == pow2(e))
        &&& (forall|i: int|
            0 <= i < ADDR_SPACE_OFFSET ==> self.addr_space_cells@[i] == 0)
        &&& (forall|i: int|
            0 <= i < self.addr_space_cells@.len() ==> #[trigger] self.addr_space_cells@[i] % 8
                == 0)
        &&& (forall|i: int|
            0 <= i < self.addr_space_cells@.len() ==> #[trigger] self.addr_space_cells@[i] / 8
                <= pow2(self.label_bits()))
    }
}

} // verus!
