//! The phantom chip's host-side accounting: how many rows its record arena
//! holds and how wide its trace is.

use vstd::prelude::*;

verus! {

/// Bytes of one phantom record in the arena: program counter, timestamp
/// and three operand words.
pub const PHANTOM_RECORD_SIZE: usize = 20;

/// Columns of one phantom trace row.
pub const PHANTOM_TRACE_WIDTH: usize = 6;

pub struct PhantomChipHIP;

impl PhantomChipHIP {
    /// Rows of the phantom trace: one per record in the arena. An arena
    /// length that is no multiple of the record size is a fatal invariant
    /// violation and is excluded by contract.
    pub fn trace_height(arena_len: usize) -> (r: usize)
        requires
            arena_len % PHANTOM_RECORD_SIZE == 0,
        ensures
            r == arena_len / PHANTOM_RECORD_SIZE,
    {
        arena_len / PHANTOM_RECORD_SIZE
    }

    /// Columns of the phantom trace.
    pub fn trace_width() -> (r: usize)
        ensures
            r == PHANTOM_TRACE_WIDTH,
    {
        PHANTOM_TRACE_WIDTH
    }
}

} // verus!
