//! Boundary accounting: prove that memory read at the start of a segment
//! agrees with memory at its end, either range-checked per touched pointer
//! (volatile) or anchored in the Merkle roots (persistent).

use vstd::prelude::*;

use crate::access_adapters::VariableRangeChecker;
use crate::update::TouchedBlock;

verus! {

/// Words per touched-block descriptor in the flat stream: address space,
/// label, timestamp, and eight cell values.
pub const TIMESTAMPED_BLOCK_WIDTH: usize = 11;

/// Columns of one volatile boundary row: address space, pointer, timestamp
/// and the chunk's eight values.
pub const VOLATILE_TRACE_WIDTH: usize = 11;

/// Columns of one persistent boundary row: an expand direction, address
/// space, label, timestamp and an eight-element digest.
pub const PERSISTENT_TRACE_WIDTH: usize = 12;

/// Persistent mode: touched blocks anchored against the Merkle roots.
pub struct PersistentBoundary {
    pub touched_blocks: Option<Vec<u32>>,
}

/// Volatile mode: raw records whose bounds a range checker asserts.
pub struct VolatileBoundary {
    pub range_checker: VariableRangeChecker,
    pub as_max_bits: usize,
    pub ptr_max_bits: usize,
    pub records: Option<Vec<u32>>,
}

pub enum BoundaryFields {
    Persistent(PersistentBoundary),
    Volatile(VolatileBoundary),
}

/// The boundary chip for one execution segment.
pub struct BoundaryChipHIP {
    pub fields: BoundaryFields,
    pub num_records: Option<usize>,
    pub trace_width: Option<usize>,
}

/// The flat word stream of a touched-block sequence: for each block, its
/// address space, label, timestamp and eight values.
pub open spec fn spec_flatten_blocks(blocks: Seq<TouchedBlock>) -> Seq<u32>
    decreases blocks.len(),
{
    if blocks.len() == 0 {
        Seq::empty()
    } else {
        spec_flatten_blocks(blocks.drop_last()) + seq![
            blocks.last().address_space,
            blocks.last().label,
            blocks.last().timestamp,
        ] + blocks.last().values@
    }
}

impl BoundaryChipHIP {
    /// A persistent-mode boundary chip with nothing finalized yet.
    pub fn persistent() -> (r: BoundaryChipHIP)
        ensures
            r.fields is Persistent,
            r.num_records is None,
            r.trace_width is None,
    {
        BoundaryChipHIP {
            fields: BoundaryFields::Persistent(
                PersistentBoundary { touched_blocks: Option::None },
            ),
            num_records: Option::None,
            trace_width: Option::None,
        }
    }

    /// A volatile-mode boundary chip with nothing finalized yet.
    pub fn volatile(
        range_checker: VariableRangeChecker,
        as_max_bits: usize,
        ptr_max_bits: usize,
    ) -> (r: BoundaryChipHIP)
        ensures
            r.fields is Volatile,
            r.num_records is None,
            r.trace_width is None,
    {
        BoundaryChipHIP {
            fields: BoundaryFields::Volatile(
                VolatileBoundary {
                    range_checker,
                    as_max_bits,
                    ptr_max_bits,
                    records: Option::None,
                },
            ),
            num_records: Option::None,
            trace_width: Option::None,
        }
    }

    /// Record the final equipartitioned memory of a volatile segment: one
    /// flat record per touched chunk. Calling this on a persistent-mode
    /// chip is a programming error and is excluded by contract.
    pub fn finalize_records_volatile(&mut self, final_memory: &Vec<TouchedBlock>)
        requires
            old(self).fields is Volatile,
        ensures
            final (self).fields is Volatile,
            final (self).num_records == Option::Some(final_memory@.len() as usize),
            final (self).trace_width == Option::Some(VOLATILE_TRACE_WIDTH),
            final (self).fields matches BoundaryFields::Volatile(v) && v.records matches Option::Some(
                rec,
            ) && rec@ == spec_flatten_blocks(final_memory@),
    {
        let mut records: Vec<u32> = Vec::new();
        let mut i: usize = 0;
        while i < final_memory.len()
            invariant
                i <= final_memory@.len(),
                records@ == spec_flatten_blocks(final_memory@.take(i as int)),
            decreases final_memory@.len() - i,
        {
            let b = &final_memory[i];
            records.push(b.address_space);
            records.push(b.label);
            records.push(b.timestamp);
            let mut q: usize = 0;
            while q < 8
                invariant
                    q <= 8,
                    i < final_memory@.len(),
                    records@ == spec_flatten_blocks(final_memory@.take(i as int)) + seq![
                        final_memory@[i as int].address_space,
                        final_memory@[i as int].label,
                        final_memory@[i as int].timestamp,
                    ] + final_memory@[i as int].values@.take(q as int),
                decreases 8 - q,
            {
                records.push(final_memory[i].values[q]);
                proof {
                    assert(final_memory@[i as int].values@.take(q + 1 as int)
                        =~= final_memory@[i as int].values@.take(q as int).push(
                        final_memory@[i as int].values@[q as int],
                    ));
                }
                q = q + 1;
            }
            proof {
                assert(final_memory@.take(i + 1 as int).drop_last() =~= final_memory@.take(
                    i as int,
                ));
                assert(final_memory@[i as int].values@.take(8) =~= final_memory@[i as int].values@);
            }
            i = i + 1;
        }
        proof {
            assert(final_memory@.take(final_memory@.len() as int) =~= final_memory@);
        }
        match &mut self.fields {
            BoundaryFields::Volatile(v) => {
                v.records = Option::Some(records);
            },
            BoundaryFields::Persistent(_) => {
                proof {
                    assert(false);
                }
            },
        }
        self.num_records = Option::Some(final_memory.len());
        self.trace_width = Option::Some(VOLATILE_TRACE_WIDTH);
    }

    /// Record the touched blocks of a persistent segment as the flat
    /// `TIMESTAMPED_BLOCK_WIDTH`-word stream. Calling this on a
    /// volatile-mode chip is a programming error and is excluded by
    /// contract.
    pub fn finalize_records_persistent(&mut self, touched_blocks: Vec<u32>)
        requires
            old(self).fields is Persistent,
            touched_blocks@.len() % (TIMESTAMPED_BLOCK_WIDTH as nat) == 0,
        ensures
            final (self).fields is Persistent,
            final (self).num_records == Option::Some(
                (touched_blocks@.len() / (TIMESTAMPED_BLOCK_WIDTH as nat)) as usize,
            ),
            final (self).trace_width == Option::Some(PERSISTENT_TRACE_WIDTH),
    {
        let n = touched_blocks.len() / TIMESTAMPED_BLOCK_WIDTH;
        match &mut self.fields {
            BoundaryFields::Persistent(p) => {
                p.touched_blocks = Option::Some(touched_blocks);
            },
            BoundaryFields::Volatile(_) => {
                proof {
                    assert(false);
                }
            },
        }
        self.num_records = Option::Some(n);
        self.trace_width = Option::Some(PERSISTENT_TRACE_WIDTH);
    }

    /// The trace width chosen at finalization.
    pub fn trace_width(&self) -> (r: usize)
        requires
            self.trace_width is Some,
        ensures
            r == self.trace_width.unwrap(),
    {
        match self.trace_width {
            Option::Some(w) => w,
            Option::None => {
                proof {
                    assert(false);
                }
                0
            },
        }
    }

    /// The unpadded boundary trace height: one row per record in volatile
    /// mode, two rows per touched block (initial and final assertion) in
    /// persistent mode.
    pub fn unpadded_trace_height(&self) -> (r: usize)
        requires
            self.num_records is Some,
            self.num_records.unwrap() <= usize::MAX / 2,
        ensures
            self.fields is Persistent ==> r == 2 * self.num_records.unwrap(),
            self.fields is Volatile ==> r == self.num_records.unwrap(),
    {
        let n = match self.num_records {
            Option::Some(n) => n,
            Option::None => {
                proof {
                    assert(false);
                }
                0
            },
        };
        match &self.fields {
            BoundaryFields::Persistent(_) => 2 * n,
            BoundaryFields::Volatile(_) => n,
        }
    }
}

} // verus!
