//! Equipartition: divide one address space's final memory into fixed-width
//! chunks and extract, for every chunk written during the segment, its
//! latest timestamp and final values.

use vstd::prelude::*;

use crate::update::TouchedBlock;

verus! {

/// Whether any cell of chunk `c` was ever written.
pub open spec fn chunk_touched(timestamps: Seq<u32>, c: int) -> bool {
    exists|q: int| 8 * c <= q < 8 * c + 8 && timestamps[q] > 0
}

/// The largest timestamp in `ts[a .. b)`.
fn max_in(ts: &Vec<u32>, a: usize, b: usize) -> (r: u32)
    requires
        a < b <= ts@.len(),
    ensures
        exists|q: int| a <= q < b && ts@[q] == r,
        forall|q: int| a <= q < b ==> ts@[q] <= r,
{
    let mut r = ts[a];
    let mut q = a + 1;
    while q < b
        invariant
            a < q <= b <= ts@.len(),
            exists|q2: int| a <= q2 < q && ts@[q2] == r,
            forall|q2: int| a <= q2 < q ==> ts@[q2] <= r,
        decreases b - q,
    {
        if ts[q] > r {
            r = ts[q];
        }
        q = q + 1;
    }
    r
}

/// Extract the touched blocks of one address space from its dense final
/// memory: one block per eight-cell chunk in which any cell was ever
/// written (timestamp above zero), in ascending label order, carrying the
/// chunk's final values and the latest timestamp that wrote into it.
pub fn extract_touched_blocks(address_space: u32, values: &Vec<u32>, timestamps: &Vec<u32>) -> (r:
    Vec<TouchedBlock>)
    requires
        values@.len() == timestamps@.len(),
        values@.len() % 8 == 0,
        values@.len() <= 0x8000_0000,
    ensures
        forall|j: int|
            0 <= j < r@.len() ==> {
                let b = #[trigger] r@[j];
                &&& b.address_space == address_space
                &&& 8 * b.label + 8 <= values@.len()
                &&& b.values@ == values@.subrange(8 * b.label, 8 * b.label + 8)
                &&& (exists|q: int|
                    8 * b.label <= q < 8 * b.label + 8 && timestamps@[q] == b.timestamp)
                &&& (forall|q: int|
                    8 * b.label <= q < 8 * b.label + 8 ==> timestamps@[q] <= b.timestamp)
                &&& b.timestamp > 0
            },
        forall|j1: int, j2: int| 0 <= j1 < j2 < r@.len() ==> r@[j1].label < r@[j2].label,
        forall|c: int|
            0 <= c < values@.len() / 8 && #[trigger] chunk_touched(timestamps@, c) ==> (exists|
                j: int,
            |
                0 <= j < r@.len() && (#[trigger] r@[j]).label == c),
{
    let mut r: Vec<TouchedBlock> = Vec::new();
    let nchunks = values.len() / 8;
    proof {
        vstd::arithmetic::div_mod::lemma_fundamental_div_mod(values@.len() as int, 8);
    }
    let mut c: usize = 0;
    while c < nchunks
        invariant
            values@.len() == timestamps@.len(),
            values@.len() == 8 * nchunks,
            values@.len() <= 0x8000_0000,
            c <= nchunks,
            forall|j: int|
                0 <= j < r@.len() ==> {
                    let b = #[trigger] r@[j];
                    &&& b.address_space == address_space
                    &&& b.label < c
                    &&& 8 * b.label + 8 <= values@.len()
                    &&& b.values@ == values@.subrange(8 * b.label, 8 * b.label + 8)
                    &&& (exists|q: int|
                        8 * b.label <= q < 8 * b.label + 8 && timestamps@[q] == b.timestamp)
                    &&& (forall|q: int|
                        8 * b.label <= q < 8 * b.label + 8 ==> timestamps@[q] <= b.timestamp)
                    &&& b.timestamp > 0
                },
            forall|j1: int, j2: int| 0 <= j1 < j2 < r@.len() ==> r@[j1].label < r@[j2].label,
            forall|c2: int|
                0 <= c2 < c && #[trigger] chunk_touched(timestamps@, c2) ==> (exists|j: int|
                    0 <= j < r@.len() && (#[trigger] r@[j]).label == c2),
        decreases nchunks - c,
    {
        let ghost r_before = r@;
        let base = 8 * c;
        let ts = max_in(timestamps, base, base + 8);
        if ts > 0 {
            let b = TouchedBlock {
                address_space,
                label: c as u32,
                timestamp: ts,
                values: [
                    values[base],
                    values[base + 1],
                    values[base + 2],
                    values[base + 3],
                    values[base + 4],
                    values[base + 5],
                    values[base + 6],
                    values[base + 7],
                ],
            };
            proof {
                assert(b.values@ =~= values@.subrange(8 * c as int, 8 * c + 8));
            }
            r.push(b);
        }
        proof {
            assert forall|c2: int|
                0 <= c2 < c + 1 && #[trigger] chunk_touched(timestamps@, c2) implies (exists|
                j: int,
            |
                0 <= j < r@.len() && (#[trigger] r@[j]).label == c2) by {
                if c2 == c {
                    let q = choose|q: int| 8 * c2 <= q < 8 * c2 + 8 && timestamps@[q] > 0;
                    assert(timestamps@[q] <= ts);
                    assert(ts > 0);
                    assert(r@[r@.len() - 1].label == c as u32);
                } else {
                    let j0 = choose|j0: int|
                        0 <= j0 < r_before.len() && (#[trigger] r_before[j0]).label == c2;
                    assert(r@[j0] == r_before[j0]);
                    assert(r@[j0].label == c2);
                }
            }
        }
        c = c + 1;
    }
    r
}

} // verus!
