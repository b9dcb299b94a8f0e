//! The compression function and leaf hash behind the Merkle tree, and the
//! chain of zero hashes used for untouched regions.
//!
//! Digests are tuples of `DIGEST_WIDTH` BabyBear field elements, carried as
//! canonical `u32` values. The compression itself is a Poseidon2-family
//! permutation supplied by an outside crate; the library's contracts speak
//! of it only through the names `spec_compress` and `spec_hash_leaf`.

use vstd::prelude::*;

verus! {

/// Number of field elements in one digest, and the chunk width of the
/// memory equipartition.
pub const DIGEST_WIDTH: usize = 8;

/// One digest: `DIGEST_WIDTH` canonical BabyBear values.
pub type Digest = [u32; 8];

/// What `compress` returns on a pair of digests. A function of the two
/// arguments alone.
pub uninterp spec fn spec_compress(left: Seq<u32>, right: Seq<u32>) -> Seq<u32>;

/// What `hash_leaf` returns on one chunk of cell values. A function of the
/// argument alone.
pub uninterp spec fn spec_hash_leaf(values: Seq<u32>) -> Seq<u32>;

/// The all-zero chunk of cell values.
pub open spec fn zero_cells() -> Seq<u32> {
    Seq::new(DIGEST_WIDTH as nat, |i: int| 0u32)
}

/// Digest of the maximal untouched subtree with `level` levels of leaves
/// below it: level 0 is the digest of an all-zero leaf, and each further
/// level compresses the previous one with itself.
pub open spec fn spec_zero_hash(level: nat) -> Seq<u32>
    decreases level,
{
    if level == 0 {
        spec_hash_leaf(zero_cells())
    } else {
        spec_compress(spec_zero_hash((level - 1) as nat), spec_zero_hash((level - 1) as nat))
    }
}

/// Relies on `p3_symmetric::TruncatedPermutation::compress` over the default
/// width-16 BabyBear Poseidon2 permutation of `p3_baby_bear`: the returned
/// digest is a function of the two input digests alone.
#[verifier::external_body]
pub fn compress(left: &Digest, right: &Digest) -> (r: Digest)
    ensures
        r@ == spec_compress(left@, right@),
{
    let c = p3_symmetric::TruncatedPermutation::<_, 2, 8, 16>::new(
        p3_baby_bear::default_babybear_poseidon2_16(),
    );
    let input = [left.map(p3_baby_bear::BabyBear::new), right.map(p3_baby_bear::BabyBear::new)];
    p3_symmetric::PseudoCompressionFunction::compress(&c, input)
        .map(|x: p3_baby_bear::BabyBear| p3_field::PrimeField32::as_canonical_u32(&x))
}

/// Relies on `p3_symmetric::PaddingFreeSponge::hash_iter` over the default
/// width-16 BabyBear Poseidon2 permutation of `p3_baby_bear`: the returned
/// digest is a function of the input chunk alone.
#[verifier::external_body]
pub fn hash_leaf(values: &[u32]) -> (r: Digest)
    requires
        values@.len() == 8,
    ensures
        r@ == spec_hash_leaf(values@),
{
    let h = p3_symmetric::PaddingFreeSponge::<_, 16, 8, 8>::new(
        p3_baby_bear::default_babybear_poseidon2_16(),
    );
    let elems = values.iter().map(|x: &u32| p3_baby_bear::BabyBear::new(*x));
    p3_symmetric::CryptographicHasher::hash_iter(&h, elems)
        .map(|x: p3_baby_bear::BabyBear| p3_field::PrimeField32::as_canonical_u32(&x))
}

/// Each zero hash compresses the previous one with itself, starting from
/// the digest of an all-zero leaf: the invariant every stored chain obeys.
pub proof fn lemma_zero_hash_step(level: nat)
    ensures
        spec_zero_hash(0) == spec_hash_leaf(zero_cells()),
        spec_zero_hash((level + 1) as nat) == spec_compress(
            spec_zero_hash(level),
            spec_zero_hash(level),
        ),
{
}

/// Precomputed hash-of-zero at every tree level, shared read-only by all
/// subtrees; entry `i` is the root of an untouched subtree with `2^i` leaves.
pub struct ZeroHashChain {
    pub hashes: Vec<Digest>,
}

impl ZeroHashChain {
    /// Every stored entry is the zero hash of its level.
    pub open spec fn wf(self) -> bool {
        forall|i: int|
            0 <= i < self.hashes@.len() ==> #[trigger] self.hashes@[i]@ == spec_zero_hash(i as nat)
    }

    /// Precompute the chain up to and including `max_level`.
    pub fn new(max_level: usize) -> (r: ZeroHashChain)
        requires
            max_level < usize::MAX,
        ensures
            r.wf(),
            r.hashes@.len() == max_level + 1,
    {
        let mut hashes: Vec<Digest> = Vec::new();
        let zero_chunk: [u32; 8] = [0, 0, 0, 0, 0, 0, 0, 0];
        let h0 = hash_leaf(zero_chunk.as_slice());
        proof {
            assert(zero_chunk@ =~= zero_cells());
        }
        hashes.push(h0);
        let mut level: usize = 1;
        while level <= max_level
            invariant
                max_level < usize::MAX,
                1 <= level <= max_level + 1,
                hashes@.len() == level,
                forall|i: int|
                    0 <= i < hashes@.len() ==> #[trigger] hashes@[i]@ == spec_zero_hash(i as nat),
            decreases max_level + 1 - level,
        {
            let prev = hashes[level - 1];
            let next = compress(&prev, &prev);
            hashes.push(next);
            level = level + 1;
        }
        ZeroHashChain { hashes }
    }

    /// Number of levels stored.
    pub fn len(&self) -> (r: usize)
        ensures
            r == self.hashes@.len(),
    {
        self.hashes.len()
    }

    /// The zero hash at `level`.
    pub fn at(&self, level: usize) -> (r: Digest)
        requires
            self.wf(),
            level < self.hashes@.len(),
        ensures
            r@ == spec_zero_hash(level as nat),
    {
        self.hashes[level]
    }
}

} // verus!
