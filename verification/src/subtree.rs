//! One Merkle subtree per address space: a heap-ordered complete binary tree
//! over the address space's leaf digests, below a vertical path that embeds
//! the subtree into the full-size tree dictated by the configuration.
//!
//! An address space with no cells is an `Empty` subtree: it stores nothing
//! and every one of its virtual nodes is the zero hash of its level.

use vstd::prelude::*;
use vstd::arithmetic::power2::pow2;
use vstd::arithmetic::power2::lemma_pow2_unfold;
use vstd::arithmetic::power2::lemma_pow2_pos;
use vstd::arithmetic::power2::lemma_pow2_strictly_increases;
use vstd::arithmetic::power2::lemma2_to64;

use crate::hash::Digest;
use crate::hash::ZeroHashChain;
use crate::hash::spec_compress;
use crate::hash::spec_hash_leaf;
use crate::hash::spec_zero_hash;
use crate::math::spec_node;
use crate::math::pow2_usize;
use crate::math::exact_log2;
use crate::math::ceil_pow2;

verus! {

/// Position of the heap node `lvl` levels above the leaves with in-layer
/// index `k`, inside a buffer whose heap part starts at `path_len`.
pub open spec fn heap_slot(path_len: nat, height: nat, lvl: nat, k: nat) -> int {
    path_len + pow2((height - lvl) as nat) - 1 + k
}

/// Position of the vertical-path node `lvl` levels above the leaves.
pub open spec fn path_slot(path_len: nat, height: nat, lvl: nat) -> int {
    height + path_len - lvl
}

/// The digests a span of `n` leaf slots takes when the first `len / 8`
/// slots hold hashes of consecutive 8-cell chunks of `cells` and the rest
/// are untouched (all-zero) leaves.
pub open spec fn spec_leaves_of(cells: Seq<u32>, n: nat) -> Seq<Seq<u32>> {
    Seq::new(
        n,
        |i: int|
            if 8 * i + 8 <= cells.len() {
                spec_hash_leaf(cells.subrange(8 * i, 8 * i + 8))
            } else {
                spec_zero_hash(0)
            },
    )
}

pub enum MemoryMerkleSubTree {
    /// An address space with no cells: nothing is stored, and the root is
    /// the zero hash of `height`.
    Empty { height: usize },
    /// `nodes` holds `path_len` vertical-path digests followed by the
    /// heap-ordered tree with `2^height` leaves.
    Populated { nodes: Vec<Digest>, height: usize, path_len: usize },
}

impl MemoryMerkleSubTree {
    /// Levels between the leaves and the (embedded) root.
    pub open spec fn full_height(self) -> nat {
        match self {
            MemoryMerkleSubTree::Empty { height } => height as nat,
            MemoryMerkleSubTree::Populated { height, path_len, .. } => (height + path_len) as nat,
        }
    }

    /// Levels of the heap-ordered part.
    pub open spec fn heap_height(self) -> nat {
        match self {
            MemoryMerkleSubTree::Empty { height } => height as nat,
            MemoryMerkleSubTree::Populated { height, .. } => height as nat,
        }
    }

    /// Length of the vertical path.
    pub open spec fn path_length(self) -> nat {
        match self {
            MemoryMerkleSubTree::Empty { .. } => 0,
            MemoryMerkleSubTree::Populated { path_len, .. } => path_len as nat,
        }
    }

    /// Number of materialized leaf slots.
    pub open spec fn stored_leaf_count(self) -> nat {
        match self {
            MemoryMerkleSubTree::Empty { .. } => 0,
            MemoryMerkleSubTree::Populated { height, .. } => pow2(height as nat),
        }
    }

    /// The flat digest buffer; empty for an `Empty` subtree.
    pub open spec fn buffer(self) -> Seq<Digest> {
        match self {
            MemoryMerkleSubTree::Empty { .. } => Seq::empty(),
            MemoryMerkleSubTree::Populated { nodes, .. } => nodes@,
        }
    }

    /// The digest of the virtual node `lvl` levels above the leaves with
    /// in-layer index `k`, reading the buffer where the node is materialized
    /// and the zero-hash chain where it is not.
    pub open spec fn vnode(self, lvl: nat, k: nat) -> Seq<u32> {
        match self {
            MemoryMerkleSubTree::Empty { .. } => spec_zero_hash(lvl),
            MemoryMerkleSubTree::Populated { nodes, height, path_len } => {
                if lvl <= height {
                    if k < pow2((height as nat - lvl) as nat) {
                        nodes@[heap_slot(path_len as nat, height as nat, lvl, k)]@
                    } else {
                        spec_zero_hash(lvl)
                    }
                } else {
                    if k == 0 && lvl <= height + path_len {
                        nodes@[path_slot(path_len as nat, height as nat, lvl)]@
                    } else {
                        spec_zero_hash(lvl)
                    }
                }
            },
        }
    }

    /// The buffer has the size its heights dictate, and the heights fit the
    /// supported range.
    pub open spec fn wf_shape(self) -> bool {
        match self {
            MemoryMerkleSubTree::Empty { height } => height <= 29,
            MemoryMerkleSubTree::Populated { nodes, height, path_len } => {
                &&& height + path_len <= 29
                &&& nodes@.len() == path_len + 2 * pow2(height as nat) - 1
            },
        }
    }

    /// Every virtual node above the leaves is the compression of its two
    /// children.
    pub open spec fn linked(self) -> bool {
        forall|lvl: nat, k: nat|
            1 <= lvl <= self.full_height() && k < pow2((self.full_height() - lvl) as nat)
                ==> #[trigger] self.vnode(lvl, k) == spec_compress(
                self.vnode((lvl - 1) as nat, 2 * k),
                self.vnode((lvl - 1) as nat, 2 * k + 1),
            )
    }

    pub open spec fn wf(self) -> bool {
        self.wf_shape() && self.linked()
    }

    /// The subtree's leaf layer as it embeds into the full-size tree:
    /// materialized leaves first, untouched all-zero leaves after them.
    pub open spec fn embedded_leaves(self) -> Seq<Seq<u32>> {
        Seq::new(pow2(self.full_height()), |i: int| self.vnode(0, i as nat))
    }

    /// A subtree that stands for no address space at all.
    pub fn dummy() -> (r: Self)
        ensures
            r == (MemoryMerkleSubTree::Empty { height: 0usize }),
    {
        MemoryMerkleSubTree::Empty { height: 0 }
    }

    /// Allocate a subtree for an address space of `addr_space_size` leaf
    /// slots inside a full tree of `max_size` leaf slots. The stored leaf
    /// count is the smallest power of two covering `addr_space_size`, and
    /// the vertical path makes up the difference to `max_size`.
    pub fn new(addr_space_size: usize, max_size: usize) -> (r: Self)
        requires
            exists|e: nat| e <= 29 && max_size == pow2(e),
            addr_space_size <= max_size,
        ensures
            r.wf_shape(),
            pow2(r.full_height()) == max_size,
            (addr_space_size == 0) <==> (r is Empty),
            addr_space_size <= r.stored_leaf_count() || (r is Empty),
            r.stored_leaf_count() <= max_size,
            r.heap_height() == 0 || pow2((r.heap_height() - 1) as nat) < addr_space_size || (
            r is Empty),
    {
        proof {
            let e0 = choose|e: nat| e <= 29 && max_size == pow2(e);
            assert(e0 < 31 && max_size == pow2(e0));
        }
        let e = exact_log2(max_size);
        if addr_space_size == 0 {
            let ghost e0 = choose|e2: nat| e2 <= 29 && max_size == pow2(e2);
            proof {
                if e != e0 {
                    if e < e0 {
                        lemma_pow2_strictly_increases(e as nat, e0);
                    } else {
                        lemma_pow2_strictly_increases(e0, e as nat);
                    }
                }
            }
            MemoryMerkleSubTree::Empty { height: e }
        } else {
            let (size, height) = ceil_pow2(addr_space_size, max_size);
            proof {
                if height > e {
                    lemma_pow2_strictly_increases(e as nat, height as nat);
                }
            }
            let path_len = e - height;
            let ghost e0 = choose|e2: nat| e2 <= 29 && max_size == pow2(e2);
            proof {
                if e != e0 {
                    if e < e0 {
                        lemma_pow2_strictly_increases(e as nat, e0);
                    } else {
                        lemma_pow2_strictly_increases(e0, e as nat);
                    }
                }
                lemma_pow2_pos(height as nat);
                crate::math::lemma_pow2_le(e0, 29);
                lemma2_to64();
            }
            let count = path_len + (2 * size - 1);
            let mut nodes: Vec<Digest> = Vec::new();
            while nodes.len() < count
                invariant
                    count == path_len + 2 * size - 1,
                    nodes@.len() <= count,
                decreases count - nodes.len(),
            {
                nodes.push([0, 0, 0, 0, 0, 0, 0, 0]);
            }
            MemoryMerkleSubTree::Populated { nodes, height, path_len }
        }
    }

    /// The bounds `[start, end)` of the buffer slice holding the layer at
    /// `depth` levels below the embedded root: one slot per vertical-path
    /// level, then the heap-order layer ranges.
    pub fn layer_bounds(&self, depth: usize) -> (r: (usize, usize))
        requires
            self.wf_shape(),
            self is Populated,
            depth < self.full_height(),
        ensures
            depth < self.path_length() ==> r == (depth, (depth + 1) as usize),
            depth >= self.path_length() ==> {
                let d = (depth - self.path_length()) as nat;
                r.0 == self.path_length() + pow2(d) - 1 && r.1 == self.path_length() + pow2(
                    (d + 1) as nat,
                ) - 1
            },
            r.0 < r.1 <= self.path_length() + 2 * self.stored_leaf_count() - 1,
    {
        match self {
            MemoryMerkleSubTree::Empty { .. } => {
                proof {
                    assert(false);
                }
                (0, 0)
            },
            MemoryMerkleSubTree::Populated { nodes, height, path_len } => {
                proof {
                    lemma_pow2_pos(*height as nat);
                }
                if depth < *path_len {
                    (depth, depth + 1)
                } else {
                    let d = depth - *path_len;
                    let p = pow2_usize(d);
                    proof {
                        lemma_pow2_unfold((d + 1) as nat);
                        if d + 1 <= *height {
                            if d + 1 < *height {
                                lemma_pow2_strictly_increases((d + 1) as nat, *height as nat);
                            }
                        }
                        assert(d < *height);
                        lemma_pow2_strictly_increases(d as nat, *height as nat);
                        lemma_pow2_pos(d as nat);
                        crate::math::lemma_pow2_le(*height as nat, 29);
                        lemma2_to64();
                    }
                    (*path_len + (p - 1), *path_len + (2 * p - 1))
                }
            },
        }
    }

    /// The embedded root: the zero hash for an empty subtree, else the first
    /// buffer slot.
    pub fn root(&self, zero_hash: &ZeroHashChain) -> (r: Digest)
        requires
            self.wf_shape(),
            zero_hash.wf(),
            self.full_height() < zero_hash.hashes@.len(),
        ensures
            r@ == self.vnode(self.full_height(), 0),
    {
        match self {
            MemoryMerkleSubTree::Empty { height } => zero_hash.at(*height),
            MemoryMerkleSubTree::Populated { nodes, height, path_len } => {
                proof {
                    lemma2_to64();
                    lemma_pow2_pos(*height as nat);
                }
                nodes[0]
            },
        }
    }

    /// Build the subtree's digests from the address space's final cell
    /// values: leaf hashes of consecutive 8-cell chunks, the heap-ordered
    /// tree above them bottom-up, and the vertical path compressed against
    /// the zero hash of each bypassed level.
    #[verifier::rlimit(100)]
    #[verifier::spinoff_prover]
    pub fn build(&mut self, cells: &Vec<u32>, zero_hash: &ZeroHashChain)
        requires
            old(self).wf_shape(),
            zero_hash.wf(),
            old(self).full_height() < zero_hash.hashes@.len(),
            cells@.len() % 8 == 0,
            cells@.len() / 8 <= old(self).stored_leaf_count(),
        ensures
            final (self).wf(),
            final (self).full_height() == old(self).full_height(),
            final (self).heap_height() == old(self).heap_height(),
            final (self).path_length() == old(self).path_length(),
            ((*final (self)) is Empty) <==> ((*old(self)) is Empty),
            final (self).embedded_leaves() == spec_leaves_of(
                cells@,
                pow2(old(self).full_height()),
            ),
    {
        let ghost fh = old(self).full_height();
        let ghost target = spec_leaves_of(cells@, pow2(fh));
        let (height, path_len) = match &*self {
            MemoryMerkleSubTree::Empty { height } => {
                proof {
                    assert(cells@.len() == 0);
                    assert(self.embedded_leaves() =~= target);
                }
                return ;
            },
            MemoryMerkleSubTree::Populated { height, path_len, .. } => (*height, *path_len),
        };
        proof {
            lemma_pow2_pos(height as nat);
            crate::math::lemma_pow2_le(height as nat, 29);
            lemma2_to64();
            vstd::arithmetic::div_mod::lemma_fundamental_div_mod(cells@.len() as int, 8);
        }
        let size = pow2_usize(height);
        let nleaf = cells.len() / 8;
        let count = path_len + (2 * size - 1);
        let mut new_nodes: Vec<Digest> = Vec::new();
        while new_nodes.len() < count
            invariant
                count == path_len + 2 * size - 1,
                new_nodes@.len() <= count,
            decreases count - new_nodes.len(),
        {
            new_nodes.push([0, 0, 0, 0, 0, 0, 0, 0]);
        }
        // Leaf layer: hashes of the 8-cell chunks, zero hashes past the end.
        let mut i: usize = 0;
        while i < size
            invariant
                new_nodes@.len() == path_len + 2 * size - 1,
                path_len + 2 * size - 1 <= usize::MAX,
                cells@.len() <= usize::MAX,
                size == pow2(height as nat),
                i <= size,
                nleaf == cells@.len() / 8,
                cells@.len() == 8 * nleaf,
                nleaf <= size,
                target == spec_leaves_of(cells@, pow2(fh)),
                pow2(fh) >= size,
                zero_hash.wf(),
                fh < zero_hash.hashes@.len(),
                forall|q: nat|
                    q < i ==> new_nodes@[#[trigger] heap_slot(
                        path_len as nat,
                        height as nat,
                        0,
                        q,
                    )]@ == target[q as int],
            decreases size - i,
        {
            let d = if i < nleaf {
                let chunk = vstd::slice::slice_subrange(cells.as_slice(), 8 * i, 8 * i + 8);
                crate::hash::hash_leaf(chunk)
            } else {
                zero_hash.at(0)
            };
            proof {
                assert(pow2((height - 0) as nat) == size);
                assert(heap_slot(path_len as nat, height as nat, 0, i as nat) == path_len + size - 1
                    + i);
                if i < nleaf {
                    assert(8 * i + 8 <= cells@.len());
                } else {
                    assert(8 * i + 8 > cells@.len());
                }
                assert(i < pow2(fh));
            }
            new_nodes.set(path_len + (size - 1) + i, d);
            i = i + 1;
        }
        // Heap-internal nodes, bottom-up: each compresses its two children.
        let mut jj: usize = size - 1;
        while jj > 0
            invariant
                new_nodes@.len() == path_len + 2 * size - 1,
                path_len + 2 * size - 1 <= usize::MAX,
                size == pow2(height as nat),
                jj <= size - 1,
                forall|q: nat|
                    q < size ==> new_nodes@[#[trigger] heap_slot(
                        path_len as nat,
                        height as nat,
                        0,
                        q,
                    )]@ == target[q as int],
                forall|lvl: nat, k: nat|
                    1 <= lvl <= height && k < pow2((height - lvl) as nat) && heap_slot(
                        path_len as nat,
                        height as nat,
                        lvl,
                        k,
                    ) - path_len >= jj ==> new_nodes@[#[trigger] heap_slot(
                        path_len as nat,
                        height as nat,
                        lvl,
                        k,
                    )]@ == spec_compress(
                        new_nodes@[heap_slot(path_len as nat, height as nat, (lvl - 1) as nat, 2 * k)]@,
                        new_nodes@[heap_slot(
                            path_len as nat,
                            height as nat,
                            (lvl - 1) as nat,
                            2 * k + 1,
                        )]@,
                    ),
            decreases jj,
        {
            let j = jj - 1;
            let left = new_nodes[path_len + (2 * j + 1)];
            let right = new_nodes[path_len + (2 * j + 2)];
            let c = crate::hash::compress(&left, &right);
            let ghost before = new_nodes@;
            new_nodes.set(path_len + j, c);
            proof {
                let pl = path_len as nat;
                let hh = height as nat;
                assert forall|lvl: nat, k: nat|
                    1 <= lvl <= height && k < pow2((height - lvl) as nat) && heap_slot(
                        pl,
                        hh,
                        lvl,
                        k,
                    ) - path_len >= j implies new_nodes@[#[trigger] heap_slot(pl, hh, lvl, k)]@
                    == spec_compress(
                    new_nodes@[heap_slot(pl, hh, (lvl - 1) as nat, 2 * k)]@,
                    new_nodes@[heap_slot(pl, hh, (lvl - 1) as nat, 2 * k + 1)]@,
                ) by {
                    let d = (hh - lvl) as nat;
                    lemma_pow2_unfold((d + 1) as nat);
                    lemma_pow2_pos(d);
                    crate::math::lemma_pow2_le((d + 1) as nat, hh);
                    let s_p = heap_slot(pl, hh, lvl, k);
                    let s_l = heap_slot(pl, hh, (lvl - 1) as nat, 2 * k);
                    let s_r = heap_slot(pl, hh, (lvl - 1) as nat, 2 * k + 1);
                    let hj = s_p - path_len;
                    assert(s_l == path_len + 2 * hj + 1);
                    assert(s_r == path_len + 2 * hj + 2);
                    assert(hj < pow2((d + 1) as nat) - 1);
                    assert(hj <= size - 2);
                    assert(0 <= s_p < before.len());
                    assert(0 <= s_l < before.len());
                    assert(0 <= s_r < before.len());
                    if hj == j {
                        assert(new_nodes@[s_p] == c);
                        assert(new_nodes@[s_l] == before[s_l] && before[s_l] == left);
                        assert(new_nodes@[s_r] == before[s_r] && before[s_r] == right);
                    } else {
                        assert(hj > j);
                        assert(new_nodes@[s_p] == before[s_p]);
                        assert(new_nodes@[s_l] == before[s_l]);
                        assert(new_nodes@[s_r] == before[s_r]);
                        assert(before[s_p]@ == spec_compress(before[s_l]@, before[s_r]@));
                    }
                }
            }
            jj = j;
        }
        // Vertical path: compress upward against the zero hash of each level.
        let ghost after_heap = new_nodes@;
        let mut cur = new_nodes[path_len];
        let mut step: usize = 0;
        while step < path_len
            invariant
                new_nodes@.len() == path_len + 2 * size - 1,
                after_heap.len() == new_nodes@.len(),
                size == pow2(height as nat),
                height + path_len == fh <= 29,
                step <= path_len,
                zero_hash.wf(),
                fh < zero_hash.hashes@.len(),
                cur@ == new_nodes@[if step == 0 {
                    path_len as int
                } else {
                    path_slot(path_len as nat, height as nat, (height + step) as nat)
                }]@,
                forall|s: int| path_len <= s < new_nodes@.len() ==> new_nodes@[s] == after_heap[s],
                forall|lvl2: nat|
                    height < lvl2 <= height + step ==> new_nodes@[#[trigger] path_slot(
                        path_len as nat,
                        height as nat,
                        lvl2,
                    )]@ == spec_compress(
                        new_nodes@[if lvl2 - 1 == height {
                            path_len as int
                        } else {
                            path_slot(path_len as nat, height as nat, (lvl2 - 1) as nat)
                        }]@,
                        spec_zero_hash((lvl2 - 1) as nat),
                    ),
            decreases path_len - step,
        {
            let zh = zero_hash.at(height + step);
            let next = crate::hash::compress(&cur, &zh);
            proof {
                lemma_pow2_pos(height as nat);
                assert(path_slot(path_len as nat, height as nat, (height + step + 1) as nat)
                    == path_len - step - 1);
            }
            let ghost before = new_nodes@;
            new_nodes.set(path_len - step - 1, next);
            proof {
                let pl = path_len as nat;
                let hh = height as nat;
                assert forall|s: int| path_len <= s < new_nodes@.len() implies new_nodes@[s]
                    == after_heap[s] by {
                    assert(new_nodes@[s] == before[s]);
                }
                assert forall|lvl2: nat| height < lvl2 <= height + step + 1 implies new_nodes@[
                #[trigger] path_slot(pl, hh, lvl2)]@ == spec_compress(
                    new_nodes@[if lvl2 - 1 == height {
                        path_len as int
                    } else {
                        path_slot(pl, hh, (lvl2 - 1) as nat)
                    }]@,
                    spec_zero_hash((lvl2 - 1) as nat),
                ) by {
                    if lvl2 == height + step + 1 {
                        assert(path_slot(pl, hh, lvl2) == path_len - step - 1);
                        assert(new_nodes@[path_len - step - 1] == next);
                        if step == 0 {
                            assert(new_nodes@[path_len as int] == before[path_len as int]);
                        } else {
                            assert(path_slot(pl, hh, (lvl2 - 1) as nat) == path_len - step);
                            assert(new_nodes@[path_len - step] == before[path_len - step]);
                        }
                    } else {
                        assert(path_slot(pl, hh, lvl2) >= path_len - step);
                        assert(new_nodes@[path_slot(pl, hh, lvl2)] == before[path_slot(
                            pl,
                            hh,
                            lvl2,
                        )]);
                        if lvl2 - 1 == height {
                            assert(new_nodes@[path_len as int] == before[path_len as int]);
                        } else {
                            assert(path_slot(pl, hh, (lvl2 - 1) as nat) > path_len - step - 1);
                            assert(new_nodes@[path_slot(pl, hh, (lvl2 - 1) as nat)]
                                == before[path_slot(pl, hh, (lvl2 - 1) as nat)]);
                        }
                    }
                }
            }
            cur = next;
            step = step + 1;
        }
        *self = MemoryMerkleSubTree::Populated { nodes: new_nodes, height, path_len };
        proof {
            self.lemma_built(after_heap, cells@, target, nleaf as nat, size as nat);
        }
    }

    /// The facts the three `build` loops leave behind imply that the new
    /// buffer is linked and carries the intended leaves.
    #[verifier::rlimit(100)]
    proof fn lemma_built(
        self,
        after_heap: Seq<Digest>,
        cells: Seq<u32>,
        target: Seq<Seq<u32>>,
        nleaf: nat,
        size: nat,
    )
        requires
            self is Populated,
            self.wf_shape(),
            size == self.stored_leaf_count(),
            nleaf <= size,
            cells.len() == 8 * nleaf,
            target == spec_leaves_of(cells, pow2(self.full_height())),
            after_heap.len() == self.buffer().len(),
            forall|s: int|
                self.path_length() <= s < self.buffer().len() ==> self.buffer()[s]
                    == after_heap[s],
            forall|q: nat|
                q < size ==> after_heap[#[trigger] heap_slot(
                    self.path_length(),
                    self.heap_height(),
                    0,
                    q,
                )]@ == target[q as int],
            forall|lvl: nat, k: nat|
                1 <= lvl <= self.heap_height() && k < pow2((self.heap_height() - lvl) as nat)
                    ==> after_heap[#[trigger] heap_slot(
                    self.path_length(),
                    self.heap_height(),
                    lvl,
                    k,
                )]@ == spec_compress(
                    after_heap[heap_slot(
                        self.path_length(),
                        self.heap_height(),
                        (lvl - 1) as nat,
                        2 * k,
                    )]@,
                    after_heap[heap_slot(
                        self.path_length(),
                        self.heap_height(),
                        (lvl - 1) as nat,
                        2 * k + 1,
                    )]@,
                ),
            forall|lvl2: nat|
                self.heap_height() < lvl2 <= self.full_height() ==> self.buffer()[
                    #[trigger] path_slot(self.path_length(), self.heap_height(), lvl2)]@
                    == spec_compress(
                    self.buffer()[if lvl2 - 1 == self.heap_height() {
                        self.path_length() as int
                    } else {
                        path_slot(self.path_length(), self.heap_height(), (lvl2 - 1) as nat)
                    }]@,
                    spec_zero_hash((lvl2 - 1) as nat),
                ),
        ensures
            self.linked(),
            self.embedded_leaves() == target,
    {
        let pl = self.path_length();
        let hh = self.heap_height();
        let fh = self.full_height();
        assert(heap_slot(pl, hh, hh, 0) == pl) by {
            lemma2_to64();
        }
        assert forall|lvl: nat, k: nat|
            1 <= lvl <= fh && k < pow2((fh - lvl) as nat) implies #[trigger] self.vnode(lvl, k)
            == spec_compress(
            self.vnode((lvl - 1) as nat, 2 * k),
            self.vnode((lvl - 1) as nat, 2 * k + 1),
        ) by {
            lemma_pow2_pos((hh - lvl) as nat);
            if lvl <= hh {
                let d = (hh - lvl) as nat;
                lemma_pow2_unfold((d + 1) as nat);
                lemma_pow2_pos(d);
                if k < pow2(d) {
                    // Materialized heap node: its slot and its children's
                    // slots are in the untouched region above `path_len`.
                    crate::math::lemma_pow2_le((d + 1) as nat, hh);
                    let s_p = heap_slot(pl, hh, lvl, k);
                    let s_l = heap_slot(pl, hh, (lvl - 1) as nat, 2 * k);
                    let s_r = heap_slot(pl, hh, (lvl - 1) as nat, 2 * k + 1);
                    let hj = s_p - pl;
                    assert(s_l == pl + 2 * hj + 1);
                    assert(s_r == pl + 2 * hj + 2);
                    assert(hj <= size - 2);
                    assert(self.buffer()[s_p] == after_heap[s_p]);
                    assert(self.buffer()[s_l] == after_heap[s_l]);
                    assert(self.buffer()[s_r] == after_heap[s_r]);
                } else {
                    assert(2 * k >= pow2((d + 1) as nat));
                }
            } else {
                if k == 0 {
                    if lvl - 1 == hh {
                        assert(pow2((hh - (lvl - 1)) as nat) == 1) by {
                            lemma2_to64();
                        }
                    }
                } else {
                    assert(2 * k >= 2);
                }
            }
        }
        assert(self.embedded_leaves() =~= target) by {
            assert forall|q: int| 0 <= q < pow2(fh) implies self.embedded_leaves()[q]
                == target[q] by {
                lemma2_to64();
                if q < size {
                    assert(heap_slot(pl, hh, 0, q as nat) == pl + size - 1 + q);
                    assert(self.buffer()[heap_slot(pl, hh, 0, q as nat)] == after_heap[heap_slot(
                        pl,
                        hh,
                        0,
                        q as nat,
                    )]);
                    assert(after_heap[heap_slot(pl, hh, 0, q as nat)]@ == target[q]);
                } else {
                    assert(8 * q + 8 > cells.len());
                }
            }
        }
    }

    /// Read the virtual node `lvl` levels above the leaves at in-layer
    /// index `k`.
    pub fn get_local(&self, lvl: usize, k: u64, zero_hash: &ZeroHashChain) -> (r: Digest)
        requires
            self.wf_shape(),
            zero_hash.wf(),
            self.full_height() < zero_hash.hashes@.len(),
            lvl <= self.full_height(),
            k < pow2((self.full_height() - lvl) as nat),
        ensures
            r@ == self.vnode(lvl as nat, k as nat),
    {
        match self {
            MemoryMerkleSubTree::Empty { .. } => zero_hash.at(lvl),
            MemoryMerkleSubTree::Populated { nodes, height, path_len } => {
                if lvl <= *height {
                    proof {
                        crate::math::lemma_pow2_le((*height - lvl) as nat, 29);
                        lemma2_to64();
                    }
                    let width = crate::math::pow2_u64((*height - lvl) as u64);
                    if k < width {
                        let w = width as usize;
                        proof {
                            crate::math::lemma_pow2_le((*height - lvl) as nat, *height as nat);
                            assert(heap_slot(*path_len as nat, *height as nat, lvl as nat, k as nat)
                                == *path_len + (w - 1) + (k as usize));
                        }
                        nodes[*path_len + (w - 1) + (k as usize)]
                    } else {
                        zero_hash.at(lvl)
                    }
                } else {
                    if k == 0 {
                        proof {
                            lemma_pow2_pos(*height as nat);
                        }
                        nodes[*height + *path_len - lvl]
                    } else {
                        zero_hash.at(lvl)
                    }
                }
            },
        }
    }

    /// Overwrite the materialized virtual node `(lvl, k)`; every other
    /// virtual node keeps its digest.
    pub fn set_local(&mut self, lvl: usize, k: u64, d: Digest)
        requires
            old(self).wf_shape(),
            (*old(self)) is Populated,
            lvl <= old(self).full_height(),
            lvl <= old(self).heap_height() ==> k < pow2((old(self).heap_height() - lvl) as nat),
            lvl > old(self).heap_height() ==> k == 0,
        ensures
            final (self).wf_shape(),
            (*final (self)) is Populated,
            final (self).heap_height() == old(self).heap_height(),
            final (self).path_length() == old(self).path_length(),
            final (self).full_height() == old(self).full_height(),
            final (self).vnode(lvl as nat, k as nat) == d@,
            forall|lvl2: nat, k2: nat|
                lvl2 <= old(self).full_height() && !(lvl2 == lvl && k2 == k) ==> final (self).vnode(
                    lvl2,
                    k2,
                ) == #[trigger] old(self).vnode(lvl2, k2),
    {
        let ghost hh = old(self).heap_height();
        let ghost pl = old(self).path_length();
        match &mut *self {
            MemoryMerkleSubTree::Empty { .. } => {
                proof {
                    assert(false);
                }
            },
            MemoryMerkleSubTree::Populated { nodes, height, path_len } => {
                let idx = if lvl <= *height {
                    proof {
                        crate::math::lemma_pow2_le((*height - lvl) as nat, 29);
                        crate::math::lemma_pow2_le((*height - lvl) as nat, *height as nat);
                        lemma2_to64();
                    }
                    let width = crate::math::pow2_u64((*height - lvl) as u64);
                    let w = width as usize;
                    proof {
                        assert(heap_slot(*path_len as nat, *height as nat, lvl as nat, k as nat)
                            == *path_len + (w - 1) + (k as usize));
                    }
                    *path_len + (w - 1) + (k as usize)
                } else {
                    proof {
                        lemma_pow2_pos(*height as nat);
                    }
                    *height + *path_len - lvl
                };
                nodes.set(idx, d);
            },
        }
        proof {
            let fh = old(self).full_height();
            let widx = if lvl <= hh {
                heap_slot(pl, hh, lvl as nat, k as nat)
            } else {
                path_slot(pl, hh, lvl as nat)
            };
            assert((*self) is Populated);
            assert(self.heap_height() == hh);
            assert(self.path_length() == pl);
            assert(self.buffer() == old(self).buffer().update(widx, d));
            assert forall|lvl2: nat, k2: nat|
                lvl2 <= fh && !(lvl2 == lvl && k2 == k) implies self.vnode(lvl2, k2)
                == #[trigger] old(self).vnode(lvl2, k2) by {
                lemma_pow2_pos((hh - lvl2) as nat);
                lemma_pow2_pos((hh - lvl) as nat);
                if lvl2 <= hh && k2 < pow2((hh - lvl2) as nat) {
                    crate::math::lemma_pow2_le((hh - lvl2) as nat, hh);
                    let s2 = heap_slot(pl, hh, lvl2, k2);
                    assert(0 <= s2 < old(self).buffer().len());
                    if lvl <= hh {
                        if lvl2 == lvl {
                            assert(s2 != widx);
                        } else if lvl2 < lvl {
                            crate::math::lemma_pow2_le(
                                ((hh - lvl) + 1) as nat,
                                (hh - lvl2) as nat,
                            );
                            lemma_pow2_unfold(((hh - lvl) + 1) as nat);
                            assert(widx < pl + pow2(((hh - lvl) + 1) as nat) - 1);
                            assert(s2 >= pl + pow2((hh - lvl2) as nat) - 1);
                        } else {
                            crate::math::lemma_pow2_le(
                                ((hh - lvl2) + 1) as nat,
                                (hh - lvl) as nat,
                            );
                            lemma_pow2_unfold(((hh - lvl2) + 1) as nat);
                            assert(s2 < pl + pow2(((hh - lvl2) + 1) as nat) - 1);
                            assert(widx >= pl + pow2((hh - lvl) as nat) - 1);
                        }
                    } else {
                        assert(widx < pl <= s2);
                    }
                    assert(s2 != widx);
                    assert(self.buffer()[s2] == old(self).buffer().update(widx, d)[s2]);
                    assert(self.buffer()[s2] == old(self).buffer()[s2]);
                    assert(self.vnode(lvl2, k2) == self.buffer()[s2]@);
                    assert(old(self).vnode(lvl2, k2) == old(self).buffer()[s2]@);
                } else if lvl2 > hh && k2 == 0 && lvl2 <= fh {
                    let s2 = path_slot(pl, hh, lvl2);
                    if lvl <= hh {
                        assert(s2 < pl <= widx);
                    } else {
                        assert(lvl2 != lvl);
                        assert(s2 != widx);
                    }
                    assert(self.buffer()[s2] == old(self).buffer().update(widx, d)[s2]);
                    assert(self.buffer()[s2] == old(self).buffer()[s2]);
                    assert(self.vnode(lvl2, k2) == self.buffer()[s2]@);
                    assert(old(self).vnode(lvl2, k2) == old(self).buffer()[s2]@);
                } else {
                    assert(self.vnode(lvl2, k2) == spec_zero_hash(lvl2));
                    assert(old(self).vnode(lvl2, k2) == spec_zero_hash(lvl2));
                }
            }
        }
    }

    /// Every virtual node of a well-formed subtree is the model node over
    /// its embedded leaves; at the root this is the embedding property: the
    /// root reconstructed through the vertical path equals the root of the
    /// full-size tree whose extra leaves are all zero.
    pub proof fn lemma_vnode_is_spec_node(self, lvl: nat, k: nat)
        requires
            self.wf(),
            lvl <= self.full_height(),
            k < pow2((self.full_height() - lvl) as nat),
        ensures
            self.vnode(lvl, k) == spec_node(self.embedded_leaves(), lvl, k),
        decreases lvl,
    {
        if lvl == 0 {
        } else {
            let fh = self.full_height();
            lemma_pow2_unfold((fh - lvl + 1) as nat);
            assert(2 * k + 1 < pow2((fh - (lvl - 1)) as nat));
            self.lemma_vnode_is_spec_node((lvl - 1) as nat, 2 * k);
            self.lemma_vnode_is_spec_node((lvl - 1) as nat, 2 * k + 1);
        }
    }
}

} // verus!
