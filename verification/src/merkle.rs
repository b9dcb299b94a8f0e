//! The Merkle tree over all address spaces: one subtree per space, plus the
//! `top_roots` pyramid that folds the subtree roots into one global root.

use vstd::prelude::*;
use vstd::arithmetic::power2::pow2;
use vstd::arithmetic::power2::lemma_pow2_unfold;
use vstd::arithmetic::power2::lemma_pow2_pos;
use vstd::arithmetic::power2::lemma2_to64;

use crate::config::MemoryConfig;
use crate::config::ADDR_SPACE_OFFSET;
use crate::hash::Digest;
use crate::hash::ZeroHashChain;
use crate::hash::spec_compress;
use crate::math::pow2_usize;
use crate::math::exact_log2;
use crate::subtree::MemoryMerkleSubTree;
use crate::subtree::spec_leaves_of;

verus! {

/// Slot of the top-pyramid node `depth` levels below the global root with
/// in-layer index `k`, in the heap-ordered `top_roots` buffer.
pub open spec fn top_slot(depth: nat, k: nat) -> int {
    pow2(depth) - 1 + k
}

/// A pushed subtree agrees with the configuration entry it was built for.
pub open spec fn subtree_matches(config: MemoryConfig, st: MemoryMerkleSubTree, j: int) -> bool {
    &&& st.wf_shape()
    &&& st.full_height() == config.label_bits()
    &&& ((st is Empty) <==> config.addr_space_cells@[j + ADDR_SPACE_OFFSET] == 0)
    &&& (config.addr_space_cells@[j + ADDR_SPACE_OFFSET] / 8 <= st.stored_leaf_count() || (
    st is Empty))
}

pub struct MemoryMerkleTree {
    pub mem_config: MemoryConfig,
    pub zero_hash: ZeroHashChain,
    pub subtrees: Vec<MemoryMerkleSubTree>,
    pub top_roots: Vec<Digest>,
    /// Height of the global tree: label bits plus the address-space bits.
    pub height: usize,
    /// Bits of a leaf label within one address space.
    pub label_bits: usize,
    /// Bits of the address-space index.
    pub as_height: usize,
}

impl MemoryMerkleTree {
    /// Number of Merkleized address spaces.
    pub open spec fn num_spaces(self) -> nat {
        pow2(self.as_height as nat)
    }

    /// The fields agree with each other and with the configuration, and
    /// every pushed subtree is built and matches its address space.
    pub open spec fn wf_config(self) -> bool {
        &&& self.mem_config.valid()
        &&& self.label_bits == self.mem_config.label_bits()
        &&& self.as_height <= 10
        &&& self.num_spaces() == self.mem_config.num_addr_spaces()
        &&& self.height == self.label_bits + self.as_height
        &&& self.zero_hash.wf()
        &&& self.zero_hash.hashes@.len() == self.label_bits + 1
        &&& self.subtrees@.len() <= self.num_spaces()
        &&& self.top_roots@.len() == 2 * self.num_spaces() - 1
        &&& (forall|j: int|
            0 <= j < self.subtrees@.len() ==> #[trigger] subtree_matches(
                self.mem_config,
                self.subtrees@[j],
                j,
            ))
    }

    /// Every address space's subtree has been appended.
    pub open spec fn complete(self) -> bool {
        &&& self.wf_config()
        &&& self.subtrees@.len() == self.num_spaces()
    }

    /// The digest of the global virtual tree node `lvl` levels above the
    /// leaves with in-layer index `k`: inside some subtree for the lower
    /// levels, in the top pyramid above them.
    pub open spec fn tree_vnode(self, lvl: nat, k: nat) -> Seq<u32> {
        if lvl <= self.label_bits {
            let per = pow2((self.label_bits - lvl) as nat);
            self.subtrees@[(k / per) as int].vnode(lvl, (k % per) as nat)
        } else {
            self.top_roots@[top_slot((self.height - lvl) as nat, k)]@
        }
    }

    /// Every pushed subtree's buffer is internally consistent.
    pub open spec fn subtrees_linked(self) -> bool {
        forall|j: int| 0 <= j < self.subtrees@.len() ==> (#[trigger] self.subtrees@[j]).linked()
    }

    /// Every global virtual node above the leaves is the compression of its
    /// two children.
    pub open spec fn global_linked(self) -> bool {
        forall|lvl: nat, k: nat|
            1 <= lvl <= self.height && k < pow2((self.height - lvl) as nat)
                ==> #[trigger] self.tree_vnode(lvl, k) == spec_compress(
                self.tree_vnode((lvl - 1) as nat, 2 * k),
                self.tree_vnode((lvl - 1) as nat, 2 * k + 1),
            )
    }

    /// The redundant leaf layer of the top pyramid holds the subtree roots.
    pub open spec fn top_copies(self) -> bool {
        forall|j: nat|
            j < self.num_spaces() ==> self.top_roots@[#[trigger] top_slot(
                self.as_height as nat,
                j,
            )]@ == self.tree_vnode(self.label_bits as nat, j)
    }

    /// All subtrees built and the whole tree, top pyramid included,
    /// consistent from the leaves to the root.
    pub open spec fn wf_full(self) -> bool {
        self.complete() && self.global_linked() && self.top_copies()
    }

    /// The global leaf layer: each address space's embedded leaves, in
    /// address-space order.
    pub open spec fn global_leaves(self) -> Seq<Seq<u32>> {
        Seq::new(pow2(self.height as nat), |g: int| self.tree_vnode(0, g as nat))
    }

    /// The global root as stored.
    pub open spec fn root_digest(self) -> Seq<u32> {
        self.top_roots@[0]@
    }

    /// Create the tree for a memory configuration: precompute the zero-hash
    /// chain and allocate the top pyramid; subtrees are appended by `build`.
    pub fn new(mem_config: MemoryConfig) -> (r: MemoryMerkleTree)
        requires
            mem_config.valid(),
        ensures
            r.wf_config(),
            r.subtrees@.len() == 0,
            r.spec_mem_config() == mem_config,
    {
        proof {
            let e0 = choose|e: nat| e <= 10 && mem_config.num_addr_spaces() == pow2(e);
            assert(e0 < 31 && mem_config.num_addr_spaces() == pow2(e0));
        }
        let num = mem_config.addr_space_cells.len() - ADDR_SPACE_OFFSET;
        let as_height = exact_log2(num);
        let label_bits = mem_config.pointer_max_bits - 3;
        let zero_hash = ZeroHashChain::new(label_bits);
        let ghost e0 = choose|e: nat| e <= 10 && mem_config.num_addr_spaces() == pow2(e);
        proof {
            if as_height != e0 {
                if as_height < e0 {
                    vstd::arithmetic::power2::lemma_pow2_strictly_increases(as_height as nat, e0);
                } else {
                    vstd::arithmetic::power2::lemma_pow2_strictly_increases(e0, as_height as nat);
                }
            }
            lemma2_to64();
            crate::math::lemma_pow2_le(as_height as nat, 10);
        }
        let mut top_roots: Vec<Digest> = Vec::new();
        let want = 2 * num - 1;
        while top_roots.len() < want
            invariant
                top_roots@.len() <= want,
            decreases want - top_roots.len(),
        {
            top_roots.push([0, 0, 0, 0, 0, 0, 0, 0]);
        }
        MemoryMerkleTree {
            mem_config,
            zero_hash,
            subtrees: Vec::new(),
            top_roots,
            height: label_bits + as_height,
            label_bits,
            as_height,
        }
    }

    /// The configuration the tree was created with.
    pub open spec fn spec_mem_config(self) -> MemoryConfig {
        self.mem_config
    }

    /// Read access to the configuration.
    pub fn mem_config(&self) -> (r: &MemoryConfig)
        ensures
            *r == self.spec_mem_config(),
    {
        &self.mem_config
    }

    /// Drop all subtree buffers at the end of an execution segment.
    pub fn drop_subtrees(&mut self)
        ensures
            final (self).subtrees@.len() == 0,
            final (self).mem_config == old(self).mem_config,
            final (self).zero_hash == old(self).zero_hash,
            final (self).top_roots@ == old(self).top_roots@,
            final (self).height == old(self).height,
            final (self).label_bits == old(self).label_bits,
            final (self).as_height == old(self).as_height,
    {
        self.subtrees = Vec::new();
    }

    /// Build the subtree of one address space from its final cell values and
    /// append it. Address spaces must arrive in increasing order, reserved
    /// spaces first; calls for reserved spaces do nothing.
    pub fn build(&mut self, cells: &Vec<u32>, addr_space: usize)
        requires
            old(self).wf_config(),
            addr_space < old(self).spec_mem_config().addr_space_cells@.len(),
            addr_space >= ADDR_SPACE_OFFSET ==> addr_space - ADDR_SPACE_OFFSET == old(
                self,
            ).subtrees@.len(),
            cells@.len() == old(self).spec_mem_config().addr_space_cells@[addr_space as int],
        ensures
            final (self).wf_config(),
            final (self).spec_mem_config() == old(self).spec_mem_config(),
            final (self).top_roots@ == old(self).top_roots@,
            final (self).height == old(self).height,
            final (self).zero_hash == old(self).zero_hash,
            final (self).label_bits == old(self).label_bits,
            final (self).as_height == old(self).as_height,
            old(self).subtrees_linked() ==> final (self).subtrees_linked(),
            addr_space < ADDR_SPACE_OFFSET ==> final (self).subtrees@ == old(self).subtrees@,
            addr_space >= ADDR_SPACE_OFFSET ==> {
                &&& final (self).subtrees@.len() == old(self).subtrees@.len() + 1
                &&& final (self).subtrees@.subrange(0, old(self).subtrees@.len() as int) == old(
                    self,
                ).subtrees@
                &&& final (self).subtrees@.last().embedded_leaves() == spec_leaves_of(
                    cells@,
                    pow2(old(self).label_bits as nat),
                )
            },
    {
        if addr_space < ADDR_SPACE_OFFSET {
            return ;
        }
        proof {
            lemma2_to64();
            crate::math::lemma_pow2_le(self.label_bits as nat, 29);
            assert(self.mem_config.addr_space_cells@[addr_space as int] / 8 <= pow2(
                self.label_bits as nat,
            ));
            vstd::arithmetic::div_mod::lemma_fundamental_div_mod(cells@.len() as int, 8);
        }
        let max_size = pow2_usize(self.label_bits);
        let addr_space_size = cells.len() / 8;
        proof {
            assert(pow2(self.label_bits as nat) == max_size);
            assert(exists|e: nat| e <= 29 && max_size == pow2(e)) by {
                assert(self.label_bits as nat <= 29 && max_size == pow2(self.label_bits as nat));
            }
        }
        let mut subtree = MemoryMerkleSubTree::new(addr_space_size, max_size);
        proof {
            if subtree.full_height() != self.label_bits as nat {
                if subtree.full_height() < self.label_bits as nat {
                    vstd::arithmetic::power2::lemma_pow2_strictly_increases(
                        subtree.full_height(),
                        self.label_bits as nat,
                    );
                } else {
                    vstd::arithmetic::power2::lemma_pow2_strictly_increases(
                        self.label_bits as nat,
                        subtree.full_height(),
                    );
                }
            }
        }
        subtree.build(cells, &self.zero_hash);
        self.subtrees.push(subtree);
        proof {
            let j = self.subtrees@.len() - 1;
            assert(subtree_matches(self.mem_config, self.subtrees@[j], j));
            assert forall|j2: int| 0 <= j2 < self.subtrees@.len() implies #[trigger] subtree_matches(
                self.mem_config,
                self.subtrees@[j2],
                j2,
            ) by {
                if j2 < j {
                    assert(self.subtrees@[j2] == old(self).subtrees@[j2]);
                }
            }
            assert(final (self).subtrees@.subrange(0, old(self).subtrees@.len() as int) =~= old(
                self,
            ).subtrees@);
        }
    }

    /// Compute the top pyramid: subtree roots in the leaf layer, pairwise
    /// compressions above, ending in the global root.
    pub fn finalize(&mut self)
        requires
            old(self).complete(),
            old(self).subtrees_linked(),
        ensures
            final (self).wf_full(),
            final (self).spec_mem_config() == old(self).spec_mem_config(),
            final (self).subtrees@ == old(self).subtrees@,
            final (self).height == old(self).height,
            final (self).zero_hash == old(self).zero_hash,
            final (self).label_bits == old(self).label_bits,
            final (self).as_height == old(self).as_height,
            final (self).global_leaves() == old(self).global_leaves(),
    {
        proof {
            crate::math::lemma_pow2_le(self.as_height as nat, 10);
            lemma2_to64();
        }
        let num = pow2_usize(self.as_height);
        proof {
            assert(num <= 1024);
        }
        let ghost hh = self.label_bits as nat;
        let ghost kk = self.as_height as nat;
        // Leaf layer: the subtree roots.
        let mut j: usize = 0;
        while j < num
            invariant
                self.wf_config(),
                self.subtrees@.len() == self.num_spaces(),
                num == pow2(kk),
                kk == self.as_height as nat,
                hh == self.label_bits as nat,
                j <= num,
                num <= 1024,
                self.top_roots@.len() == 2 * num - 1,
                forall|q: nat|
                    q < j ==> self.top_roots@[#[trigger] top_slot(kk, q)]@
                        == self.subtrees@[q as int].vnode(hh, 0),
                self.subtrees@ == old(self).subtrees@,
                self.mem_config == old(self).mem_config,
                self.zero_hash == old(self).zero_hash,
                self.height == old(self).height,
                self.label_bits == old(self).label_bits,
                self.as_height == old(self).as_height,
            decreases num - j,
        {
            proof {
                assert(subtree_matches(self.mem_config, self.subtrees@[j as int], j as int));
                assert(top_slot(kk, j as nat) == num - 1 + j);
            }
            let r = self.subtrees[j].root(&self.zero_hash);
            self.top_roots.set(num - 1 + j, r);
            j = j + 1;
        }
        // Internal pyramid, bottom-up.
        let mut jj: usize = num - 1;
        while jj > 0
            invariant
                num == pow2(kk),
                kk == self.as_height as nat,
                hh == self.label_bits as nat,
                jj <= num - 1,
                num <= 1024,
                self.wf_config(),
                self.subtrees@.len() == self.num_spaces(),
                self.top_roots@.len() == 2 * num - 1,
                forall|q: nat|
                    q < num ==> self.top_roots@[#[trigger] top_slot(kk, q)]@
                        == self.subtrees@[q as int].vnode(hh, 0),
                forall|p: int|
                    jj <= p < num - 1 ==> #[trigger] self.top_roots@[p]@ == spec_compress(
                        self.top_roots@[2 * p + 1]@,
                        self.top_roots@[2 * p + 2]@,
                    ),
                self.subtrees@ == old(self).subtrees@,
                self.mem_config == old(self).mem_config,
                self.zero_hash == old(self).zero_hash,
                self.height == old(self).height,
                self.label_bits == old(self).label_bits,
                self.as_height == old(self).as_height,
            decreases jj,
        {
            let p = jj - 1;
            let left = self.top_roots[2 * p + 1];
            let right = self.top_roots[2 * p + 2];
            let c = crate::hash::compress(&left, &right);
            let ghost before = self.top_roots@;
            self.top_roots.set(p, c);
            proof {
                assert forall|q: nat| q < num implies self.top_roots@[#[trigger] top_slot(kk, q)]@
                    == self.subtrees@[q as int].vnode(hh, 0) by {
                    assert(top_slot(kk, q) == num - 1 + q);
                    assert(self.top_roots@[top_slot(kk, q)] == before[top_slot(kk, q)]);
                }
                assert forall|p2: int| p <= p2 < num - 1 implies #[trigger] self.top_roots@[p2]@
                    == spec_compress(self.top_roots@[2 * p2 + 1]@, self.top_roots@[2 * p2 + 2]@) by {
                    if p2 == p {
                        assert(self.top_roots@[p2] == c);
                        assert(self.top_roots@[2 * p2 + 1] == before[2 * p2 + 1] && before[2 * p2
                            + 1] == left);
                        assert(self.top_roots@[2 * p2 + 2] == before[2 * p2 + 2] && before[2 * p2
                            + 2] == right);
                    } else {
                        assert(self.top_roots@[p2] == before[p2]);
                        assert(self.top_roots@[2 * p2 + 1] == before[2 * p2 + 1]);
                        assert(self.top_roots@[2 * p2 + 2] == before[2 * p2 + 2]);
                    }
                }
            }
            jj = p;
        }
        proof {
            self.lemma_linked_from_parts();
            assert(final (self).global_leaves() =~= old(self).global_leaves());
        }
    }

    /// Per-subtree consistency plus the two heap facts of `finalize` give
    /// the whole tree's consistency.
    proof fn lemma_linked_from_parts(self)
        requires
            self.wf_config(),
            self.subtrees@.len() == self.num_spaces(),
            self.subtrees_linked(),
            forall|q: nat|
                q < self.num_spaces() ==> self.top_roots@[#[trigger] top_slot(
                    self.as_height as nat,
                    q,
                )]@ == self.subtrees@[q as int].vnode(self.label_bits as nat, 0),
            forall|p: int|
                0 <= p < self.num_spaces() - 1 ==> #[trigger] self.top_roots@[p]@ == spec_compress(
                    self.top_roots@[2 * p + 1]@,
                    self.top_roots@[2 * p + 2]@,
                ),
        ensures
            self.global_linked(),
            self.top_copies(),
    {
        let hh = self.label_bits as nat;
        let kk = self.as_height as nat;
        assert forall|j: nat| j < self.num_spaces() implies self.top_roots@[#[trigger] top_slot(
            kk,
            j,
        )]@ == self.tree_vnode(hh, j) by {
            crate::math::lemma_div_mod_one(j);
            assert(pow2((hh - hh) as nat) == 1) by {
                lemma2_to64();
            }
        }
        assert forall|lvl: nat, k: nat|
            1 <= lvl <= self.height && k < pow2((self.height - lvl) as nat)
                implies #[trigger] self.tree_vnode(lvl, k) == spec_compress(
            self.tree_vnode((lvl - 1) as nat, 2 * k),
            self.tree_vnode((lvl - 1) as nat, 2 * k + 1),
        ) by {
            if lvl > self.label_bits {
                let depth = (self.height - lvl) as nat;
                lemma_pow2_unfold((depth + 1) as nat);
                lemma_pow2_pos(depth);
                crate::math::lemma_pow2_le((depth + 1) as nat, kk);
                let p = top_slot(depth, k);
                assert(p < pow2((depth + 1) as nat) - 1);
                assert(p < self.num_spaces() - 1);
                if lvl - 1 > self.label_bits {
                    assert(top_slot((depth + 1) as nat, 2 * k) == 2 * p + 1);
                    assert(top_slot((depth + 1) as nat, 2 * k + 1) == 2 * p + 2);
                } else {
                    // The children are the subtree roots: depth + 1 == as_height.
                    assert(depth + 1 == kk);
                    assert(top_slot(kk, 2 * k) == 2 * p + 1);
                    assert(top_slot(kk, (2 * k + 1) as nat) == 2 * p + 2);
                    assert(pow2((hh - hh) as nat) == 1) by {
                        lemma2_to64();
                    }
                    crate::math::lemma_div_mod_one(2 * k);
                    crate::math::lemma_div_mod_one(2 * k + 1);
                    assert(self.tree_vnode((lvl - 1) as nat, 2 * k) == self.subtrees@[(2
                        * k) as int].vnode(hh, 0));
                    assert(self.tree_vnode((lvl - 1) as nat, 2 * k + 1) == self.subtrees@[(2 * k
                        + 1) as int].vnode(hh, 0));
                }
            } else {
                // Inside one subtree.
                let per = pow2((hh - lvl) as nat);
                let per2 = pow2((hh - (lvl - 1)) as nat);
                lemma_pow2_pos((hh - lvl) as nat);
                lemma_pow2_unfold((hh - lvl + 1) as nat);
                assert(per2 == 2 * per);
                crate::math::lemma_child_split(k, per);
                let j = k / per;
                let k2 = k % per;
                assert(j < pow2(kk)) by {
                    vstd::arithmetic::power2::lemma_pow2_adds((hh - lvl) as nat, kk);
                    crate::math::lemma_div_bound(k, per, pow2(kk));
                }
                assert(subtree_matches(self.mem_config, self.subtrees@[j as int], j as int));
                let st = self.subtrees@[j as int];
                assert(st.linked());
                assert(k2 < pow2((st.full_height() - lvl) as nat));
                assert(st.vnode(lvl, k2) == spec_compress(
                    st.vnode((lvl - 1) as nat, 2 * k2),
                    st.vnode((lvl - 1) as nat, 2 * k2 + 1),
                ));
                assert(self.tree_vnode(lvl, k) == st.vnode(lvl, k2));
                assert(self.tree_vnode((lvl - 1) as nat, 2 * k) == st.vnode(
                    (lvl - 1) as nat,
                    2 * k2,
                ));
                assert(self.tree_vnode((lvl - 1) as nat, 2 * k + 1) == st.vnode(
                    (lvl - 1) as nat,
                    2 * k2 + 1,
                ));
            }
        }
    }
}

} // verus!
