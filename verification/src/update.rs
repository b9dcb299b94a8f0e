//! Incremental update of the Merkle tree: recompute only the root-to-leaf
//! paths of the touched blocks, emitting one pair of trace rows per
//! recomputed node and the old and new roots as public values.

use vstd::prelude::*;
use vstd::arithmetic::power2::pow2;
use vstd::arithmetic::power2::lemma_pow2_unfold;
use vstd::arithmetic::power2::lemma_pow2_pos;
use vstd::arithmetic::power2::lemma_pow2_adds;
use vstd::arithmetic::power2::lemma2_to64;

use crate::config::ADDR_SPACE_OFFSET;
use crate::hash::Digest;
use crate::hash::spec_compress;
use crate::hash::spec_hash_leaf;
use crate::math::spec_node;
use crate::merkle::MemoryMerkleTree;
use crate::merkle::top_slot;
use crate::merkle::subtree_matches;
use crate::counting::strictly_increasing;
use crate::counting::spec_ancestors;
use crate::counting::spec_parents;
use crate::counting::spec_tower_count;
use crate::counting::lemma_parents_last;
use crate::counting::lemma_parents_sorted;
use crate::counting::lemma_parents_membership;
use crate::counting::lemma_tower_step;

verus! {

/// One trace row of the incremental re-hash: the two child digests read for
/// one recomputed node, before (`is_final == false`) or after the update.
/// A set divergence flag marks a child whose subtree carried no touched
/// block, so the re-hash direction turns away from it.
#[derive(Clone, Copy)]
pub struct MerkleTraceRow {
    pub is_final: bool,
    pub parent_height: usize,
    pub parent_as_label: u32,
    pub parent_address_label: u32,
    pub parent_hash: Digest,
    pub left_child_hash: Digest,
    pub right_child_hash: Digest,
    pub left_direction_different: bool,
    pub right_direction_different: bool,
}

/// What the update returns: the re-hash trace and the old and new roots
/// laid out as public values.
pub struct MerkleUpdateOutput {
    pub trace: Vec<MerkleTraceRow>,
    pub public_values: Vec<u32>,
}

/// A node recomputed at the current level, with its digest before and
/// after the update.
pub struct PendingNode {
    pub idx: u64,
    pub old_d: Digest,
    pub new_d: Digest,
}

/// Every row's recorded parent is the compression of its recorded
/// children, and rows come in before/after pairs.
pub open spec fn rows_ok(rows: Seq<MerkleTraceRow>) -> bool {
    &&& forall|i: int|
        0 <= i < rows.len() ==> (#[trigger] rows[i]).parent_hash@ == spec_compress(
            rows[i].left_child_hash@,
            rows[i].right_child_hash@,
        )
    &&& forall|i: int| 0 <= i < rows.len() ==> (#[trigger] rows[i]).is_final == (i % 2 == 1)
}

/// One touched block: the equipartition chunk at `(address_space, label)`,
/// its final values and the latest timestamp that wrote into it.
pub struct TouchedBlock {
    pub address_space: u32,
    pub label: u32,
    pub timestamp: u32,
    pub values: [u32; 8],
}

impl MemoryMerkleTree {
    /// Position of a touched block's leaf in the global leaf layer.
    pub open spec fn spec_block_index(self, b: TouchedBlock) -> u64 {
        ((b.address_space - ADDR_SPACE_OFFSET) * pow2(self.label_bits as nat) + b.label) as u64
    }

    /// The block lies in a Merkleized address space, within its configured
    /// cells.
    pub open spec fn spec_block_valid(self, b: TouchedBlock) -> bool {
        &&& ADDR_SPACE_OFFSET <= b.address_space < self.mem_config.addr_space_cells@.len()
        &&& 8 * b.label + 8 <= self.mem_config.addr_space_cells@[b.address_space as int]
    }

    /// The global leaf indices of a sequence of touched blocks.
    pub open spec fn spec_block_indices(self, blocks: Seq<TouchedBlock>) -> Seq<u64> {
        blocks.map_values(|b: TouchedBlock| self.spec_block_index(b))
    }

    /// The global leaf layer after applying the touched blocks in order.
    pub open spec fn spec_update_leaves(
        self,
        leaves: Seq<Seq<u32>>,
        blocks: Seq<TouchedBlock>,
    ) -> Seq<Seq<u32>>
        decreases blocks.len(),
    {
        if blocks.len() == 0 {
            leaves
        } else {
            self.spec_update_leaves(leaves, blocks.drop_last()).update(
                self.spec_block_index(blocks.last()) as int,
                spec_hash_leaf(blocks.last().values@),
            )
        }
    }

    /// Applying touched blocks keeps the length and leaves every other slot
    /// alone.
    pub proof fn lemma_update_leaves_frame(
        self,
        leaves: Seq<Seq<u32>>,
        blocks: Seq<TouchedBlock>,
        g: int,
    )
        requires
            0 <= g < leaves.len(),
            forall|j: int|
                0 <= j < blocks.len() ==> self.spec_block_index(#[trigger] blocks[j])
                    < leaves.len(),
            forall|j: int| 0 <= j < blocks.len() ==> self.spec_block_index(#[trigger] blocks[j]) != g,
        ensures
            self.spec_update_leaves(leaves, blocks).len() == leaves.len(),
            self.spec_update_leaves(leaves, blocks)[g] == leaves[g],
        decreases blocks.len(),
    {
        self.lemma_update_leaves_len(leaves, blocks);
        if blocks.len() > 0 {
            self.lemma_update_leaves_frame(leaves, blocks.drop_last(), g);
            self.lemma_update_leaves_len(leaves, blocks.drop_last());
            assert(self.spec_update_leaves(leaves, blocks) == self.spec_update_leaves(
                leaves,
                blocks.drop_last(),
            ).update(
                self.spec_block_index(blocks.last()) as int,
                spec_hash_leaf(blocks.last().values@),
            ));
            assert(self.spec_block_index(blocks[blocks.len() - 1]) != g);
        }
    }

    /// Applying touched blocks keeps the leaf count.
    pub proof fn lemma_update_leaves_len(self, leaves: Seq<Seq<u32>>, blocks: Seq<TouchedBlock>)
        requires
            forall|j: int|
                0 <= j < blocks.len() ==> self.spec_block_index(#[trigger] blocks[j])
                    < leaves.len(),
        ensures
            self.spec_update_leaves(leaves, blocks).len() == leaves.len(),
        decreases blocks.len(),
    {
        if blocks.len() > 0 {
            self.lemma_update_leaves_len(leaves, blocks.drop_last());
            assert(self.spec_update_leaves(leaves, blocks) == self.spec_update_leaves(
                leaves,
                blocks.drop_last(),
            ).update(
                self.spec_block_index(blocks.last()) as int,
                spec_hash_leaf(blocks.last().values@),
            ));
        }
    }

    /// A touched slot holds the hash of the block's values, provided no
    /// later block touches the same slot.
    pub proof fn lemma_update_leaves_at(
        self,
        leaves: Seq<Seq<u32>>,
        blocks: Seq<TouchedBlock>,
        j: int,
    )
        requires
            0 <= j < blocks.len(),
            forall|j2: int|
                0 <= j2 < blocks.len() ==> self.spec_block_index(#[trigger] blocks[j2])
                    < leaves.len(),
            forall|j2: int|
                j < j2 < blocks.len() ==> self.spec_block_index(#[trigger] blocks[j2])
                    != self.spec_block_index(blocks[j]),
        ensures
            self.spec_update_leaves(leaves, blocks)[self.spec_block_index(blocks[j]) as int]
                == spec_hash_leaf(blocks[j].values@),
        decreases blocks.len(),
    {
        self.lemma_update_leaves_len(leaves, blocks.drop_last());
        assert(self.spec_update_leaves(leaves, blocks) == self.spec_update_leaves(
            leaves,
            blocks.drop_last(),
        ).update(
            self.spec_block_index(blocks.last()) as int,
            spec_hash_leaf(blocks.last().values@),
        ));
        if j == blocks.len() - 1 {
        } else {
            self.lemma_update_leaves_at(leaves, blocks.drop_last(), j);
            assert(self.spec_block_index(blocks[blocks.len() - 1]) != self.spec_block_index(
                blocks[j],
            ));
        }
    }

    /// Every global virtual node of a fully consistent tree is the model
    /// node over the global leaves.
    pub proof fn lemma_tree_vnode_is_spec_node(self, lvl: nat, k: nat)
        requires
            self.wf_full(),
            lvl <= self.height,
            k < pow2((self.height - lvl) as nat),
        ensures
            self.tree_vnode(lvl, k) == spec_node(self.global_leaves(), lvl, k),
        decreases lvl,
    {
        if lvl == 0 {
        } else {
            lemma_pow2_unfold((self.height - lvl + 1) as nat);
            assert(2 * k + 1 < pow2((self.height - (lvl - 1)) as nat));
            self.lemma_tree_vnode_is_spec_node((lvl - 1) as nat, 2 * k);
            self.lemma_tree_vnode_is_spec_node((lvl - 1) as nat, 2 * k + 1);
        }
    }

    /// The stored root of a fully consistent tree is the model root of its
    /// global leaves. With the incremental update's contract this is the
    /// round trip: an update followed by reading the root gives the same
    /// digest as a full rebuild over the same final leaves.
    pub proof fn lemma_root_is_model(self)
        requires
            self.wf_full(),
        ensures
            self.root_digest() == spec_node(self.global_leaves(), self.height as nat, 0),
    {
        lemma_pow2_pos((self.height - self.height) as nat);
        assert(top_slot(0, 0) == 0) by {
            lemma2_to64();
        }
        if self.height > self.label_bits {
            assert(self.tree_vnode(self.height as nat, 0) == self.top_roots@[0]@);
        } else {
            assert(self.as_height == 0);
            assert(self.top_roots@[top_slot(0, 0)]@ == self.tree_vnode(self.label_bits as nat, 0));
        }
        self.lemma_tree_vnode_is_spec_node(self.height as nat, 0);
    }

    /// Incremental update and full rebuild agree: two fully consistent
    /// trees of the same height over the same global leaves store the same
    /// root.
    pub proof fn lemma_incremental_matches_rebuild(a: MemoryMerkleTree, b: MemoryMerkleTree)
        requires
            a.wf_full(),
            b.wf_full(),
            a.height == b.height,
            a.global_leaves() == b.global_leaves(),
        ensures
            a.root_digest() == b.root_digest(),
    {
        a.lemma_root_is_model();
        b.lemma_root_is_model();
    }

    /// A node along a touched path is materialized in its subtree.
    pub open spec fn node_writable(self, lvl: nat, k: nat) -> bool {
        if lvl > self.label_bits {
            true
        } else {
            let per = pow2((self.label_bits - lvl) as nat);
            let st = self.subtrees@[(k / per) as int];
            &&& k / per < self.subtrees@.len()
            &&& !(st is Empty)
            &&& (lvl <= st.heap_height() ==> (k % per) < pow2((st.heap_height() - lvl) as nat))
            &&& (lvl > st.heap_height() ==> (k % per) == 0)
        }
    }

    /// Read the global virtual node `lvl` levels above the leaves.
    pub fn get_node(&self, lvl: usize, k: u64) -> (r: Digest)
        requires
            self.wf_config(),
            self.subtrees@.len() == self.num_spaces(),
            lvl <= self.height,
            k < pow2((self.height - lvl) as nat),
        ensures
            r@ == self.tree_vnode(lvl as nat, k as nat),
    {
        proof {
            crate::math::lemma_pow2_le((self.height - lvl) as nat, 39);
        }
        if lvl > self.label_bits {
            let depth = self.height - lvl;
            proof {
                crate::math::lemma_pow2_le(depth as nat, self.as_height as nat);
                crate::math::lemma_pow2_le(self.as_height as nat, 10);
                lemma2_to64();
            }
            let w = crate::math::pow2_usize(depth);
            self.top_roots[(w - 1) + (k as usize)]
        } else {
            let eper = self.label_bits - lvl;
            proof {
                crate::math::lemma_pow2_le(eper as nat, 29);
                lemma2_to64();
            }
            let per = crate::math::pow2_u64(eper as u64);
            let j = (k / per) as usize;
            let k2 = k % per;
            proof {
                lemma_pow2_adds(eper as nat, self.as_height as nat);
                crate::math::lemma_div_bound(k as nat, per as nat, pow2(self.as_height as nat));
                assert(j < self.subtrees@.len());
                assert(subtree_matches(self.mem_config, self.subtrees@[j as int], j as int));
                assert(k2 < per);
            }
            self.subtrees[j].get_local(lvl, k2, &self.zero_hash)
        }
    }
    /// The mid-update tree state before processing level `l`: configuration
    /// intact, levels at and above `l` untouched, everything below `l`
    /// recomputed where a touched path crosses it and untouched elsewhere.
    pub open spec fn upd_state(self, o: MemoryMerkleTree, idxs: Seq<u64>, l: nat) -> bool {
        &&& self.wf_config()
        &&& self.subtrees@.len() == self.num_spaces()
        &&& self.mem_config == o.mem_config
        &&& self.zero_hash == o.zero_hash
        &&& self.height == o.height
        &&& self.label_bits == o.label_bits
        &&& self.as_height == o.as_height
        &&& self.top_copies()
        &&& forall|lvl: nat, k: nat|
            l <= lvl <= self.height && k < pow2((self.height - lvl) as nat)
                ==> #[trigger] self.tree_vnode(lvl, k) == o.tree_vnode(lvl, k)
        &&& forall|lvl: nat, k: nat|
            lvl < l && lvl <= self.height && k < pow2((self.height - lvl) as nat)
                && !spec_ancestors(idxs, lvl).contains(k as u64)
                ==> #[trigger] self.tree_vnode(lvl, k) == o.tree_vnode(lvl, k)
        &&& forall|lvl: nat, k: nat|
            1 <= lvl < l && k < pow2((self.height - lvl) as nat)
                ==> #[trigger] self.tree_vnode(lvl, k) == spec_compress(
                self.tree_vnode((lvl - 1) as nat, 2 * k),
                self.tree_vnode((lvl - 1) as nat, 2 * k + 1),
            )
    }

    /// The touched leaf slots hold the hashes of their blocks' values.
    pub open spec fn upd_leaves_set(self, blocks: Seq<TouchedBlock>) -> bool {
        forall|m: int|
            0 <= m < blocks.len() ==> self.tree_vnode(
                0,
                self.spec_block_index(#[trigger] blocks[m]) as nat,
            ) == spec_hash_leaf(blocks[m].values@)
    }

    /// The worklist for one level: exactly the distinct ancestors of the
    /// touched leaves at level `l`, each with its digest before and after
    /// the update.
    pub open spec fn upd_pending_ok(
        self,
        o: MemoryMerkleTree,
        idxs: Seq<u64>,
        l: nat,
        pending: Seq<PendingNode>,
    ) -> bool {
        let anc = spec_ancestors(idxs, l);
        &&& pending.len() == anc.len()
        &&& forall|m: int| 0 <= m < pending.len() ==> (#[trigger] pending[m]).idx == anc[m]
        &&& forall|m: int|
            0 <= m < pending.len() ==> (#[trigger] pending[m]).old_d@ == o.tree_vnode(
                l,
                pending[m].idx as nat,
            )
        &&& forall|m: int|
            0 <= m < pending.len() ==> (#[trigger] pending[m]).new_d@ == self.tree_vnode(
                l,
                pending[m].idx as nat,
            )
    }

    /// The touched blocks are valid for this tree and arrive strictly
    /// ordered by global leaf index.
    pub open spec fn upd_blocks_ok(self, blocks: Seq<TouchedBlock>) -> bool {
        &&& blocks.len() > 0
        &&& forall|i: int| 0 <= i < blocks.len() ==> self.spec_block_valid(#[trigger] blocks[i])
        &&& strictly_increasing(self.spec_block_indices(blocks))
    }

    /// A touched block's leaf index fits the tree.
    pub proof fn lemma_block_index_bound(self, b: TouchedBlock)
        requires
            self.wf_config(),
            self.spec_block_valid(b),
        ensures
            self.spec_block_index(b) < pow2(self.height as nat),
            (b.address_space - ADDR_SPACE_OFFSET) * pow2(self.label_bits as nat) + b.label < pow2(
                self.height as nat,
            ),
    {
        let hh = self.label_bits as nat;
        let kk = self.as_height as nat;
        let tt = self.height as nat;
        let q = (b.address_space - ADDR_SPACE_OFFSET) as nat;
        let lab = b.label as nat;
        let cells = self.mem_config.addr_space_cells@[b.address_space as int] as nat;
        lemma_pow2_pos(hh);
        lemma_pow2_pos(kk);
        lemma_pow2_adds(hh, kk);
        vstd::arithmetic::div_mod::lemma_fundamental_div_mod(cells as int, 8);
        assert(cells <= 8 * pow2(hh));
        assert(lab < pow2(hh));
        assert(q < pow2(kk));
        let x = q * pow2(hh) + lab;
        assert(x < pow2(tt)) by (nonlinear_arith)
            requires
                x == q * pow2(hh) + lab,
                q < pow2(kk),
                lab < pow2(hh),
                pow2(tt) == pow2(hh) * pow2(kk),
        ;
        assert(x <= u64::MAX) by {
            crate::math::lemma_pow2_le(tt, 39);
            vstd::arithmetic::power2::lemma2_to64();
            vstd::arithmetic::power2::lemma2_to64_rest();
        }
        crate::counting::lemma_cast_u64(x);
        assert(self.spec_block_index(b) == x);
    }

    /// A touched block's ancestor at any level is in range and materialized.
    pub proof fn lemma_block_level_facts(self, b: TouchedBlock, l: nat)
        requires
            self.wf_config(),
            self.subtrees@.len() == self.num_spaces(),
            self.spec_block_valid(b),
            l <= self.height,
        ensures
            self.spec_block_index(b) < pow2(self.height as nat),
            (b.address_space - ADDR_SPACE_OFFSET) * pow2(self.label_bits as nat) + b.label < pow2(
                self.height as nat,
            ),
            self.spec_block_index(b) as nat / pow2(l) < pow2((self.height - l) as nat),
            self.node_writable(l, self.spec_block_index(b) as nat / pow2(l)),
    {
        self.lemma_block_index_bound(b);
        let hh = self.label_bits as nat;
        let kk = self.as_height as nat;
        let tt = self.height as nat;
        let q = (b.address_space - ADDR_SPACE_OFFSET) as nat;
        let lab = b.label as nat;
        let cells = self.mem_config.addr_space_cells@[b.address_space as int] as nat;
        lemma_pow2_pos(hh);
        lemma_pow2_pos(kk);
        lemma_pow2_adds(hh, kk);
        vstd::arithmetic::div_mod::lemma_fundamental_div_mod(cells as int, 8);
        assert(cells <= 8 * pow2(hh));
        assert(lab < pow2(hh));
        assert(q < pow2(kk));
        let x = q * pow2(hh) + lab;
        assert(x < pow2(tt)) by (nonlinear_arith)
            requires
                x == q * pow2(hh) + lab,
                q < pow2(kk),
                lab < pow2(hh),
                pow2(tt) == pow2(hh) * pow2(kk),
        ;
        assert(x <= u64::MAX) by {
            crate::math::lemma_pow2_le(tt, 39);
            vstd::arithmetic::power2::lemma2_to64();
            vstd::arithmetic::power2::lemma2_to64_rest();
        }
        crate::counting::lemma_cast_u64(x);
        assert(self.spec_block_index(b) == x);
        vstd::arithmetic::div_mod::lemma_fundamental_div_mod_converse(
            x as int,
            pow2(hh) as int,
            q as int,
            lab as int,
        );
        lemma_pow2_pos(l);
        vstd::arithmetic::power2::lemma_pow2_subtracts(l, tt);
        assert(pow2(tt) == pow2(l) * pow2((tt - l) as nat)) by {
            lemma_pow2_adds(l, (tt - l) as nat);
        }
        crate::math::lemma_div_bound(x, pow2(l), pow2((tt - l) as nat));
        if l <= hh {
            crate::math::lemma_index_decompose(x, l, hh);
            let per = pow2((hh - l) as nat);
            assert((x / pow2(l)) / per == q);
            assert((x / pow2(l)) % per == lab / pow2(l));
            assert(subtree_matches(self.mem_config, self.subtrees@[q as int], q as int));
            let st = self.subtrees@[q as int];
            assert(cells > 0);
            assert(!(st is Empty));
            let sh = st.heap_height();
            assert(cells / 8 <= pow2(sh));
            assert(lab < cells / 8) by {
                vstd::arithmetic::div_mod::lemma_fundamental_div_mod_converse(
                    (8 * (lab + 1)) as int,
                    8,
                    (lab + 1) as int,
                    0,
                );
                vstd::arithmetic::div_mod::lemma_div_is_ordered(
                    (8 * (lab + 1)) as int,
                    cells as int,
                    8,
                );
            }
            if l <= sh {
                assert(pow2(sh) == pow2(l) * pow2((sh - l) as nat)) by {
                    lemma_pow2_adds(l, (sh - l) as nat);
                }
                crate::math::lemma_div_bound(lab, pow2(l), pow2((sh - l) as nat));
            } else {
                crate::math::lemma_pow2_le(sh, l);
                assert(pow2(l) * 1 == pow2(l));
                crate::math::lemma_div_bound(lab, pow2(l), 1);
            }
        }
    }


    /// The stored root, as a digest.
    pub fn root(&self) -> (r: Digest)
        requires
            self.top_roots@.len() >= 1,
        ensures
            r@ == self.root_digest(),
    {
        self.top_roots[0]
    }

    /// The global leaf index of one touched block.
    pub fn block_index(&self, b: &TouchedBlock) -> (r: u64)
        requires
            self.wf_config(),
            self.spec_block_valid(*b),
        ensures
            r == self.spec_block_index(*b),
    {
        proof {
            self.lemma_block_index_bound(*b);
            crate::math::lemma_pow2_le(self.height as nat, 39);
            vstd::arithmetic::power2::lemma2_to64();
            vstd::arithmetic::power2::lemma2_to64_rest();
        }
        let per = crate::math::pow2_u64(self.label_bits as u64);
        ((b.address_space - 1) as u64) * per + (b.label as u64)
    }

    /// The required number of rows for the update trace of the given
    /// touched memory: twice the tree height, plus, for each pair of
    /// neighbouring touched leaves, twice the bit length of the XOR of
    /// their tree indices.
    pub fn calculate_unpadded_height(&self, touched_memory: &Vec<TouchedBlock>) -> (r: usize)
        requires
            self.wf_config(),
            forall|i: int|
                0 <= i < touched_memory@.len() ==> self.spec_block_valid(
                    #[trigger] touched_memory@[i],
                ),
            strictly_increasing(self.spec_block_indices(touched_memory@)),
            crate::counting::spec_unpadded_height(
                self.height as nat,
                self.spec_block_indices(touched_memory@),
            ) <= usize::MAX,
        ensures
            r == crate::counting::spec_unpadded_height(
                self.height as nat,
                self.spec_block_indices(touched_memory@),
            ),
    {
        let ghost idxs = self.spec_block_indices(touched_memory@);
        let ghost tt = self.height as nat;
        if touched_memory.len() == 0 {
            return 2 * self.height;
        }
        let mut sum: usize = self.height;
        let mut i: usize = 0;
        proof {
            assert(idxs.take(1).len() == 1);
            assert(crate::counting::spec_divergence_sum(idxs.take(1)) == 0);
        }
        while i < touched_memory.len() - 1
            invariant
                self.wf_config(),
                idxs == self.spec_block_indices(touched_memory@),
                tt == self.height,
                touched_memory@.len() >= 1,
                forall|q: int|
                    0 <= q < touched_memory@.len() ==> self.spec_block_valid(
                        #[trigger] touched_memory@[q],
                    ),
                strictly_increasing(idxs),
                crate::counting::spec_unpadded_height(tt, idxs) <= usize::MAX,
                i < touched_memory@.len(),
                sum == tt + crate::counting::spec_divergence_sum(idxs.take(i + 1)),
            decreases touched_memory@.len() - i,
        {
            let x = self.block_index(&touched_memory[i]);
            let y = self.block_index(&touched_memory[i + 1]);
            proof {
                assert(idxs[i as int] == x && idxs[i + 1] == y);
                assert(x < y);
                assert((x ^ y) != 0) by (bit_vector)
                    requires x < y;
                crate::counting::lemma_div_sum_prefix(idxs, i + 2);
                assert(idxs.take(i + 2).drop_last() =~= idxs.take(i + 1));
                assert(crate::counting::spec_divergence_sum(idxs.take(i + 2))
                    == crate::counting::spec_divergence_sum(idxs.take(i + 1))
                    + crate::counting::spec_ilog2((idxs.take(i + 2)[i as int] ^ idxs.take(i + 2)[i
                    + 1]) as nat));
            }
            let d = crate::counting::ilog2_u64(x ^ y);
            sum = sum + (d as usize);
            i = i + 1;
        }
        proof {
            assert(idxs.take(touched_memory@.len() as int) =~= idxs);
        }
        2 * sum
    }

    /// Update the tree for the blocks touched during one execution segment
    /// and return the re-hash trace along with the old and new roots as
    /// public values. Blocks must arrive strictly ordered by global leaf
    /// index. With no touched blocks the tree is unchanged and the trace is
    /// one dummy root path of `2 * height` rows whose divergence flags are
    /// all forced set.
    #[verifier::rlimit(100)]
    #[verifier::spinoff_prover]
    pub fn update_with_touched_blocks(&mut self, touched_blocks: &Vec<TouchedBlock>) -> (r:
        MerkleUpdateOutput)
        requires
            old(self).wf_full(),
            forall|i: int|
                0 <= i < touched_blocks@.len() ==> old(self).spec_block_valid(
                    #[trigger] touched_blocks@[i],
                ),
            strictly_increasing(old(self).spec_block_indices(touched_blocks@)),
        ensures
            final (self).wf_full(),
            final (self).mem_config == old(self).mem_config,
            final (self).zero_hash == old(self).zero_hash,
            final (self).height == old(self).height,
            final (self).label_bits == old(self).label_bits,
            final (self).as_height == old(self).as_height,
            final (self).global_leaves() == old(self).spec_update_leaves(
                old(self).global_leaves(),
                touched_blocks@,
            ),
            rows_ok(r.trace@),
            r.public_values@.len() == 16,
            r.public_values@.subrange(0, 8) == old(self).root_digest(),
            r.public_values@.subrange(8, 16) == final (self).root_digest(),
            touched_blocks@.len() == 0 ==> {
                &&& *final (self) == *old(self)
                &&& r.trace@.len() == 2 * old(self).height
                &&& forall|i: int|
                    0 <= i < r.trace@.len() ==> (#[trigger] r.trace@[i]).left_direction_different
                        && r.trace@[i].right_direction_different
            },
            touched_blocks@.len() > 0 ==> r.trace@.len() == 2 * spec_tower_count(
                old(self).spec_block_indices(touched_blocks@),
                old(self).height as nat,
            ),
            r.trace@.len() == crate::counting::spec_unpadded_height(
                old(self).height as nat,
                old(self).spec_block_indices(touched_blocks@),
            ),
    {
        let ghost o = *old(self);
        let ghost blocks = touched_blocks@;
        let ghost idxs = o.spec_block_indices(blocks);
        let ghost tt = self.height as nat;
        let old_root = self.top_roots[0];
        let mut rows: Vec<MerkleTraceRow> = Vec::new();
        if touched_blocks.len() == 0 {
            // Dummy root path: re-assert every node above leaf 0 unchanged.
            let mut lvl: usize = 1;
            while lvl <= self.height
                invariant
                    *self == o,
                    o.wf_full(),
                    tt == self.height,
                    1 <= lvl <= tt + 1,
                    rows@.len() == 2 * (lvl - 1),
                    rows_ok(rows@),
                    forall|i: int|
                        0 <= i < rows@.len() ==> (#[trigger] rows@[i]).left_direction_different
                            && rows@[i].right_direction_different,
                decreases tt + 1 - lvl,
            {
                proof {
                    lemma_pow2_pos((tt - lvl) as nat);
                    lemma_pow2_unfold((tt - lvl + 1) as nat);
                }
                let left = self.get_node(lvl - 1, 0);
                let right = self.get_node(lvl - 1, 1);
                let parent = self.get_node(lvl, 0);
                proof {
                    assert(o.tree_vnode(lvl as nat, 0) == spec_compress(
                        o.tree_vnode((lvl - 1) as nat, 0),
                        o.tree_vnode((lvl - 1) as nat, 1),
                    ));
                }
                let row = MerkleTraceRow {
                    is_final: false,
                    parent_height: lvl,
                    parent_as_label: 0,
                    parent_address_label: 0,
                    parent_hash: parent,
                    left_child_hash: left,
                    right_child_hash: right,
                    left_direction_different: true,
                    right_direction_different: true,
                };
                let mut row2 = row;
                row2.is_final = true;
                rows.push(row);
                rows.push(row2);
                lvl = lvl + 1;
            }
            let mut public_values: Vec<u32> = Vec::new();
            let mut i: usize = 0;
            while i < 8
                invariant
                    i <= 8,
                    public_values@.len() == i,
                    forall|q: int| 0 <= q < i ==> public_values@[q] == old_root@[q],
                decreases 8 - i,
            {
                public_values.push(old_root[i]);
                i = i + 1;
            }
            let mut i2: usize = 0;
            while i2 < 8
                invariant
                    i2 <= 8,
                    public_values@.len() == 8 + i2,
                    forall|q: int| 0 <= q < 8 ==> public_values@[q] == old_root@[q],
                    forall|q: int| 0 <= q < i2 ==> public_values@[8 + q] == old_root@[q],
                decreases 8 - i2,
            {
                public_values.push(old_root[i2]);
                i2 = i2 + 1;
            }
            proof {
                assert(public_values@.subrange(0, 8) =~= o.root_digest());
                assert(public_values@.subrange(8, 16) =~= o.root_digest());
            }
            return MerkleUpdateOutput { trace: rows, public_values };
        }
        // Write the new leaf digests, remembering old and new values.
        let mut pending: Vec<PendingNode> = Vec::new();
        let mut m: usize = 0;
        let per_exec = crate::math::pow2_u64(self.label_bits as u64);
        while m < touched_blocks.len()
            invariant
                m <= touched_blocks@.len(),
                o.wf_full(),
                blocks == touched_blocks@,
                idxs == o.spec_block_indices(blocks),
                o.upd_blocks_ok(blocks),
                tt == self.height,
                per_exec == pow2(o.label_bits as nat),
                self.wf_config(),
                self.subtrees@.len() == self.num_spaces(),
                self.mem_config == o.mem_config,
                self.zero_hash == o.zero_hash,
                self.height == o.height,
                self.label_bits == o.label_bits,
                self.as_height == o.as_height,
                self.top_copies(),
                forall|lvl: nat, k: nat|
                    1 <= lvl <= tt && k < pow2((tt - lvl) as nat) ==> #[trigger] self.tree_vnode(
                        lvl,
                        k,
                    ) == o.tree_vnode(lvl, k),
                forall|g: nat|
                    g < pow2(tt) && !idxs.take(m as int).contains(g as u64)
                        ==> #[trigger] self.tree_vnode(0, g) == o.tree_vnode(0, g),
                forall|j: int|
                    0 <= j < m ==> self.tree_vnode(
                        0,
                        o.spec_block_index(#[trigger] blocks[j]) as nat,
                    ) == spec_hash_leaf(blocks[j].values@),
                pending@.len() == m,
                forall|j: int| 0 <= j < m ==> (#[trigger] pending@[j]).idx == idxs[j],
                forall|j: int|
                    0 <= j < m ==> (#[trigger] pending@[j]).old_d@ == o.tree_vnode(
                        0,
                        idxs[j] as nat,
                    ),
                forall|j: int|
                    0 <= j < m ==> (#[trigger] pending@[j]).new_d@ == self.tree_vnode(
                        0,
                        idxs[j] as nat,
                    ),
            decreases touched_blocks@.len() - m,
        {
            let b = &touched_blocks[m];
            proof {
                assert(blocks[m as int] == touched_blocks@[m as int]);
                assert(self.spec_block_valid(blocks[m as int]));
                self.lemma_block_level_facts(blocks[m as int], 0);
                assert(pow2(0) == 1) by {
                    lemma2_to64();
                }
                crate::math::lemma_div_mod_one(
                    o.spec_block_index(blocks[m as int]) as nat,
                );
                assert(self.spec_block_index(blocks[m as int]) == o.spec_block_index(
                    blocks[m as int],
                ));
            }
            proof {
                crate::math::lemma_pow2_le(tt, 39);
                vstd::arithmetic::power2::lemma2_to64_rest();
            }
            let q = (b.address_space - 1) as u64;
            let gidx = q * per_exec + (b.label as u64);
            proof {
                assert(gidx == o.spec_block_index(blocks[m as int]));
            }
            let old_d = self.get_node(0, gidx);
            let new_d = crate::hash::hash_leaf(b.values.as_slice());
            let ghost self_before = *self;
            self.set_node(0, gidx, new_d);
            pending.push(PendingNode { idx: gidx, old_d, new_d });
            proof {
                assert(idxs.take(m + 1 as int) =~= idxs.take(m as int).push(idxs[m as int]));
                assert forall|lvl: nat, k: nat|
                    1 <= lvl <= tt && k < pow2((tt - lvl) as nat) implies #[trigger] self.tree_vnode(
                    lvl,
                    k,
                ) == o.tree_vnode(lvl, k) by {
                    assert(self.tree_vnode(lvl, k) == self_before.tree_vnode(lvl, k));
                }
                assert forall|g: nat|
                    g < pow2(tt) && !idxs.take(m + 1 as int).contains(g as u64)
                    implies #[trigger] self.tree_vnode(0, g) == o.tree_vnode(0, g) by {
                    crate::math::lemma_pow2_le(tt, 39);
                    lemma2_to64();
                    vstd::arithmetic::power2::lemma2_to64_rest();
                    crate::counting::lemma_cast_u64(g);
                    assert(!idxs.take(m as int).contains(g as u64)) by {
                        if idxs.take(m as int).contains(g as u64) {
                            let q2 = choose|q2: int|
                                0 <= q2 < m && idxs.take(m as int)[q2] == g as u64;
                            assert(idxs.take(m + 1 as int)[q2] == g as u64);
                        }
                    }
                    assert(idxs.take(m + 1 as int)[m as int] == idxs[m as int]);
                    assert(idxs.take(m + 1 as int).contains(idxs[m as int]));
                    assert(g as u64 != idxs[m as int]);
                    assert(self.tree_vnode(0, g) == self_before.tree_vnode(0, g));
                }
                assert forall|j: int|
                    0 <= j < m + 1 implies self.tree_vnode(
                    0,
                    o.spec_block_index(#[trigger] blocks[j]) as nat,
                ) == spec_hash_leaf(blocks[j].values@) by {
                    if j < m {
                        assert(idxs[j] != idxs[m as int]);
                        assert(self.tree_vnode(0, o.spec_block_index(blocks[j]) as nat)
                            == self_before.tree_vnode(
                            0,
                            o.spec_block_index(blocks[j]) as nat,
                        ));
                    }
                }
                assert forall|j: int|
                    0 <= j < m + 1 implies (#[trigger] pending@[j]).new_d@ == self.tree_vnode(
                    0,
                    idxs[j] as nat,
                ) by {
                    if j < m {
                        assert(idxs[j] != idxs[m as int]);
                        assert(self.tree_vnode(0, idxs[j] as nat) == self_before.tree_vnode(
                            0,
                            idxs[j] as nat,
                        ));
                    }
                }
            }
            m = m + 1;
        }
        proof {
            assert(idxs.take(blocks.len() as int) =~= idxs);
            assert(spec_ancestors(idxs, 0) == idxs);
            assert(self.upd_state(o, idxs, 1));
            assert(self.upd_pending_ok(o, idxs, 0, pending@));
            assert(self.upd_leaves_set(blocks)) by {
                assert forall|j: int|
                    0 <= j < blocks.len() implies self.tree_vnode(
                    0,
                    self.spec_block_index(#[trigger] blocks[j]) as nat,
                ) == spec_hash_leaf(blocks[j].values@) by {
                    assert(self.spec_block_index(blocks[j]) == o.spec_block_index(blocks[j]));
                }
            }
            assert(spec_tower_count(idxs, 0) == 0);
        }
        // Recompute the touched paths bottom-up, one level at a time.
        let mut l: usize = 1;
        while l <= self.height
            invariant
                o.wf_full(),
                blocks == touched_blocks@,
                idxs == o.spec_block_indices(blocks),
                o.upd_blocks_ok(blocks),
                tt == self.height == o.height,
                1 <= l <= tt + 1,
                self.upd_state(o, idxs, l as nat),
                self.upd_leaves_set(blocks),
                self.upd_pending_ok(o, idxs, (l - 1) as nat, pending@),
                pending@.len() >= 1,
                rows_ok(rows@),
                rows@.len() % 2 == 0,
                rows@.len() == 2 * spec_tower_count(idxs, (l - 1) as nat),
            decreases tt + 1 - l,
        {
            let ghost rows_before = rows@.len() as int;
            pending = self.process_level(l, &pending, &mut rows, Ghost(o), Ghost(blocks));
            proof {
                lemma_tower_step(idxs, l as nat);
            }
            l = l + 1;
        }
        let new_root = self.top_roots[0];
        let mut public_values: Vec<u32> = Vec::new();
        let mut i: usize = 0;
        while i < 8
            invariant
                i <= 8,
                public_values@.len() == i,
                forall|q2: int| 0 <= q2 < i ==> public_values@[q2] == old_root@[q2],
            decreases 8 - i,
        {
            public_values.push(old_root[i]);
            i = i + 1;
        }
        let mut i2: usize = 0;
        while i2 < 8
            invariant
                i2 <= 8,
                public_values@.len() == 8 + i2,
                forall|q2: int| 0 <= q2 < 8 ==> public_values@[q2] == old_root@[q2],
                forall|q2: int| 0 <= q2 < i2 ==> public_values@[8 + q2] == new_root@[q2],
                new_root@ == self.root_digest(),
            decreases 8 - i2,
        {
            public_values.push(new_root[i2]);
            i2 = i2 + 1;
        }
        proof {
            self.lemma_update_done(o, blocks);
            assert(public_values@.subrange(0, 8) =~= o.root_digest());
            assert(public_values@.subrange(8, 16) =~= self.root_digest());
            assert forall|j: int| 0 <= j < idxs.len() implies (#[trigger] idxs[j]) < pow2(tt) by {
                o.lemma_block_index_bound(blocks[j]);
            }
            crate::counting::lemma_tower_count_formula(idxs, tt);
        }
        MerkleUpdateOutput { trace: rows, public_values }
    }

    /// After the last level is sealed, the tree is fully consistent again
    /// and its leaves are the old leaves with the touched blocks applied.
    #[verifier::rlimit(100)]
    #[verifier::spinoff_prover]
    proof fn lemma_update_done(self, o: MemoryMerkleTree, blocks: Seq<TouchedBlock>)
        requires
            o.wf_full(),
            o.upd_blocks_ok(blocks),
            self.upd_state(o, o.spec_block_indices(blocks), (o.height + 1) as nat),
            self.upd_leaves_set(blocks),
        ensures
            self.wf_full(),
            self.global_leaves() == o.spec_update_leaves(o.global_leaves(), blocks),
    {
        let idxs = o.spec_block_indices(blocks);
        let tt = self.height as nat;
        assert(self.global_linked());
        assert(self.wf_full());
        assert forall|j: int|
            0 <= j < blocks.len() implies o.spec_block_index(#[trigger] blocks[j]) < pow2(tt) by {
            o.lemma_block_level_facts(blocks[j], 0);
        }
        o.lemma_update_leaves_len(o.global_leaves(), blocks);
        assert(self.global_leaves() =~= o.spec_update_leaves(o.global_leaves(), blocks)) by {
            assert forall|g: int| 0 <= g < pow2(tt) implies self.global_leaves()[g]
                == o.spec_update_leaves(o.global_leaves(), blocks)[g] by {
                crate::math::lemma_pow2_le(tt, 39);
                lemma2_to64();
                vstd::arithmetic::power2::lemma2_to64_rest();
                crate::counting::lemma_cast_u64(g as nat);
                if idxs.contains(g as u64) {
                    let j = choose|j: int| 0 <= j < idxs.len() && idxs[j] == g as u64;
                    assert(o.spec_block_index(blocks[j]) == g as u64);
                    assert(self.tree_vnode(0, g as nat) == spec_hash_leaf(blocks[j].values@)) by {
                        assert(self.spec_block_index(blocks[j]) == o.spec_block_index(blocks[j]));
                    }
                    assert forall|j2: int|
                        j < j2 < blocks.len() implies o.spec_block_index(#[trigger] blocks[j2])
                        != o.spec_block_index(blocks[j]) by {
                        assert(idxs[j] < idxs[j2]);
                    }
                    o.lemma_update_leaves_at(o.global_leaves(), blocks, j);
                } else {
                    assert(forall|j: int|
                        0 <= j < blocks.len() ==> o.spec_block_index(#[trigger] blocks[j]) != g)
                        by {
                        if exists|j: int|
                            0 <= j < blocks.len() && o.spec_block_index(#[trigger] blocks[j])
                                == g {
                            let j = choose|j: int|
                                0 <= j < blocks.len() && o.spec_block_index(#[trigger] blocks[j])
                                    == g;
                            assert(idxs[j] == g as u64);
                            assert(idxs.contains(g as u64));
                        }
                    }
                    assert(!spec_ancestors(idxs, 0).contains(g as u64));
                    assert(self.tree_vnode(0, g as nat) == o.tree_vnode(0, g as nat));
                    o.lemma_update_leaves_frame(o.global_leaves(), blocks, g);
                }
            }
        }
    }

    /// After the worklist of level `l - 1` is fully consumed, level `l` is
    /// linked everywhere and the mid-update state advances one level.
    #[verifier::rlimit(100)]
    #[verifier::spinoff_prover]
    proof fn lemma_level_sealed(
        self,
        o: MemoryMerkleTree,
        blocks: Seq<TouchedBlock>,
        l: nat,
        np: Seq<PendingNode>,
    )
        requires
            o.wf_full(),
            o.upd_blocks_ok(blocks),
            1 <= l <= o.height,
            self.wf_config(),
            self.subtrees@.len() == self.num_spaces(),
            self.mem_config == o.mem_config,
            self.zero_hash == o.zero_hash,
            self.height == o.height,
            self.label_bits == o.label_bits,
            self.as_height == o.as_height,
            self.top_copies(),
            forall|lvl: nat, k: nat|
                l + 1 <= lvl <= self.height && k < pow2((self.height - lvl) as nat)
                    ==> #[trigger] self.tree_vnode(lvl, k) == o.tree_vnode(lvl, k),
            forall|lvl: nat, k: nat|
                lvl < l && lvl <= self.height && k < pow2((self.height - lvl) as nat)
                    && !spec_ancestors(o.spec_block_indices(blocks), lvl).contains(k as u64)
                    ==> #[trigger] self.tree_vnode(lvl, k) == o.tree_vnode(lvl, k),
            forall|lvl: nat, k: nat|
                1 <= lvl < l && k < pow2((self.height - lvl) as nat) ==> #[trigger] self.tree_vnode(
                    lvl,
                    k,
                ) == spec_compress(
                    self.tree_vnode((lvl - 1) as nat, 2 * k),
                    self.tree_vnode((lvl - 1) as nat, 2 * k + 1),
                ),
            np.len() == spec_ancestors(o.spec_block_indices(blocks), l).len(),
            forall|m: int|
                0 <= m < np.len() ==> (#[trigger] np[m]).idx == spec_ancestors(
                    o.spec_block_indices(blocks),
                    l,
                )[m],
            forall|m: int|
                0 <= m < np.len() ==> (#[trigger] np[m]).new_d@ == self.tree_vnode(
                    l,
                    np[m].idx as nat,
                ),
            forall|m: int|
                0 <= m < np.len() ==> (#[trigger] np[m]).new_d@ == spec_compress(
                    self.tree_vnode((l - 1) as nat, 2 * (np[m].idx as nat)),
                    self.tree_vnode((l - 1) as nat, 2 * (np[m].idx as nat) + 1),
                ),
            forall|k: nat|
                k < pow2((self.height - l) as nat) && !spec_ancestors(
                    o.spec_block_indices(blocks),
                    l,
                ).contains(k as u64) ==> #[trigger] self.tree_vnode(l, k) == o.tree_vnode(l, k),
        ensures
            self.upd_state(o, o.spec_block_indices(blocks), (l + 1) as nat),
    {
        let idxs = o.spec_block_indices(blocks);
        let tt = self.height as nat;
        assert forall|k: nat| k < pow2((tt - l) as nat) implies #[trigger] self.tree_vnode(l, k)
            == spec_compress(
            self.tree_vnode((l - 1) as nat, 2 * k),
            self.tree_vnode((l - 1) as nat, 2 * k + 1),
        ) by {
            lemma_pow2_unfold((tt - l + 1) as nat);
            crate::math::lemma_pow2_le((tt - l + 1) as nat, 40);
            lemma2_to64();
            vstd::arithmetic::power2::lemma2_to64_rest();
            crate::counting::lemma_cast_u64(k);
            if spec_ancestors(idxs, l).contains(k as u64) {
                let m = choose|m: int|
                    0 <= m < spec_ancestors(idxs, l).len() && spec_ancestors(idxs, l)[m] == (
                    k as u64);
                assert(np[m].idx == k as u64);
                assert(np[m].new_d@ == self.tree_vnode(l, k));
                assert(np[m].new_d@ == spec_compress(
                    self.tree_vnode((l - 1) as nat, 2 * (np[m].idx as nat)),
                    self.tree_vnode((l - 1) as nat, 2 * (np[m].idx as nat) + 1),
                ));
            } else {
                assert(self.tree_vnode(l, k) == o.tree_vnode(l, k));
                assert(o.tree_vnode(l, k) == spec_compress(
                    o.tree_vnode((l - 1) as nat, 2 * k),
                    o.tree_vnode((l - 1) as nat, 2 * k + 1),
                ));
                assert(!spec_ancestors(idxs, (l - 1) as nat).contains((2 * k) as u64)) by {
                    if spec_ancestors(idxs, (l - 1) as nat).contains((2 * k) as u64) {
                        crate::counting::lemma_ancestors_membership(
                            idxs,
                            (2 * k) as u64,
                            (l - 1) as nat,
                        );
                        let jb = choose|jb: int|
                            0 <= jb < idxs.len() && idxs[jb] as nat / pow2((l - 1) as nat) == (2
                                * k) as u64;
                        crate::counting::lemma_half_step(idxs[jb], (l - 1) as nat);
                        crate::counting::lemma_cast_u64(2 * k);
                        crate::math::lemma_child_split(k, 1);
                        crate::math::lemma_div_mod_one(k);
                        crate::counting::lemma_ancestors_membership(idxs, k as u64, l);
                        assert(spec_ancestors(idxs, l).contains(k as u64));
                    }
                }
                assert(!spec_ancestors(idxs, (l - 1) as nat).contains((2 * k + 1) as u64)) by {
                    if spec_ancestors(idxs, (l - 1) as nat).contains((2 * k + 1) as u64) {
                        crate::counting::lemma_ancestors_membership(
                            idxs,
                            (2 * k + 1) as u64,
                            (l - 1) as nat,
                        );
                        let jb = choose|jb: int|
                            0 <= jb < idxs.len() && idxs[jb] as nat / pow2((l - 1) as nat) == (2 * k
                                + 1) as u64;
                        crate::counting::lemma_half_step(idxs[jb], (l - 1) as nat);
                        crate::counting::lemma_cast_u64(2 * k + 1);
                        crate::math::lemma_child_split(k, 1);
                        crate::math::lemma_div_mod_one(k);
                        crate::counting::lemma_ancestors_membership(idxs, k as u64, l);
                        assert(spec_ancestors(idxs, l).contains(k as u64));
                    }
                }
                assert(self.tree_vnode((l - 1) as nat, 2 * k) == o.tree_vnode(
                    (l - 1) as nat,
                    2 * k,
                ));
                assert(self.tree_vnode((l - 1) as nat, 2 * k + 1) == o.tree_vnode(
                    (l - 1) as nat,
                    2 * k + 1,
                ));
            }
        }
    }

    /// Recompute the touched nodes of level `l` from the worklist of level
    /// `l - 1`, emitting one before/after row pair per node.
    #[verifier::rlimit(100)]
    #[verifier::spinoff_prover]
    fn process_level(
        &mut self,
        l: usize,
        pending: &Vec<PendingNode>,
        rows: &mut Vec<MerkleTraceRow>,
        Ghost(o): Ghost<MemoryMerkleTree>,
        Ghost(blocks): Ghost<Seq<TouchedBlock>>,
    ) -> (np: Vec<PendingNode>)
        requires
            o.wf_full(),
            o.upd_blocks_ok(blocks),
            1 <= l <= o.height,
            old(self).upd_state(o, o.spec_block_indices(blocks), l as nat),
            old(self).upd_leaves_set(blocks),
            old(self).upd_pending_ok(o, o.spec_block_indices(blocks), (l - 1) as nat, pending@),
            pending@.len() >= 1,
            rows_ok(old(rows)@),
            old(rows)@.len() % 2 == 0,
        ensures
            final (self).upd_state(o, o.spec_block_indices(blocks), (l + 1) as nat),
            final (self).upd_leaves_set(blocks),
            final (self).upd_pending_ok(o, o.spec_block_indices(blocks), l as nat, np@),
            np@.len() >= 1,
            rows_ok(final (rows)@),
            final (rows)@.len() % 2 == 0,
            final (rows)@.len() == old(rows)@.len() + 2 * spec_ancestors(
                o.spec_block_indices(blocks),
                l as nat,
            ).len(),
    {
        let ghost idxs = o.spec_block_indices(blocks);
        let ghost pidx = spec_ancestors(idxs, (l - 1) as nat);
        let ghost tt = self.height as nat;
        proof {
            crate::counting::lemma_ancestors_sorted(idxs, (l - 1) as nat);
            crate::counting::lemma_ancestors_sorted(idxs, l as nat);
        }
        let mut np: Vec<PendingNode> = Vec::new();
        let mut i: usize = 0;
        let ghost rows0 = rows@.len() as int;
        while i < pending.len()
            invariant
                i <= pending@.len(),
                o.wf_full(),
                o.upd_blocks_ok(blocks),
                idxs == o.spec_block_indices(blocks),
                pidx == spec_ancestors(idxs, (l - 1) as nat),
                strictly_increasing(pidx),
                pidx.len() == pending@.len() >= 1,
                1 <= l <= tt,
                tt == self.height,
                forall|m: int| 0 <= m < pending@.len() ==> (#[trigger] pending@[m]).idx == pidx[m],
                forall|m: int|
                    0 <= m < pending@.len() ==> (#[trigger] pending@[m]).old_d@ == o.tree_vnode(
                        (l - 1) as nat,
                        pending@[m].idx as nat,
                    ),
                self.upd_leaves_set(blocks),
                self.wf_config(),
                self.subtrees@.len() == self.num_spaces(),
                self.mem_config == o.mem_config,
                self.zero_hash == o.zero_hash,
                self.height == o.height,
                self.label_bits == o.label_bits,
                self.as_height == o.as_height,
                self.top_copies(),
                // levels strictly above l untouched
                forall|lvl: nat, k: nat|
                    l + 1 <= lvl <= tt && k < pow2((tt - lvl) as nat)
                        ==> #[trigger] self.tree_vnode(lvl, k) == o.tree_vnode(lvl, k),
                // below l: recomputed on touched paths, untouched elsewhere
                forall|lvl: nat, k: nat|
                    lvl < l && lvl <= tt && k < pow2((tt - lvl) as nat) && !spec_ancestors(
                        idxs,
                        lvl,
                    ).contains(k as u64) ==> #[trigger] self.tree_vnode(lvl, k) == o.tree_vnode(
                        lvl,
                        k,
                    ),
                forall|lvl: nat, k: nat|
                    1 <= lvl < l && k < pow2((tt - lvl) as nat) ==> #[trigger] self.tree_vnode(
                        lvl,
                        k,
                    ) == spec_compress(
                        self.tree_vnode((lvl - 1) as nat, 2 * k),
                        self.tree_vnode((lvl - 1) as nat, 2 * k + 1),
                    ),
                // level l: the parents of the consumed prefix are written
                np@.len() == spec_parents(pidx.take(i as int)).len(),
                forall|m: int|
                    0 <= m < np@.len() ==> (#[trigger] np@[m]).idx == spec_parents(
                        pidx.take(i as int),
                    )[m],
                forall|m: int|
                    0 <= m < np@.len() ==> (#[trigger] np@[m]).old_d@ == o.tree_vnode(
                        l as nat,
                        np@[m].idx as nat,
                    ),
                forall|m: int|
                    0 <= m < np@.len() ==> (#[trigger] np@[m]).new_d@ == self.tree_vnode(
                        l as nat,
                        np@[m].idx as nat,
                    ),
                forall|m: int|
                    0 <= m < np@.len() ==> (#[trigger] np@[m]).new_d@ == spec_compress(
                        self.tree_vnode((l - 1) as nat, 2 * (np@[m].idx as nat)),
                        self.tree_vnode((l - 1) as nat, 2 * (np@[m].idx as nat) + 1),
                    ),
                forall|k: nat|
                    k < pow2((tt - l) as nat) && !spec_parents(pidx.take(i as int)).contains(
                        k as u64,
                    ) ==> #[trigger] self.tree_vnode(l as nat, k) == o.tree_vnode(l as nat, k),
                // group boundary: a fresh parent starts at position i
                i < pending@.len() ==> (i == 0 || pending@[i - 1].idx / 2 < pending@[i as int].idx / 2),
                // worklist entries not yet consumed still hold their values
                forall|m: int|
                    0 <= m < pending@.len() ==> (#[trigger] pending@[m]).new_d@ == self.tree_vnode(
                        (l - 1) as nat,
                        pending@[m].idx as nat,
                    ),
                rows_ok(rows@),
                rows@.len() % 2 == 0,
                rows@.len() == rows0 + 2 * np@.len(),
            decreases pending@.len() - i,
        {
            let ghost prefix_before = pidx.take(i as int);
            let p = pending[i].idx / 2;
            let c0 = 2 * p;
            let c1 = 2 * p + 1;
            proof {
                assert(pending@[i as int].idx == pidx[i as int]);
                // p is an ancestor of some touched leaf at level l
                assert(pidx.contains(pidx[i as int]));
                crate::counting::lemma_ancestors_membership(idxs, pidx[i as int], (l - 1) as nat);
                let jb = choose|jb: int|
                    0 <= jb < idxs.len() && idxs[jb] as nat / pow2((l - 1) as nat) == pidx[i as int];
                crate::counting::lemma_half_step(idxs[jb], (l - 1) as nat);
                assert(idxs[jb] as nat / pow2(l as nat) == p);
                assert(idxs[jb] == o.spec_block_index(blocks[jb]));
                assert(self.spec_block_index(blocks[jb]) == o.spec_block_index(blocks[jb]));
                self.lemma_block_level_facts(blocks[jb], (l - 1) as nat);
                assert(pidx[i as int] < pow2((tt - (l - 1)) as nat));
                self.lemma_block_level_facts(blocks[jb], l as nat);
                assert(p < pow2((tt - l) as nat));
                assert(self.node_writable(l as nat, p as nat));
                crate::counting::lemma_ancestors_membership(idxs, p, l as nat);
                assert(spec_ancestors(idxs, l as nat).contains(p));
                vstd::arithmetic::div_mod::lemma_fundamental_div_mod(pidx[i as int] as int, 2);
                lemma_pow2_unfold((tt - l + 1) as nat);
            }
            // the entry at i is one of the two children of p
            let (left_old, left_new, left_touched, consumed) = if pending[i].idx == c0 {
                (pending[i].old_d, pending[i].new_d, true, 1usize)
            } else {
                proof {
                    assert(pending@[i as int].idx == c1);
                    assert(!pidx.contains(c0)) by {
                        if pidx.contains(c0) {
                            let m = choose|m: int| 0 <= m < pidx.len() && pidx[m] == c0;
                            assert(pidx[m] < pidx[i as int]);
                            assert(m < i);
                            if i > 0 {
                                assert(pidx[m] <= pidx[i - 1]) by {
                                    if m < i - 1 {
                                        assert(pidx[m] < pidx[i - 1]);
                                    }
                                }
                                vstd::arithmetic::div_mod::lemma_div_is_ordered(
                                    c0 as int,
                                    pidx[i - 1] as int,
                                    2,
                                );
                                crate::math::lemma_child_split(p as nat, 1);
                                crate::math::lemma_div_mod_one(p as nat);
                                assert(c0 / 2 == p);
                                assert(pidx[i - 1] / 2 >= p);
                            }
                        }
                    }
                    crate::counting::lemma_ancestors_membership(idxs, c0, (l - 1) as nat);
                }
                let s = self.get_node(l - 1, c0);
                (s, s, false, 0usize)
            };
            let (right_old, right_new, right_touched, consumed2) = if consumed == 1 && i + 1
                < pending.len() && pending[i + 1].idx == c1 {
                proof {
                    assert(pending@[i + 1].idx == pidx[i + 1]);
                }
                (pending[i + 1].old_d, pending[i + 1].new_d, true, 2usize)
            } else if consumed == 0 {
                (pending[i].old_d, pending[i].new_d, true, 1usize)
            } else {
                proof {
                    assert(pending@[i as int].idx == c0);
                    assert(!pidx.contains(c1)) by {
                        if pidx.contains(c1) {
                            let m = choose|m: int| 0 <= m < pidx.len() && pidx[m] == c1;
                            assert(pidx[m] > pidx[i as int]);
                            assert(m > i);
                            if m > i + 1 {
                                assert(pidx[i + 1] < pidx[m]);
                                assert(pidx[i + 1] > pidx[i as int]);
                                assert(pidx[i + 1] == c1 || pidx[i + 1] > c1);
                            } else {
                                assert(m == i + 1);
                            }
                            assert(i + 1 < pidx.len() && pidx[i + 1] == c1);
                        }
                    }
                    crate::counting::lemma_ancestors_membership(idxs, c1, (l - 1) as nat);
                }
                let s = self.get_node(l - 1, c1);
                (s, s, false, 1usize)
            };
            proof {
                // p itself has not been written yet
                assert(!spec_parents(prefix_before).contains(p)) by {
                    if spec_parents(prefix_before).contains(p) {
                        lemma_parents_membership(prefix_before, p);
                        let m = choose|m: int|
                            0 <= m < prefix_before.len() && prefix_before[m] / 2 == p;
                        assert(pidx[m] / 2 == p);
                        assert(i > 0);
                        assert(pidx[m] <= pidx[i - 1]) by {
                            if m < i - 1 {
                                assert(pidx[m] < pidx[i - 1]);
                            }
                        }
                        vstd::arithmetic::div_mod::lemma_div_is_ordered(
                            pidx[m] as int,
                            pidx[i - 1] as int,
                            2,
                        );
                        assert(pidx[i - 1] / 2 >= p);
                        assert(pidx[i - 1] / 2 < pidx[i as int] / 2);
                    }
                }
            }
            let old_parent = self.get_node(l, p);
            let new_parent = crate::hash::compress(&left_new, &right_new);
            proof {
                // the old parent compresses the old children
                assert(o.tree_vnode(l as nat, p as nat) == spec_compress(
                    o.tree_vnode((l - 1) as nat, c0 as nat),
                    o.tree_vnode((l - 1) as nat, c1 as nat),
                ));
                assert(left_old@ == o.tree_vnode((l - 1) as nat, c0 as nat));
                assert(right_old@ == o.tree_vnode((l - 1) as nat, c1 as nat));
            }
            let ph = if l <= self.label_bits {
                let e = (self.label_bits - l) as u64;
                let w = crate::math::pow2_u64(e);
                proof {
                    lemma_pow2_pos(e as nat);
                }
                (#[verifier::truncate] ((p / w) as u32), #[verifier::truncate] ((p % w) as u32))
            } else {
                (#[verifier::truncate] (p as u32), 0u32)
            };
            rows.push(
                MerkleTraceRow {
                    is_final: false,
                    parent_height: l,
                    parent_as_label: ph.0,
                    parent_address_label: ph.1,
                    parent_hash: old_parent,
                    left_child_hash: left_old,
                    right_child_hash: right_old,
                    left_direction_different: !left_touched,
                    right_direction_different: !right_touched,
                },
            );
            rows.push(
                MerkleTraceRow {
                    is_final: true,
                    parent_height: l,
                    parent_as_label: ph.0,
                    parent_address_label: ph.1,
                    parent_hash: new_parent,
                    left_child_hash: left_new,
                    right_child_hash: right_new,
                    left_direction_different: !left_touched,
                    right_direction_different: !right_touched,
                },
            );
            let ghost self_before = *self;
            self.set_node(l, p, new_parent);
            np.push(PendingNode { idx: p, old_d: old_parent, new_d: new_parent });
            let i_next = i + consumed2;
            proof {
                let prefix_after = pidx.take(i_next as int);
                // everything but the written node keeps its digest
                assert forall|lvl: nat, k: nat|
                    lvl <= tt && k < pow2((tt - lvl) as nat) && !(lvl == l && k == p as nat)
                    implies self.tree_vnode(lvl, k) == #[trigger] self_before.tree_vnode(
                    lvl,
                    k,
                ) by {}
                assert forall|m: int|
                    0 <= m < blocks.len() implies self.tree_vnode(
                    0,
                    self.spec_block_index(#[trigger] blocks[m]) as nat,
                ) == spec_hash_leaf(blocks[m].values@) by {
                    self.lemma_block_level_facts(blocks[m], 0);
                    assert(pow2(0) == 1) by {
                        lemma2_to64();
                    }
                    assert(self.tree_vnode(0, self.spec_block_index(blocks[m]) as nat)
                        == self_before.tree_vnode(0, self.spec_block_index(blocks[m]) as nat));
                }
                assert forall|lvl: nat, k: nat|
                    l + 1 <= lvl <= tt && k < pow2((tt - lvl) as nat) implies #[trigger] self.tree_vnode(
                    lvl,
                    k,
                ) == o.tree_vnode(lvl, k) by {
                    assert(self.tree_vnode(lvl, k) == self_before.tree_vnode(lvl, k));
                }
                assert forall|lvl: nat, k: nat|
                    lvl < l && lvl <= tt && k < pow2((tt - lvl) as nat) && !spec_ancestors(
                        idxs,
                        lvl,
                    ).contains(k as u64) implies #[trigger] self.tree_vnode(lvl, k)
                    == o.tree_vnode(lvl, k) by {
                    assert(self.tree_vnode(lvl, k) == self_before.tree_vnode(lvl, k));
                }
                assert forall|lvl: nat, k: nat|
                    1 <= lvl < l && k < pow2((tt - lvl) as nat) implies #[trigger] self.tree_vnode(
                    lvl,
                    k,
                ) == spec_compress(
                    self.tree_vnode((lvl - 1) as nat, 2 * k),
                    self.tree_vnode((lvl - 1) as nat, 2 * k + 1),
                ) by {
                    lemma_pow2_unfold((tt - lvl + 1) as nat);
                    assert(self.tree_vnode(lvl, k) == self_before.tree_vnode(lvl, k));
                    assert(self.tree_vnode((lvl - 1) as nat, 2 * k) == self_before.tree_vnode(
                        (lvl - 1) as nat,
                        2 * k,
                    ));
                    assert(self.tree_vnode((lvl - 1) as nat, 2 * k + 1) == self_before.tree_vnode(
                        (lvl - 1) as nat,
                        2 * k + 1,
                    ));
                }
                assert forall|m: int|
                    0 <= m < pending@.len() implies (#[trigger] pending@[m]).new_d@
                    == self.tree_vnode((l - 1) as nat, pending@[m].idx as nat) by {
                    assert(pending@[m].idx == pidx[m]);
                    assert(pidx.contains(pidx[m]));
                    crate::counting::lemma_ancestors_membership(idxs, pidx[m], (l - 1) as nat);
                    let jb2 = choose|jb2: int|
                        0 <= jb2 < idxs.len() && idxs[jb2] as nat / pow2((l - 1) as nat)
                            == pidx[m];
                    self.lemma_block_level_facts(blocks[jb2], (l - 1) as nat);
                    assert(self.tree_vnode((l - 1) as nat, pending@[m].idx as nat)
                        == self_before.tree_vnode((l - 1) as nat, pending@[m].idx as nat));
                }
                assert(left_new@ == self.tree_vnode((l - 1) as nat, c0 as nat));
                assert(right_new@ == self.tree_vnode((l - 1) as nat, c1 as nat));
                assert(np@[np@.len() - 1].new_d@ == spec_compress(
                    self.tree_vnode((l - 1) as nat, 2 * (np@[np@.len() - 1].idx as nat)),
                    self.tree_vnode((l - 1) as nat, 2 * (np@[np@.len() - 1].idx as nat) + 1),
                ));
                assert forall|m: int|
                    0 <= m < np@.len() - 1 implies ((#[trigger] np@[m]).new_d@ == self.tree_vnode(
                    l as nat,
                    np@[m].idx as nat,
                ) && np@[m].new_d@ == spec_compress(
                    self.tree_vnode((l - 1) as nat, 2 * (np@[m].idx as nat)),
                    self.tree_vnode((l - 1) as nat, 2 * (np@[m].idx as nat) + 1),
                )) by {
                    assert(np@[m].idx == spec_parents(prefix_before)[m]);
                    lemma_parents_sorted(prefix_before);
                    assert(spec_parents(prefix_before).last() == spec_parents(prefix_before)[
                    np@.len() - 2]);
                    assert(np@[m].idx <= spec_parents(prefix_before).last());
                    assert(spec_parents(prefix_before).last() < p);
                    assert(np@[m].idx < p);
                    lemma_pow2_unfold((tt - l + 1) as nat);
                    assert(2 * (np@[m].idx as nat) + 1 < pow2((tt - (l - 1)) as nat));
                    assert(self.tree_vnode((l - 1) as nat, 2 * (np@[m].idx as nat))
                        == self_before.tree_vnode((l - 1) as nat, 2 * (np@[m].idx as nat)));
                    assert(self.tree_vnode((l - 1) as nat, 2 * (np@[m].idx as nat) + 1)
                        == self_before.tree_vnode((l - 1) as nat, 2 * (np@[m].idx as nat) + 1));
                    assert(self.tree_vnode(l as nat, np@[m].idx as nat)
                        == self_before.tree_vnode(l as nat, np@[m].idx as nat));
                }
                if consumed2 == 2 {
                    let prefix_mid = pidx.take(i + 1 as int);
                    assert(prefix_mid =~= prefix_before.push(pidx[i as int]));
                    assert(pidx.take(i_next as int) =~= prefix_mid.push(pidx[i + 1]));
                    lemma_parents_last(prefix_mid);
                    assert(spec_parents(prefix_mid) == spec_parents(prefix_before).push(p)) by {
                        assert(prefix_mid.drop_last() =~= prefix_before);
                        if spec_parents(prefix_before).len() > 0 {
                            lemma_parents_last(prefix_before);
                            assert(spec_parents(prefix_before).last() == pidx[i - 1] / 2);
                        }
                    }
                    assert(spec_parents(pidx.take(i_next as int)) == spec_parents(prefix_mid)) by {
                        assert(pidx.take(i_next as int).drop_last() =~= prefix_mid);
                        assert(spec_parents(prefix_mid).last() == p);
                        assert(pidx.take(i_next as int).last() == pidx[i + 1]);
                        assert(pidx[i + 1] / 2 == p) by {
                            crate::math::lemma_child_split(p as nat, 1);
                            crate::math::lemma_div_mod_one(p as nat);
                        }
                    }
                } else {
                    assert(pidx.take(i_next as int).drop_last() =~= prefix_before);
                    assert(spec_parents(pidx.take(i_next as int)) == spec_parents(
                        prefix_before,
                    ).push(p)) by {
                        assert(pidx.take(i_next as int).last() == pidx[i as int]);
                        assert(pidx[i as int] / 2 == p);
                        if spec_parents(prefix_before).len() > 0 {
                            lemma_parents_last(prefix_before);
                            assert(spec_parents(prefix_before).last() == pidx[i - 1] / 2);
                        }
                    }
                }
                // group boundary for the next entry
                if i_next < pending@.len() {
                    assert(pidx[i_next as int] > pidx[i_next - 1]);
                    if consumed2 == 2 {
                        assert(pidx[i_next as int] > c1);
                        vstd::arithmetic::div_mod::lemma_fundamental_div_mod(
                            pidx[i_next as int] as int,
                            2,
                        );
                    } else if pending@[i as int].idx == c0 {
                        assert(pidx[i_next as int] != c1);
                        assert(pidx[i_next as int] > c0);
                        vstd::arithmetic::div_mod::lemma_fundamental_div_mod(
                            pidx[i_next as int] as int,
                            2,
                        );
                    } else {
                        assert(pidx[i_next as int] > c1);
                        vstd::arithmetic::div_mod::lemma_fundamental_div_mod(
                            pidx[i_next as int] as int,
                            2,
                        );
                    }
                    assert(pidx[i_next - 1] / 2 == p);
                    assert(pidx[i_next as int] / 2 > p);
                }
                // untouched level-l nodes keep their old digests
                assert forall|k: nat|
                    k < pow2((tt - l) as nat) && !spec_parents(pidx.take(i_next as int)).contains(
                        k as u64,
                    ) implies #[trigger] self.tree_vnode(l as nat, k) == o.tree_vnode(
                    l as nat,
                    k,
                ) by {
                    assert(spec_parents(pidx.take(i_next as int)) == spec_parents(
                        prefix_before,
                    ).push(p));
                    crate::math::lemma_pow2_le((tt - l) as nat, 39);
                    lemma2_to64();
                    vstd::arithmetic::power2::lemma2_to64_rest();
                    crate::counting::lemma_cast_u64(k);
                    assert(spec_parents(pidx.take(i_next as int)).last() == p);
                    assert(spec_parents(pidx.take(i_next as int)).contains(p));
                    assert(k != p as nat);
                    assert(!spec_parents(prefix_before).contains(k as u64)) by {
                        if spec_parents(prefix_before).contains(k as u64) {
                            let m2 = choose|m2: int|
                                0 <= m2 < spec_parents(prefix_before).len() && spec_parents(
                                    prefix_before,
                                )[m2] == k as u64;
                            assert(spec_parents(prefix_before).push(p)[m2] == k as u64);
                            assert(spec_parents(pidx.take(i_next as int)).contains(k as u64));
                        }
                    }
                    assert(self.tree_vnode(l as nat, k) == self_before.tree_vnode(l as nat, k));
                }
            }
            i = i_next;
        }
        proof {
            assert(pidx.take(pending@.len() as int) =~= pidx);
            self.lemma_level_sealed(o, blocks, l as nat, np@);
        }
        np
    }

    /// Overwrite one materialized global virtual node; every other node
    /// keeps its digest, and the redundant top copy of a subtree root is
    /// kept in step.
    #[verifier::rlimit(100)]
    pub fn set_node(&mut self, lvl: usize, k: u64, d: Digest)
        requires
            old(self).wf_config(),
            old(self).subtrees@.len() == old(self).num_spaces(),
            lvl <= old(self).height,
            k < pow2((old(self).height - lvl) as nat),
            old(self).node_writable(lvl as nat, k as nat),
        ensures
            final (self).wf_config(),
            final (self).subtrees@.len() == final (self).num_spaces(),
            final (self).mem_config == old(self).mem_config,
            final (self).zero_hash == old(self).zero_hash,
            final (self).height == old(self).height,
            final (self).label_bits == old(self).label_bits,
            final (self).as_height == old(self).as_height,
            final (self).tree_vnode(lvl as nat, k as nat) == d@,
            forall|lvl2: nat, k2: nat|
                lvl2 <= old(self).height && k2 < pow2((old(self).height - lvl2) as nat) && !(lvl2
                    == lvl && k2 == k) ==> final (self).tree_vnode(lvl2, k2) == #[trigger] old(
                    self,
                ).tree_vnode(lvl2, k2),
            forall|lvl2: nat, k2: nat|
                final (self).node_writable(lvl2, k2) == #[trigger] old(self).node_writable(
                    lvl2,
                    k2,
                ),
            old(self).top_copies() ==> final (self).top_copies(),
    {
        let ghost tt = self.height as nat;
        let ghost hh = self.label_bits as nat;
        let ghost kk = self.as_height as nat;
        if lvl > self.label_bits {
            let depth = self.height - lvl;
            proof {
                crate::math::lemma_pow2_le(depth as nat, kk);
                crate::math::lemma_pow2_le(kk, 10);
                lemma2_to64();
                lemma_pow2_pos(depth as nat);
            }
            let w = crate::math::pow2_usize(depth);
            let ghost before = self.top_roots@;
            self.top_roots.set((w - 1) + (k as usize), d);
            proof {
                let widx = top_slot(depth as nat, k as nat);
                assert(widx == (w - 1) + (k as usize));
                assert forall|lvl2: nat, k2: nat|
                    lvl2 <= tt && k2 < pow2((tt - lvl2) as nat) && !(lvl2 == lvl && k2 == k)
                    implies self.tree_vnode(lvl2, k2) == #[trigger] old(self).tree_vnode(
                    lvl2,
                    k2,
                ) by {
                    if lvl2 > hh {
                        let d2 = (tt - lvl2) as nat;
                        lemma_pow2_pos(d2);
                        let s2 = top_slot(d2, k2);
                        if k2 < pow2(d2) {
                            crate::math::lemma_pow2_le((d2 + 1) as nat, kk);
                            assert(s2 < pow2((d2 + 1) as nat) - 1 <= before.len()) by {
                                lemma_pow2_unfold((d2 + 1) as nat);
                            }
                            if lvl2 == lvl {
                                assert(s2 != widx);
                            } else if lvl2 < lvl {
                                crate::math::lemma_pow2_le(((tt - lvl) + 1) as nat, d2);
                                lemma_pow2_unfold(((tt - lvl) + 1) as nat);
                                assert(widx < pow2(((tt - lvl) + 1) as nat) - 1);
                                assert(s2 >= pow2(d2) - 1);
                            } else {
                                crate::math::lemma_pow2_le((d2 + 1) as nat, (tt - lvl) as nat);
                                lemma_pow2_unfold((d2 + 1) as nat);
                                assert(s2 < pow2((d2 + 1) as nat) - 1);
                                assert(widx >= pow2((tt - lvl) as nat) - 1);
                            }
                            assert(self.top_roots@[s2] == before[s2]);
                        }
                    }
                }
                assert forall|j: nat| j < self.num_spaces() implies self.top_roots@[
                #[trigger] top_slot(kk, j)]@ == before[top_slot(kk, j)]@ by {
                    assert(top_slot(kk, j) >= pow2(kk) - 1);
                    lemma_pow2_unfold(((tt - lvl) + 1) as nat);
                    crate::math::lemma_pow2_le(((tt - lvl) + 1) as nat, kk);
                    assert(widx < pow2(((tt - lvl) + 1) as nat) - 1);
                }
            }
        } else {
            let eper = self.label_bits - lvl;
            proof {
                crate::math::lemma_pow2_le(eper as nat, 29);
                lemma2_to64();
            }
            let per = crate::math::pow2_u64(eper as u64);
            let j = (k / per) as usize;
            let k2 = k % per;
            proof {
                lemma_pow2_adds(eper as nat, kk);
                crate::math::lemma_div_bound(k as nat, per as nat, pow2(kk));
                assert(j < self.subtrees@.len());
                assert(subtree_matches(self.mem_config, self.subtrees@[j as int], j as int));
                assert(k2 < per);
                assert(self.subtrees@[j as int].full_height() == hh);
            }
            let ghost oldsub = self.subtrees@[j as int];
            self.subtrees[j].set_local(lvl, k2, d);
            let num = crate::math::pow2_usize(self.as_height);
            proof {
                crate::math::lemma_pow2_le(kk, 10);
            }
            if lvl == self.label_bits {
                proof {
                    assert(top_slot(kk, k as nat) == num - 1 + (k as usize));
                }
                self.top_roots.set(num - 1 + (k as usize), d);
            }
            proof {
                let per2 = per as nat;
                assert forall|j2: int| 0 <= j2 < self.subtrees@.len() implies #[trigger] subtree_matches(
                    self.mem_config,
                    self.subtrees@[j2],
                    j2,
                ) by {
                    assert(subtree_matches(old(self).mem_config, old(self).subtrees@[j2], j2));
                    if j2 != j {
                        assert(self.subtrees@[j2] == old(self).subtrees@[j2]);
                    }
                }
                assert forall|lvl2: nat, k2g: nat|
                    lvl2 <= tt && k2g < pow2((tt - lvl2) as nat) && !(lvl2 == lvl && k2g == k)
                    implies self.tree_vnode(lvl2, k2g) == #[trigger] old(self).tree_vnode(
                    lvl2,
                    k2g,
                ) by {
                    if lvl2 <= hh {
                        let perx = pow2((hh - lvl2) as nat);
                        lemma_pow2_pos((hh - lvl2) as nat);
                        let jx = k2g / perx;
                        let kx = k2g % perx;
                        vstd::arithmetic::div_mod::lemma_fundamental_div_mod(
                            k2g as int,
                            perx as int,
                        );
                        lemma_pow2_adds((hh - lvl2) as nat, kk);
                        crate::math::lemma_div_bound(k2g, perx, pow2(kk));
                        assert(jx < self.subtrees@.len());
                        if jx == j {
                            if lvl2 == lvl {
                                assert(perx == per2);
                                if kx == k2 {
                                    vstd::arithmetic::div_mod::lemma_fundamental_div_mod(
                                        k as int,
                                        per as int,
                                    );
                                    assert(k2g == k);
                                } else {
                                    assert(self.subtrees@[j as int].vnode(lvl2, kx) == oldsub.vnode(
                                        lvl2,
                                        kx,
                                    ));
                                }
                            } else {
                                assert(self.subtrees@[j as int].vnode(lvl2, kx) == oldsub.vnode(
                                    lvl2,
                                    kx,
                                ));
                            }
                        } else {
                            assert(self.subtrees@[jx as int] == old(self).subtrees@[jx as int]);
                        }
                    } else {
                        // Top region: at most the redundant leaf copy moved,
                        // and every top node sits strictly before it.
                        let d2 = (tt - lvl2) as nat;
                        let s2 = top_slot(d2, k2g);
                        if k2g < pow2(d2) {
                            if lvl == self.label_bits {
                                assert(d2 < kk);
                                lemma_pow2_unfold((d2 + 1) as nat);
                                crate::math::lemma_pow2_le((d2 + 1) as nat, kk);
                                assert(s2 < pow2((d2 + 1) as nat) - 1);
                                assert(s2 < num - 1 + (k as usize));
                                assert(self.top_roots@[s2] == old(self).top_roots@[s2]);
                            } else {
                                assert(self.top_roots@ == old(self).top_roots@);
                            }
                        }
                    }
                }
                if old(self).top_copies() {
                    assert forall|j2: nat| j2 < self.num_spaces() implies self.top_roots@[
                    #[trigger] top_slot(kk, j2)]@ == self.tree_vnode(hh, j2) by {
                        crate::math::lemma_div_mod_one(j2);
                        assert(pow2((hh - hh) as nat) == 1) by {
                            lemma2_to64();
                        }
                        assert(top_slot(kk, j2) == num - 1 + j2);
                        if lvl == self.label_bits {
                            crate::math::lemma_div_mod_one(k as nat);
                            if j2 == k {
                                assert(self.top_roots@[top_slot(kk, j2)] == d);
                                assert(self.tree_vnode(hh, j2) == d@);
                            } else {
                                assert(self.top_roots@[top_slot(kk, j2)] == old(self).top_roots@[top_slot(
                                    kk,
                                    j2,
                                )]);
                                assert(self.tree_vnode(hh, j2) == old(self).tree_vnode(hh, j2));
                            }
                        } else {
                            assert(self.top_roots@[top_slot(kk, j2)] == old(self).top_roots@[top_slot(
                                kk,
                                j2,
                            )]);
                            assert(self.tree_vnode(hh, j2) == old(self).tree_vnode(hh, j2));
                        }
                    }
                }
            }
        }
    }
}

} // verus!
