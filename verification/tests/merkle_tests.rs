use memtrace::config::MemoryConfig;
use memtrace::hash::compress;
use memtrace::hash::hash_leaf;
use memtrace::hash::ZeroHashChain;
use memtrace::merkle::MemoryMerkleTree;
use memtrace::subtree::MemoryMerkleSubTree;
use memtrace::update::TouchedBlock;

// Four address spaces of 64 cells each behind one reserved slot, with
// 7-bit pointers: 8 leaves per space inside 16-leaf subtrees, path_len 1,
// subtree height 3, global tree height 6.
fn small_config() -> MemoryConfig {
    MemoryConfig { addr_space_cells: vec![0, 64, 64, 64, 64], pointer_max_bits: 7 }
}

fn build_tree(cells_per_space: &Vec<Vec<u32>>) -> MemoryMerkleTree {
    let mut tree = MemoryMerkleTree::new(small_config());
    for space in 0..5usize {
        tree.build(&cells_per_space[space], space);
    }
    tree.finalize();
    tree
}

fn empty_memory() -> Vec<Vec<u32>> {
    vec![vec![], vec![0; 64], vec![0; 64], vec![0; 64], vec![0; 64]]
}

#[test]
fn zero_hash_chain_is_compress_of_itself() {
    // ZeroHash[0] is the digest of an all-zero leaf and every further
    // entry compresses the previous one with itself.
    let chain = ZeroHashChain::new(6);
    assert_eq!(chain.len(), 7);
    let zero_leaf = [0u32; 8];
    assert_eq!(chain.at(0), hash_leaf(&zero_leaf));
    for i in 0..6usize {
        let lo = chain.at(i);
        assert_eq!(chain.at(i + 1), compress(&lo, &lo));
    }
}

#[test]
fn compression_is_not_the_identity() {
    let a = [1u32, 2, 3, 4, 5, 6, 7, 8];
    let b = [9u32, 10, 11, 12, 13, 14, 15, 16];
    let c = compress(&a, &b);
    assert_ne!(c, a);
    assert_ne!(c, b);
    assert_ne!(compress(&a, &b), compress(&b, &a));
    let h = hash_leaf(&a);
    assert_ne!(h, a);
}

#[test]
fn subtree_root_embeds_into_full_tree() {
    // An address space of 8 leaves inside a 16-leaf frame: the root
    // reconstructed through the vertical path equals the root of the
    // 16-leaf tree whose high half is all-zero leaves.
    let mut cells: Vec<u32> = Vec::new();
    for i in 0..64u32 {
        cells.push(i + 1);
    }
    let zero_hash = ZeroHashChain::new(4);
    let mut st = MemoryMerkleSubTree::new(8, 16);
    st.build(&cells, &zero_hash);
    let embedded_root = st.root(&zero_hash);

    // The same 16 leaves without a vertical path.
    let mut full_cells = cells.clone();
    full_cells.extend(vec![0u32; 64]);
    let mut full = MemoryMerkleSubTree::new(16, 16);
    full.build(&full_cells, &zero_hash);
    assert_eq!(embedded_root, full.root(&zero_hash));
}

#[test]
fn subtree_layer_bounds_follow_heap_order() {
    let zero_hash = ZeroHashChain::new(4);
    let mut st = MemoryMerkleSubTree::new(8, 16);
    let cells = vec![0u32; 64];
    st.build(&cells, &zero_hash);
    // depth 0 is the single vertical-path node, then heap layers.
    assert_eq!(st.layer_bounds(0), (0, 1));
    assert_eq!(st.layer_bounds(1), (1, 2));
    assert_eq!(st.layer_bounds(2), (2, 4));
    assert_eq!(st.layer_bounds(3), (4, 8));
}

fn touched(space: u32, label: u32, ts: u32, seed: u32) -> TouchedBlock {
    TouchedBlock {
        address_space: space,
        label,
        timestamp: ts,
        values: [seed, seed + 1, seed + 2, seed + 3, seed + 4, seed + 5, seed + 6, seed + 7],
    }
}

#[test]
fn incremental_update_matches_full_rebuild() {
    // Update two blocks incrementally, then rebuild from scratch over the
    // same final memory: the roots agree.
    let mut tree = build_tree(&empty_memory());
    let blocks = vec![touched(1, 2, 5, 100), touched(3, 6, 9, 200)];
    let out = tree.update_with_touched_blocks(&blocks);
    let new_root = tree.root();
    assert_eq!(&out.public_values[8..16], &new_root[..]);

    let mut final_memory = empty_memory();
    for b in &blocks {
        let space = b.address_space as usize;
        for q in 0..8usize {
            final_memory[space][(b.label as usize) * 8 + q] = b.values[q];
        }
    }
    let rebuilt = build_tree(&final_memory);
    assert_eq!(rebuilt.root(), new_root);
}

#[test]
fn empty_update_keeps_root_and_emits_dummy_path() {
    // With no touched blocks the trace is exactly 2 x treeHeight rows and
    // the divergence flags of the closing rows are forced set.
    let mut tree = build_tree(&empty_memory());
    let old_root = tree.root();
    let out = tree.update_with_touched_blocks(&vec![]);
    assert_eq!(tree.root(), old_root);
    assert_eq!(out.trace.len(), 2 * 6);
    let last = &out.trace[out.trace.len() - 1];
    let second_last = &out.trace[out.trace.len() - 2];
    assert!(last.left_direction_different && last.right_direction_different);
    assert!(second_last.left_direction_different && second_last.right_direction_different);
    assert_eq!(&out.public_values[0..8], &old_root[..]);
    assert_eq!(&out.public_values[8..16], &old_root[..]);
}

#[test]
fn update_public_values_are_old_and_new_root() {
    let mut tree = build_tree(&empty_memory());
    let old_root = tree.root();
    let out = tree.update_with_touched_blocks(&vec![touched(2, 0, 3, 42)]);
    assert_eq!(out.public_values.len(), 16);
    assert_eq!(&out.public_values[0..8], &old_root[..]);
    assert_eq!(&out.public_values[8..16], &tree.root()[..]);
    assert_ne!(tree.root(), old_root);
}

#[test]
fn single_touched_leaf_yields_one_root_path() {
    // The scenario with one touched leaf in address space 2: the unpadded
    // height counts only that leaf's path to the global root.
    let tree = build_tree(&empty_memory());
    let blocks = vec![touched(2, 3, 7, 9)];
    let h = tree.calculate_unpadded_height(&blocks);
    assert_eq!(h, 2 * 6);
    let mut tree = tree;
    let out = tree.update_with_touched_blocks(&blocks);
    assert_eq!(out.trace.len(), h);
}

#[test]
fn update_height_matches_divergence_formula() {
    // Two leaves whose tree indices differ at bit 4 contribute one shared
    // prefix and one divergent path segment.
    let tree = build_tree(&empty_memory());
    let blocks = vec![touched(1, 0, 1, 1), touched(2, 0, 2, 2)];
    // global indices 0 and 16: XOR is 16, bit length 4.
    let h = tree.calculate_unpadded_height(&blocks);
    assert_eq!(h, 2 * (6 + 4));
    let mut tree = tree;
    let out = tree.update_with_touched_blocks(&blocks);
    assert_eq!(out.trace.len(), h);
    for row in &out.trace {
        assert_eq!(row.parent_hash, compress(&row.left_child_hash, &row.right_child_hash));
    }
}

#[test]
fn update_rows_alternate_initial_and_final() {
    let mut tree = build_tree(&empty_memory());
    let out = tree.update_with_touched_blocks(&vec![touched(1, 1, 1, 5), touched(1, 2, 2, 6)]);
    for (i, row) in out.trace.iter().enumerate() {
        assert_eq!(row.is_final, i % 2 == 1);
    }
}

#[test]
fn two_incremental_updates_match_one_rebuild() {
    // Apply two segments' touched blocks one update at a time; the final
    // root matches a single from-scratch build over the final memory.
    let mut tree = build_tree(&empty_memory());
    let first = vec![touched(1, 0, 1, 10)];
    let second = vec![touched(1, 0, 2, 30), touched(4, 7, 3, 50)];
    tree.update_with_touched_blocks(&first);
    tree.update_with_touched_blocks(&second);

    let mut final_memory = empty_memory();
    for b in first.iter().chain(second.iter()) {
        let space = b.address_space as usize;
        for q in 0..8usize {
            final_memory[space][(b.label as usize) * 8 + q] = b.values[q];
        }
    }
    let rebuilt = build_tree(&final_memory);
    assert_eq!(rebuilt.root(), tree.root());
}

#[test]
fn tree_keeps_its_configuration() {
    let mut tree = build_tree(&empty_memory());
    assert_eq!(tree.mem_config().pointer_max_bits, 7);
    assert_eq!(tree.mem_config().addr_space_cells, vec![0, 64, 64, 64, 64]);
    assert_eq!(tree.height, 6);
    tree.drop_subtrees();
    assert_eq!(tree.subtrees.len(), 0);
}
