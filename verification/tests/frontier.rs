use incrementalmerkletree::{Hashable, Level};
use note_tree::frontier::{is_subtree_boundary, AppendResult, FrontierError};
use note_tree::sapling_frontier::{new_sapling, parse_sapling, sapling_empty_root, SaplingFrontier};
use sapling_crypto::Node;

fn leaf(n: u8) -> [u8; 32] {
    let mut bytes = [0u8; 32];
    bytes[0] = n;
    bytes[1] = 7;
    bytes
}

fn node(bytes: [u8; 32]) -> Node {
    Option::<Node>::from(Node::from_bytes(bytes)).unwrap()
}

/// The root at `level` of the subtree whose first leaves are `leaves`, the
/// rest being empty, by hashing the whole subtree.
fn full_root(leaves: &[[u8; 32]], level: u8) -> [u8; 32] {
    let mut layer: Vec<Node> = leaves.iter().map(|l| node(*l)).collect();
    if layer.is_empty() {
        return Node::empty_root(Level::from(level)).to_bytes();
    }
    for l in 0..level {
        if layer.len() % 2 == 1 {
            layer.push(Node::empty_root(Level::from(l)));
        }
        layer = layer
            .chunks(2)
            .map(|pair| Node::combine(Level::from(l), &pair[0], &pair[1]))
            .collect();
    }
    assert_eq!(layer.len(), 1);
    layer[0].to_bytes()
}

/// The current encoding of a frontier whose latest leaf is a left leaf.
fn left_leaf_encoding(position: u64, leaf: [u8; 32], ommers: &[[u8; 32]]) -> Vec<u8> {
    assert_eq!(position % 2, 0);
    let mut bytes = vec![1u8];
    bytes.extend_from_slice(&position.to_le_bytes());
    bytes.extend_from_slice(&leaf);
    bytes.push(0);
    bytes.push(ommers.len() as u8);
    for o in ommers {
        bytes.extend_from_slice(o);
    }
    bytes
}

#[test]
fn empty_frontier_has_the_empty_root() {
    let f = SaplingFrontier::empty();
    assert_eq!(f.size(), 0);
    assert_eq!(f.root(), Node::empty_root(Level::from(32)).to_bytes());
    assert_eq!(f.root(), sapling_empty_root());
    assert_eq!(new_sapling().size(), 0);
}

#[test]
fn root_matches_the_root_of_the_full_tree() {
    let mut f = SaplingFrontier::empty();
    let mut leaves = Vec::new();
    for n in 0..5u8 {
        leaves.push(leaf(n));
        let r = f.append(leaf(n)).unwrap();
        assert!(!r.has_subtree_boundary);
        assert_eq!(r.completed_subtree_root, [0u8; 32]);
        assert_eq!(f.size(), u64::from(n) + 1);
        assert_eq!(f.root(), full_root(&leaves, 32));
    }
}

#[test]
fn root_of_many_leaves_matches_the_root_of_the_full_tree() {
    let mut f = SaplingFrontier::empty();
    let mut leaves = Vec::new();
    for n in 0..67u8 {
        leaves.push(leaf(n));
        f.append(leaf(n)).unwrap();
        if n % 11 == 0 || n >= 62 {
            assert_eq!(f.root(), full_root(&leaves, 32));
        }
    }
    assert_eq!(f.size(), 67);
}

#[test]
fn append_changes_the_root() {
    let mut f = SaplingFrontier::empty();
    let before = f.root();
    f.append(leaf(1)).unwrap();
    let one = f.root();
    assert_ne!(before, one);
    f.append(leaf(1)).unwrap();
    assert_ne!(one, f.root());
}

#[test]
fn invalid_commitment_is_refused() {
    let mut f = SaplingFrontier::empty();
    f.append(leaf(1)).unwrap();
    let root = f.root();
    assert!(!SaplingFrontier::is_commitment(&[0xff; 32]));
    assert!(SaplingFrontier::is_commitment(&leaf(3)));
    assert_eq!(f.append([0xff; 32]).unwrap_err(), FrontierError::InvalidCommitment);
    assert_eq!(f.size(), 1);
    assert_eq!(f.root(), root);
}

#[test]
fn the_field_modulus_is_no_commitment() {
    // The modulus of the field, least significant byte first, and the value below it.
    let modulus: [u8; 32] = [
        0x01, 0x00, 0x00, 0x00, 0xff, 0xff, 0xff, 0xff, 0xfe, 0x5b, 0xfe, 0xff, 0x02, 0xa4, 0xbd,
        0x53, 0x05, 0xd8, 0xa1, 0x09, 0x08, 0xd8, 0x39, 0x33, 0x48, 0x7d, 0x9d, 0x29, 0x53, 0xa7,
        0xed, 0x73,
    ];
    let mut below = modulus;
    below[0] = 0;
    assert!(!SaplingFrontier::is_commitment(&modulus));
    assert!(SaplingFrontier::is_commitment(&below));
}

#[test]
fn boundary_rule() {
    assert!(!is_subtree_boundary(0));
    assert!(!is_subtree_boundary(1));
    assert!(!is_subtree_boundary(65535));
    assert!(is_subtree_boundary(65536));
    assert!(!is_subtree_boundary(65537));
    assert!(is_subtree_boundary(131072));
    assert!(is_subtree_boundary(1u64 << 32));
}

#[test]
fn the_leaf_that_fills_a_subtree_reports_its_root() {
    // A frontier of 65535 leaves: the latest is a left leaf with 15 ommers.
    let ommers: Vec<[u8; 32]> = (1..=15u8).map(leaf).collect();
    let bytes = left_leaf_encoding(65534, leaf(100), &ommers);
    let mut f = parse_sapling(&bytes).unwrap();
    assert_eq!(f.size(), 65535);
    let r: AppendResult = f.append(leaf(200)).unwrap();
    assert_eq!(f.size(), 65536);
    assert!(r.has_subtree_boundary);
    // The subtree root, hashed by hand from the leaf and its ommers.
    let mut digest = Node::combine(Level::from(0), &node(leaf(100)), &node(leaf(200)));
    for (i, o) in ommers.iter().enumerate() {
        digest = Node::combine(Level::from(i as u8 + 1), &node(*o), &digest);
    }
    assert_eq!(r.completed_subtree_root, digest.to_bytes());
    // The next leaf opens a new subtree.
    let next = f.append(leaf(201)).unwrap();
    assert!(!next.has_subtree_boundary);
    assert_eq!(next.completed_subtree_root, [0u8; 32]);
}

#[test]
fn a_bundle_reports_the_subtree_it_closes() {
    let ommers: Vec<[u8; 32]> = (1..=15u8).map(leaf).collect();
    let bytes = left_leaf_encoding(65534, leaf(100), &ommers);
    let mut f = parse_sapling(&bytes).unwrap();
    let mut single = f.snapshot();
    let r = f.append_bundle(&vec![leaf(200), leaf(201), leaf(202)]).unwrap();
    assert_eq!(f.size(), 65538);
    assert!(r.has_subtree_boundary);
    let expected = single.append(leaf(200)).unwrap();
    assert_eq!(r.completed_subtree_root, expected.completed_subtree_root);
    single.append(leaf(201)).unwrap();
    single.append(leaf(202)).unwrap();
    assert_eq!(f.root(), single.root());
}

#[test]
fn a_bundle_is_appended_whole_or_not_at_all() {
    let mut f = SaplingFrontier::empty();
    f.append(leaf(1)).unwrap();
    let root = f.root();
    let r = f.append_bundle(&vec![leaf(2), [0xff; 32], leaf(3)]);
    assert_eq!(r.unwrap_err(), FrontierError::InvalidCommitment);
    assert_eq!(f.size(), 1);
    assert_eq!(f.root(), root);
    assert_eq!(f.append_all(&vec![leaf(2), [0xff; 32]]).unwrap_err(), FrontierError::InvalidCommitment);
    assert_eq!(f.size(), 1);
    let r = f.append_bundle(&vec![leaf(2), leaf(3)]).unwrap();
    assert!(!r.has_subtree_boundary);
    assert_eq!(r.completed_subtree_root, [0u8; 32]);
    assert_eq!(f.size(), 3);
    assert_eq!(f.root(), full_root(&[leaf(1), leaf(2), leaf(3)], 32));
    let empty = f.append_bundle(&Vec::new()).unwrap();
    assert!(!empty.has_subtree_boundary);
    assert_eq!(f.size(), 3);
    f.append_all(&vec![leaf(4), leaf(5)]).unwrap();
    assert_eq!(f.root(), full_root(&[leaf(1), leaf(2), leaf(3), leaf(4), leaf(5)], 32));
}

#[test]
fn a_full_tree_takes_no_leaf() {
    // A frontier of 2^32 leaves: the latest is a right leaf, with 32 ommers.
    let mut bytes = vec![1u8];
    bytes.extend_from_slice(&0xffff_ffffu64.to_le_bytes());
    bytes.extend_from_slice(&leaf(1));
    bytes.push(1);
    bytes.extend_from_slice(&leaf(0));
    bytes.push(31);
    for n in 2..=32u8 {
        bytes.extend_from_slice(&leaf(n));
    }
    let mut f = parse_sapling(&bytes).unwrap();
    assert_eq!(f.size(), 1u64 << 32);
    let root = f.root();
    assert_eq!(f.append(leaf(9)).unwrap_err(), FrontierError::TreeFull);
    assert_eq!(f.append_bundle(&vec![leaf(9)]).unwrap_err(), FrontierError::TreeFull);
    assert_eq!(f.append_all(&vec![leaf(9)]).unwrap_err(), FrontierError::TreeFull);
    assert_eq!(f.size(), 1u64 << 32);
    assert_eq!(f.root(), root);
    // One leaf fits into a tree that lacks one, two do not.
    let ommers: Vec<[u8; 32]> = (1..=31u8).map(leaf).collect();
    let mut g = parse_sapling(&left_leaf_encoding(0xffff_fffe, leaf(100), &ommers)).unwrap();
    assert_eq!(g.append_all(&vec![leaf(8), leaf(9)]).unwrap_err(), FrontierError::TreeFull);
    assert_eq!(g.size(), (1u64 << 32) - 1);
    assert!(g.append(leaf(8)).unwrap().has_subtree_boundary);
    assert_eq!(g.size(), 1u64 << 32);
}

#[test]
fn current_encoding_of_small_frontiers() {
    let mut f = SaplingFrontier::empty();
    assert_eq!(f.serialize(), vec![0u8]);
    f.append(leaf(1)).unwrap();
    assert_eq!(f.serialize(), left_leaf_encoding(0, leaf(1), &[]));
    f.append(leaf(2)).unwrap();
    let mut two = vec![1u8];
    two.extend_from_slice(&1u64.to_le_bytes());
    two.extend_from_slice(&leaf(1));
    two.push(1);
    two.extend_from_slice(&leaf(2));
    two.push(0);
    assert_eq!(f.serialize(), two);
    f.append(leaf(3)).unwrap();
    let pair = Node::combine(Level::from(0), &node(leaf(1)), &node(leaf(2))).to_bytes();
    assert_eq!(f.serialize(), left_leaf_encoding(2, leaf(3), &[pair]));
}

#[test]
fn legacy_encoding_of_small_frontiers() {
    let mut f = SaplingFrontier::empty();
    assert_eq!(f.serialize_legacy(), vec![0u8, 0, 0]);
    f.append(leaf(1)).unwrap();
    let mut one = vec![1u8];
    one.extend_from_slice(&leaf(1));
    one.push(0);
    one.push(31);
    one.extend_from_slice(&[0u8; 31]);
    assert_eq!(f.serialize_legacy(), one);
    f.append(leaf(2)).unwrap();
    f.append(leaf(3)).unwrap();
    let pair = Node::combine(Level::from(0), &node(leaf(1)), &node(leaf(2))).to_bytes();
    let mut three = vec![1u8];
    three.extend_from_slice(&leaf(3));
    three.push(0);
    three.push(31);
    three.push(1);
    three.extend_from_slice(&pair);
    three.extend_from_slice(&[0u8; 30]);
    assert_eq!(f.serialize_legacy(), three);
    f.append(leaf(4)).unwrap();
    let mut four = vec![1u8];
    four.extend_from_slice(&leaf(3));
    four.push(1);
    four.extend_from_slice(&leaf(4));
    four.push(31);
    four.push(1);
    four.extend_from_slice(&pair);
    four.extend_from_slice(&[0u8; 30]);
    assert_eq!(f.serialize_legacy(), four);
}

fn reads_back(f: &SaplingFrontier) {
    let bytes = f.serialize();
    let g = SaplingFrontier::parse(&bytes).unwrap();
    assert_eq!(g.size(), f.size());
    assert_eq!(g.root(), f.root());
    assert_eq!(g.serialize(), bytes);
    let legacy = f.serialize_legacy();
    let tree: sapling_crypto::CommitmentTree =
        zcash_primitives::merkle_tree::read_commitment_tree(&legacy[..]).unwrap();
    let h = tree.to_frontier();
    assert_eq!(h.tree_size(), f.size());
    assert_eq!(h.root().to_bytes(), f.root());
    let k = SaplingFrontier::parse_legacy(&legacy).unwrap();
    assert_eq!(k.size(), f.size());
    assert_eq!(k.root(), f.root());
    assert_eq!(k.serialize(), bytes);
    assert_eq!(k.serialize_legacy(), legacy);
}

#[test]
fn both_encodings_read_back_as_the_same_frontier() {
    let mut f = SaplingFrontier::empty();
    reads_back(&f);
    f.append(leaf(1)).unwrap();
    reads_back(&f);
    f.append(leaf(2)).unwrap();
    reads_back(&f);
    f.append(leaf(3)).unwrap();
    reads_back(&f);
    let ommers: Vec<[u8; 32]> = (1..=31u8).map(leaf).collect();
    let last = parse_sapling(&left_leaf_encoding(0xffff_fffe, leaf(100), &ommers)).unwrap();
    assert_eq!(last.size(), (1u64 << 32) - 1);
    reads_back(&last);
}

#[test]
fn bytes_that_are_no_frontier_are_refused() {
    assert!(parse_sapling(&[]).is_err());
    assert!(parse_sapling(&[2]).is_err());
    assert!(parse_sapling(&[1, 0, 0]).is_err());
    // A left leaf at position 2 needs one ommer.
    assert!(parse_sapling(&left_leaf_encoding(2, leaf(1), &[])).is_err());
    // A node that is no field element.
    assert!(parse_sapling(&left_leaf_encoding(0, [0xff; 32], &[])).is_err());
    let e = SaplingFrontier::parse(&[7]).err().unwrap();
    assert!(e.starts_with("Failed to parse v5 Merkle frontier: "));
}

#[test]
fn legacy_bytes_that_hold_no_frontier_are_refused() {
    assert!(SaplingFrontier::parse_legacy(&[]).is_err());
    assert!(SaplingFrontier::parse_legacy(&[0, 0]).is_err());
    assert!(SaplingFrontier::parse_legacy(&[2, 0, 0]).is_err());
    assert_eq!(SaplingFrontier::parse_legacy(&[0, 0, 0]).unwrap().size(), 0);
    // A right leaf without a left one.
    let mut right_only = vec![0u8, 1];
    right_only.extend_from_slice(&leaf(1));
    right_only.push(0);
    assert!(SaplingFrontier::parse_legacy(&right_only).is_err());
    // A parent without a leaf.
    let mut parent_only = vec![0u8, 0, 1, 1];
    parent_only.extend_from_slice(&leaf(1));
    assert!(SaplingFrontier::parse_legacy(&parent_only).is_err());
    // As many parents as the tree is deep.
    let mut deep = vec![1u8];
    deep.extend_from_slice(&leaf(1));
    deep.push(0);
    deep.push(32);
    deep.extend_from_slice(&[0u8; 32]);
    assert!(SaplingFrontier::parse_legacy(&deep).is_err());
    // A leaf that is no field element.
    let mut bad = vec![1u8];
    bad.extend_from_slice(&[0xff; 32]);
    bad.extend_from_slice(&[0, 0]);
    let e = SaplingFrontier::parse_legacy(&bad).err().unwrap();
    assert!(e.starts_with("Failed to parse legacy Merkle frontier: "));
}

#[test]
fn legacy_bytes_with_few_parents_are_read() {
    // Three leaves: the latest is a left leaf, and the pair before it is the
    // parent at the lowest level; higher levels need not be written.
    let pair = Node::combine(Level::from(0), &node(leaf(1)), &node(leaf(2))).to_bytes();
    let mut bytes = vec![1u8];
    bytes.extend_from_slice(&leaf(3));
    bytes.push(0);
    bytes.push(1);
    bytes.push(1);
    bytes.extend_from_slice(&pair);
    let f = SaplingFrontier::parse_legacy(&bytes).unwrap();
    assert_eq!(f.size(), 3);
    assert_eq!(f.root(), full_root(&[leaf(1), leaf(2), leaf(3)], 32));
    // Six leaves: a right leaf, no parent at level 1, one at level 2.
    let mut g = SaplingFrontier::empty();
    for n in 1..=6u8 {
        g.append(leaf(n)).unwrap();
    }
    let four = vec![leaf(1), leaf(2), leaf(3), leaf(4)];
    let mut six = vec![1u8];
    six.extend_from_slice(&leaf(5));
    six.push(1);
    six.extend_from_slice(&leaf(6));
    six.push(2);
    six.push(0);
    six.push(1);
    six.extend_from_slice(&full_root(&four, 2));
    let h = SaplingFrontier::parse_legacy(&six).unwrap();
    assert_eq!(h.size(), 6);
    assert_eq!(h.root(), g.root());
    assert_eq!(h.serialize(), g.serialize());
}

#[test]
fn clone_is_a_snapshot() {
    let mut f = SaplingFrontier::empty();
    f.append(leaf(1)).unwrap();
    let c = f.box_clone();
    f.append(leaf(2)).unwrap();
    assert_eq!(c.size(), 1);
    assert_eq!(c.root(), full_root(&[leaf(1)], 32));
    assert_eq!(f.size(), 2);
    assert!(f.dynamic_memory_usage() > 0);
}

#[test]
fn memory_is_no_less_than_the_nodes_held() {
    let mut f = SaplingFrontier::empty();
    let empty = f.dynamic_memory_usage();
    // The empty frontier has allocated nothing: it takes its own size.
    let own = std::mem::size_of::<incrementalmerkletree::frontier::Frontier<Node, 32>>();
    assert_eq!(empty, own);
    // One leaf; then a leaf and one ommer; after seven leaves a leaf and two ommers.
    f.append(leaf(1)).unwrap();
    assert!(f.dynamic_memory_usage() > own + 32);
    assert!(f.dynamic_memory_usage() > empty);
    f.append(leaf(2)).unwrap();
    assert!(f.dynamic_memory_usage() > own + 64);
    for n in 3..=7u8 {
        f.append(leaf(n)).unwrap();
    }
    assert!(f.dynamic_memory_usage() > own + 96);
    // A frontier of 2^32 - 1 leaves holds its leaf and 31 ommers.
    let ommers: Vec<[u8; 32]> = (1..=31u8).map(leaf).collect();
    let last = SaplingFrontier::parse(&left_leaf_encoding(0xffff_fffe, leaf(100), &ommers)).unwrap();
    assert!(last.dynamic_memory_usage() > own + 32 * 32);
}
