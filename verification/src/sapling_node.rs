//! Sapling tree nodes and frontiers of the outside crates, behind contracts.

use vstd::prelude::*;
use incrementalmerkletree::frontier::{CommitmentTree, Frontier};
use incrementalmerkletree::{Level, Position};
use zcash_primitives::merkle_tree::{
    read_commitment_tree, read_frontier_v1, write_commitment_tree, write_frontier_v1,
};
use crate::frontier::{
    byte_seqs, frontier_encoding, le_value, lemma_le_value_by_last_byte, limbs_value, pow256,
    FrontierModel,
};
use crate::legacy::{frontier_shaped, legacy_encoding, legacy_tree_of, ones, LegacyTree};
use sapling_crypto::note::ExtractedNoteCommitment;
use sapling_crypto::Node;

verus! {

/// A node of the outside crate is opaque; its bytes are named.
#[verifier::external_type_specification]
#[verifier::external_body]
pub struct ExNode(Node);

/// The canonical 32-byte encoding of a node.
pub uninterp spec fn sapling_node_bytes(n: Node) -> Seq<u8>;

/// The modulus of the field in which Sapling note commitments and tree nodes lie.
pub open spec fn sapling_field_modulus() -> nat {
    limbs_value(0xffff_ffff_0000_0001, 0x53bd_a402_fffe_5bfe, 0x3339_d808_09a1_d805, 0x73ed_a753_299d_7d48)
}

/// Whether bytes are the canonical encoding of an element of the field in
/// which Sapling note commitments and tree nodes lie: 32 bytes that, read
/// least significant first, stand for a number below the modulus. This is
/// what `ExtractedNoteCommitment::from_bytes` and `Node::from_bytes` accept.
pub open spec fn sapling_commitment_valid(bytes: Seq<u8>) -> bool {
    bytes.len() == 32 && le_value(bytes) < sapling_field_modulus()
}

/// The most significant byte of the modulus.
pub open spec fn sapling_modulus_top_byte() -> u8 {
    0x73
}

/// Of 32 bytes the last decides in most cases: below the top byte of the
/// modulus they encode a commitment, above it they encode none.
pub proof fn lemma_sapling_valid_by_last_byte(bytes: Seq<u8>)
    requires
        bytes.len() == 32,
    ensures
        bytes[31] < sapling_modulus_top_byte() ==> sapling_commitment_valid(bytes),
        bytes[31] > sapling_modulus_top_byte() ==> !sapling_commitment_valid(bytes),
{
    lemma_le_value_by_last_byte(bytes);
    let p = pow256(31);
    let b = bytes[31] as int;
    let top = sapling_modulus_top_byte() as int;
    assert(p * top < sapling_field_modulus() < p * (top + 1));
    if b < top {
        assert(p * (b + 1) <= p * top) by (nonlinear_arith)
            requires
                b + 1 <= top,
                p >= 0,
        ;
    }
    if b > top {
        assert(p * (top + 1) <= p * b) by (nonlinear_arith)
            requires
                top + 1 <= b,
                p >= 0,
        ;
    }
}

/// Every one of the byte strings encodes a Sapling commitment.
pub open spec fn sapling_all_valid(leaves: Seq<Seq<u8>>) -> bool {
    forall|i: int| 0 <= i < leaves.len() ==> sapling_commitment_valid(#[trigger] leaves[i])
}

/// Number of leaves that a frontier stands for.
pub uninterp spec fn sapling_frontier_size(f: Frontier<Node, 32>) -> nat;

/// The latest leaf of a frontier followed by its ommers; empty for the empty frontier.
pub uninterp spec fn sapling_frontier_nodes(f: Frontier<Node, 32>) -> Seq<Seq<u8>>;

/// The nodes of a frontier of `size` leaves after one more leaf is appended.
pub uninterp spec fn sapling_nodes_after_append(size: nat, nodes: Seq<Seq<u8>>, leaf: Seq<u8>) -> Seq<Seq<u8>>;

/// The root at full depth of the tree that a frontier stands for.
pub uninterp spec fn sapling_root_of(size: nat, nodes: Seq<Seq<u8>>) -> Seq<u8>;

/// The root at `level` of the subtree that holds the latest leaf of a non-empty frontier.
pub uninterp spec fn sapling_subtree_root_of(size: nat, nodes: Seq<Seq<u8>>, level: u8) -> Seq<u8>;

/// The leaves count and the nodes of the frontier that a byte string is read
/// as in the current encoding; `None` where the reading fails.
pub uninterp spec fn sapling_parsed(bytes: Seq<u8>) -> Option<(nat, Seq<Seq<u8>>)>;

/// The left leaf, the right leaf and the parents of the commitment tree that
/// a byte string is read as in the legacy encoding; `None` where the reading
/// fails.
pub uninterp spec fn sapling_legacy_parsed(bytes: Seq<u8>) -> Option<
    (Option<Seq<u8>>, Option<Seq<u8>>, Seq<Option<Seq<u8>>>),
>;

/// `ExtractedNoteCommitment::from_bytes` followed by `Node::from_cmu`: a leaf
/// comes back exactly for canonical encodings, and encodes to the same bytes.
#[verifier::external_body]
pub(crate) fn sapling_leaf(bytes: &[u8; 32]) -> (r: Option<Node>)
    ensures
        r.is_some() == sapling_commitment_valid(bytes@),
        r matches Some(n) ==> sapling_node_bytes(n) == bytes@,
{
    Option::<ExtractedNoteCommitment>::from(ExtractedNoteCommitment::from_bytes(bytes))
        .map(|c| Node::from_cmu(&c))
}

/// `Frontier::empty`: the frontier of no leaves.
#[verifier::external_body]
pub(crate) fn sapling_empty() -> (f: Frontier<Node, 32>)
    ensures
        sapling_frontier_size(f) == 0,
        sapling_frontier_nodes(f) == Seq::<Seq<u8>>::empty(),
{
    Frontier::empty()
}

/// `Frontier::clone`: a frontier that holds the same leaves count and nodes.
#[verifier::external_body]
pub(crate) fn sapling_clone(f: &Frontier<Node, 32>) -> (c: Frontier<Node, 32>)
    ensures
        c == *f,
{
    f.clone()
}

/// A frontier of `size` leaves with these nodes has the shape of a frontier,
/// and each of its nodes is a canonical encoding.
pub open spec fn sapling_frontier_wf(size: nat, nodes: Seq<Seq<u8>>) -> bool {
    frontier_shaped(FrontierModel { size, nodes }) && sapling_all_valid(nodes)
}

/// `Frontier::tree_size`: the number of leaves, never above 2^32. A frontier
/// of that many leaves holds its latest leaf and one ommer for each one bit
/// of the position of that leaf, and no node where it has no leaf: the outside
/// crate makes no frontier with another number of ommers
/// (`FrontierError::PositionMismatch`) or with a position beyond the tree
/// (`FrontierError::MaxDepthExceeded`), and `append` keeps both.
#[verifier::external_body]
pub(crate) fn sapling_size(f: &Frontier<Node, 32>) -> (n: u64)
    ensures
        n == sapling_frontier_size(*f),
        n <= 0x1_0000_0000,
        sapling_frontier_wf(n as nat, sapling_frontier_nodes(*f)),
{
    f.tree_size()
}

/// `Frontier::append`: refused, with the frontier unchanged, exactly when the
/// tree holds 2^32 leaves; else the size grows by one and the nodes are those
/// that the append computes from the old nodes and the leaf.
#[verifier::external_body]
pub(crate) fn sapling_append(f: &mut Frontier<Node, 32>, leaf: Node) -> (ok: bool)
    ensures
        ok == (sapling_frontier_size(*old(f)) < 0x1_0000_0000),
        ok ==> sapling_frontier_size(*final(f)) == sapling_frontier_size(*old(f)) + 1,
        ok ==> sapling_frontier_nodes(*final(f)) == sapling_nodes_after_append(
            sapling_frontier_size(*old(f)),
            sapling_frontier_nodes(*old(f)),
            sapling_node_bytes(leaf),
        ),
        !ok ==> *final(f) == *old(f),
{
    f.append(leaf)
}

/// `Frontier::root`, as bytes.
#[verifier::external_body]
pub(crate) fn sapling_root(f: &Frontier<Node, 32>) -> (r: [u8; 32])
    ensures
        r@ == sapling_root_of(sapling_frontier_size(*f), sapling_frontier_nodes(*f)),
{
    f.root().to_bytes()
}

/// `NonEmptyFrontier::root` at a given level, as bytes.
#[verifier::external_body]
pub(crate) fn sapling_subtree_root(f: &Frontier<Node, 32>, level: u8) -> (r: [u8; 32])
    requires
        sapling_frontier_size(*f) > 0,
        level <= 32,
    ensures
        r@ == sapling_subtree_root_of(sapling_frontier_size(*f), sapling_frontier_nodes(*f), level),
{
    f.value().unwrap().root(Some(Level::from(level))).to_bytes()
}

/// `write_frontier_v1` into a vector: the current encoding of the frontier,
/// which `read_frontier_v1` reads back as the same frontier.
#[verifier::external_body]
pub(crate) fn sapling_write(f: &Frontier<Node, 32>) -> (out: Vec<u8>)
    ensures
        out@ == frontier_encoding(
            FrontierModel { size: sapling_frontier_size(*f), nodes: sapling_frontier_nodes(*f) },
        ),
        sapling_parsed(out@) == Some((sapling_frontier_size(*f), sapling_frontier_nodes(*f))),
{
    let mut out = Vec::new();
    write_frontier_v1(&mut out, f).expect("writing to a vector does not fail");
    out
}

/// `CommitmentTree::from_frontier` and `write_commitment_tree` into a vector:
/// the legacy encoding of the frontier, which `read_commitment_tree` reads
/// back as the legacy tree of the frontier.
#[verifier::external_body]
pub(crate) fn sapling_write_legacy(f: &Frontier<Node, 32>) -> (out: Vec<u8>)
    ensures
        out@ == legacy_encoding(
            FrontierModel { size: sapling_frontier_size(*f), nodes: sapling_frontier_nodes(*f) },
        ),
        sapling_legacy_parsed(out@) == Some(
            {
                let t = legacy_tree_of(
                    FrontierModel {
                        size: sapling_frontier_size(*f),
                        nodes: sapling_frontier_nodes(*f),
                    },
                );
                (t.left, t.right, t.parents)
            },
        ),
{
    let mut out = Vec::new();
    write_commitment_tree(&CommitmentTree::from_frontier(f), &mut out)
        .expect("writing to a vector does not fail");
    out
}

/// `read_frontier_v1` from the start of a byte string: the frontier read, or
/// the message of the failure.
#[verifier::external_body]
pub(crate) fn sapling_read(bytes: &[u8]) -> (r: Result<Frontier<Node, 32>, String>)
    ensures
        match r {
            Ok(f) => sapling_parsed(bytes@) == Some(
                (sapling_frontier_size(f), sapling_frontier_nodes(f)),
            ),
            Err(_) => sapling_parsed(bytes@).is_none(),
        },
{
    read_frontier_v1(bytes).map_err(|e| format!("Failed to parse v5 Merkle frontier: {}", e))
}

/// `Frontier::dynamic_memory_usage`: the bytes that the frontier has
/// allocated. The empty frontier has allocated nothing. Another has room for
/// its latest leaf and for as many ommers as its vector has capacity for,
/// which is no fewer than it holds, at 32 bytes each, and for one number
/// more: so more than 32 bytes for each node held.
#[verifier::external_body]
pub(crate) fn sapling_heap(f: &Frontier<Node, 32>) -> (n: usize)
    ensures
        n >= 32 * sapling_frontier_nodes(*f).len(),
        sapling_frontier_size(*f) == 0 ==> n == 0,
        sapling_frontier_size(*f) > 0 ==> n > 32 * sapling_frontier_nodes(*f).len(),
{
    f.dynamic_memory_usage()
}

/// `read_commitment_tree` from the start of a byte string, each node handed
/// on as its bytes: the tree read, or the message of the failure.
#[verifier::external_body]
pub(crate) fn sapling_read_legacy(bytes: &[u8]) -> (r: Result<LegacyTree, String>)
    ensures
        match r {
            Ok(t) => sapling_legacy_parsed(bytes@) == Some((t@.left, t@.right, t@.parents)),
            Err(_) => sapling_legacy_parsed(bytes@).is_none(),
        },
{
    read_commitment_tree::<Node, _, 32>(bytes)
        .map(|t| LegacyTree {
            left: t.left().as_ref().map(|n| n.to_bytes()),
            right: t.right().as_ref().map(|n| n.to_bytes()),
            parents: t.parents().iter().map(|p| p.as_ref().map(|n| n.to_bytes())).collect(),
        })
        .map_err(|e| format!("Failed to parse legacy Merkle frontier: {}", e))
}

/// `Node::from_bytes` on each node and `Frontier::from_parts`: a frontier
/// comes back exactly where every node is a canonical encoding, the position
/// lies in the tree, and there are as many ommers as the position has one
/// bits; it holds the leaf and the ommers given.
#[verifier::external_body]
pub(crate) fn sapling_from_parts(position: u64, leaf: &[u8; 32], ommers: &Vec<[u8; 32]>) -> (r:
    Option<Frontier<Node, 32>>)
    ensures
        r.is_some() == (position < 0x1_0000_0000 && ommers@.len() == ones(position as nat)
            && sapling_commitment_valid(leaf@) && sapling_all_valid(byte_seqs(ommers@))),
        r matches Some(f) ==> sapling_frontier_size(f) == position + 1 && sapling_frontier_nodes(f)
            == seq![leaf@] + byte_seqs(ommers@),
{
    let leaf = Option::<Node>::from(Node::from_bytes(*leaf))?;
    let ommers = ommers
        .iter()
        .map(|o| Option::<Node>::from(Node::from_bytes(*o)))
        .collect::<Option<Vec<Node>>>()?;
    Frontier::from_parts(Position::from(position), leaf, ommers).ok()
}

} // verus!
