//! The state of a Merkle frontier as plain values, and the subtree boundary rule.

use vstd::prelude::*;
use vstd::bytes::{spec_u16_to_le_bytes, spec_u32_to_le_bytes, spec_u64_to_le_bytes};

verus! {

/// Depth of the note commitment trees.
pub const TREE_DEPTH: u8 = 32;

/// Height of the subtrees whose completion an append reports.
pub const TRACKED_SUBTREE_HEIGHT: u8 = 16;

/// Number of leaves of a full tree of depth `TREE_DEPTH`.
pub const MAX_LEAVES: u64 = 0x1_0000_0000;

/// Number of leaves of a subtree of height `TRACKED_SUBTREE_HEIGHT`.
pub const TRACKED_SUBTREE_LEAVES: u64 = 0x1_0000;

/// An outside frontier is opaque; its contents are named per hash type.
#[verifier::external_type_specification]
#[verifier::external_body]
#[verifier::reject_recursive_types(H)]
pub struct ExFrontier<H, const DEPTH: u8>(incrementalmerkletree::frontier::Frontier<H, DEPTH>);

/// What a frontier holds: the number of leaves appended so far, and the latest
/// leaf followed by its ommers, each as 32 bytes.
pub struct FrontierModel {
    pub size: nat,
    pub nodes: Seq<Seq<u8>>,
}

/// A tree of `size` leaves ends exactly at the right edge of a tracked subtree.
pub open spec fn completes_subtree(size: nat) -> bool {
    size > 0 && size % (TRACKED_SUBTREE_LEAVES as nat) == 0
}

/// Subtree boundary detector: whether the leaf that brought the tree to `size`
/// leaves closed a subtree of the tracked height.
pub fn is_subtree_boundary(size: u64) -> (b: bool)
    ensures
        b == completes_subtree(size as nat),
{
    size != 0 && size % TRACKED_SUBTREE_LEAVES == 0
}

/// Number of further leaves after which a tree of `size` leaves next ends at
/// the right edge of a tracked subtree: between 1 and 2^16.
pub open spec fn leaves_to_boundary(size: nat) -> nat {
    (TRACKED_SUBTREE_LEAVES as nat - size % (TRACKED_SUBTREE_LEAVES as nat)) as nat
}

/// The byte sequences of a list of 32-byte values.
pub open spec fn byte_seqs(values: Seq<[u8; 32]>) -> Seq<Seq<u8>> {
    Seq::new(values.len(), |i: int| values[i]@)
}

/// The number that a byte string stands for, least significant byte first.
pub open spec fn le_value(bytes: Seq<u8>) -> nat
    decreases bytes.len(),
{
    if bytes.len() == 0 {
        0
    } else {
        bytes[0] as nat + 256 * le_value(bytes.skip(1))
    }
}

/// The number made of four limbs of 64 bits, least significant limb first.
pub open spec fn limbs_value(l0: u64, l1: u64, l2: u64, l3: u64) -> nat {
    (l0 + 0x1_0000_0000_0000_0000 * (l1 + 0x1_0000_0000_0000_0000 * (l2 + 0x1_0000_0000_0000_0000
        * l3))) as nat
}

/// 256 to the power `n`: the number of byte strings of length `n`.
pub open spec fn pow256(n: nat) -> nat
    decreases n,
{
    if n == 0 {
        1
    } else {
        256 * pow256((n - 1) as nat)
    }
}

/// A byte string stands for a number below 256 to the power of its length.
pub proof fn lemma_le_value_below(bytes: Seq<u8>)
    ensures
        le_value(bytes) < pow256(bytes.len()),
    decreases bytes.len(),
{
    if bytes.len() > 0 {
        lemma_le_value_below(bytes.skip(1));
    }
}

/// The number of a byte string is that of its first `k` bytes, and above it
/// that of the rest.
pub proof fn lemma_le_value_split(bytes: Seq<u8>, k: int)
    requires
        0 <= k <= bytes.len(),
    ensures
        le_value(bytes) == le_value(bytes.take(k)) + pow256(k as nat) * le_value(bytes.skip(k)),
    decreases k,
{
    if k == 0 {
        assert(bytes.skip(0) =~= bytes);
        assert(bytes.take(0) =~= Seq::empty());
        assert(pow256(0) == 1);
        assert(1 * le_value(bytes) == le_value(bytes));
    } else {
        let rest = bytes.skip(1);
        lemma_le_value_split(rest, k - 1);
        assert(bytes.take(k).skip(1) =~= rest.take(k - 1));
        assert(rest.skip(k - 1) =~= bytes.skip(k));
        let low = le_value(rest.take(k - 1));
        let high = le_value(bytes.skip(k));
        let p = pow256((k - 1) as nat);
        assert(256 * (low + p * high) == 256 * low + (256 * p) * high) by (nonlinear_arith);
        assert(le_value(bytes.take(k)) == bytes[0] + 256 * low);
        assert(pow256(k as nat) == 256 * p);
    }
}

/// The number of 32 bytes lies between what their last byte stands for and
/// what the next greater last byte would stand for.
pub proof fn lemma_le_value_by_last_byte(bytes: Seq<u8>)
    requires
        bytes.len() == 32,
    ensures
        pow256(31) * bytes[31] <= le_value(bytes) < pow256(31) * (bytes[31] + 1),
        pow256(31) == 0x1_0000_0000_0000_0000 * (0x1_0000_0000_0000_0000 * (0x1_0000_0000_0000_0000
            * 0x100_0000_0000_0000)),
{
    lemma_le_value_split(bytes, 31);
    lemma_le_value_below(bytes.take(31));
    let last = bytes.skip(31);
    assert(last.skip(1) =~= Seq::empty());
    assert(le_value(last) == bytes[31]) by {
        assert(le_value(last.skip(1)) == 0);
    }
    let p = pow256(31);
    let b = bytes[31] as int;
    assert(p * (b + 1) == p * b + p) by (nonlinear_arith);
    reveal_with_fuel(pow256, 32);
}

/// A length in the compact form: one byte below 253, else a marker byte and
/// the value in 2, 4 or 8 bytes, least significant first.
pub open spec fn compact_size(n: nat) -> Seq<u8> {
    if n < 253 {
        seq![n as u8]
    } else if n <= 0xFFFF {
        seq![253u8] + spec_u16_to_le_bytes(n as u16)
    } else if n <= 0xFFFF_FFFF {
        seq![254u8] + spec_u32_to_le_bytes(n as u32)
    } else {
        seq![255u8] + spec_u64_to_le_bytes(n as u64)
    }
}

/// The current encoding of a frontier. The empty frontier is one zero byte.
/// Else: a byte 1; the position of the latest leaf in 8 bytes, least
/// significant first; for a left leaf the leaf, a byte 0 and the ommers as a
/// list; for a right leaf its sibling, a byte 1, the leaf, and the other
/// ommers as a list. A list is its length in compact form, then its nodes.
pub open spec fn frontier_encoding(m: FrontierModel) -> Seq<u8> {
    if m.size == 0 {
        seq![0u8]
    } else {
        let position = (m.size - 1) as nat;
        let head = seq![1u8] + spec_u64_to_le_bytes(position as u64);
        if position % 2 == 1 {
            head + m.nodes[1] + seq![1u8] + m.nodes[0] + compact_size((m.nodes.len() - 2) as nat)
                + m.nodes.skip(2).flatten()
        } else {
            head + m.nodes[0] + seq![0u8] + compact_size((m.nodes.len() - 1) as nat)
                + m.nodes.skip(1).flatten()
        }
    }
}

/// The bytes that a value takes in all: those of the value itself and those
/// that it has allocated, or the greatest number where the sum is beyond it.
pub fn memory_total(own: usize, heap: usize) -> (n: usize)
    ensures
        own + heap <= usize::MAX ==> n == own + heap,
        own + heap > usize::MAX ==> n == usize::MAX,
{
    if heap <= usize::MAX - own {
        own + heap
    } else {
        usize::MAX
    }
}

/// What an append reports: whether it closed a subtree of the tracked height,
/// and if so that subtree's root (all zero bytes otherwise).
#[derive(Clone, Copy, Debug)]
pub struct AppendResult {
    pub has_subtree_boundary: bool,
    pub completed_subtree_root: [u8; 32],
}

/// Why an append was refused.
#[derive(Clone, Copy, Debug, PartialEq, Eq, Structural)]
pub enum FrontierError {
    /// The bytes are not the canonical encoding of a commitment.
    InvalidCommitment,
    /// The tree already holds 2^32 leaves, or the leaves offered do not fit.
    TreeFull,
}

/// The report of an append that closed no subtree.
pub open spec fn no_boundary(r: AppendResult) -> bool {
    !r.has_subtree_boundary && r.completed_subtree_root@ == Seq::new(32, |i: int| 0u8)
}

/// The report of an append that closed a subtree with the given root.
pub open spec fn boundary_with(r: AppendResult, root: Seq<u8>) -> bool {
    r.has_subtree_boundary && r.completed_subtree_root@ == root
}

/// The number of leaves until the next boundary lies between 1 and 2^16, and
/// the size reached there completes a subtree; no size before it does.
pub proof fn lemma_leaves_to_boundary(size: nat)
    ensures
        1 <= leaves_to_boundary(size) <= TRACKED_SUBTREE_LEAVES,
        completes_subtree(size + leaves_to_boundary(size)),
        forall|t: nat| size < t < size + leaves_to_boundary(size) ==> !#[trigger] completes_subtree(t),
{
    let m = TRACKED_SUBTREE_LEAVES as int;
    let r = (size as int) % m;
    let q = (size as int) / m;
    assert(size as int == q * m + r && 0 <= r < m) by (nonlinear_arith)
        requires
            m == 0x1_0000,
            r == (size as int) % m,
            q == (size as int) / m,
            size >= 0,
    ;
    assert forall|u: nat| size < u <= size + leaves_to_boundary(size) implies (#[trigger] completes_subtree(u)
        <==> u == size + leaves_to_boundary(size)) by {
        let t = u as int;
        let j = u as int - size as int;
        assert(t == q * m + (r + j));
        assert(0 < r + j <= m);
        if r + j == m {
            assert(t % m == 0) by (nonlinear_arith)
                requires
                    t == q * m + m,
                    m == 0x1_0000,
            ;
        } else {
            assert(t % m == r + j) by (nonlinear_arith)
                requires
                    t == q * m + (r + j),
                    0 < r + j < m,
                    m == 0x1_0000,
            ;
        }
    }
}

} // verus!
