//! The Orchard note commitment frontier.

use vstd::prelude::*;
use incrementalmerkletree::frontier::Frontier;
use orchard::tree::MerkleHashOrchard;
use crate::frontier::{
    boundary_with, byte_seqs, completes_subtree, frontier_encoding, is_subtree_boundary,
    leaves_to_boundary, lemma_leaves_to_boundary, memory_total, no_boundary, AppendResult,
    FrontierError, FrontierModel, MAX_LEAVES, TRACKED_SUBTREE_HEIGHT, TRACKED_SUBTREE_LEAVES,
};
use crate::legacy::{
    frontier_shaped, legacy_encoding, legacy_parts, legacy_tree_of,
    lemma_legacy_tree_holds_frontier, ones, LegacyParts, LegacyPartsModel, LegacyTreeModel,
    TipModel,
};
use crate::orchard_node::{
    orchard_all_valid, orchard_append, orchard_clone, orchard_commitment_valid, orchard_empty,
    orchard_from_parts, orchard_frontier_nodes, orchard_frontier_size, orchard_leaf, orchard_legacy_parsed,
    orchard_heap, orchard_nodes_after_append, orchard_parsed, orchard_read,
    orchard_read_legacy, orchard_root, orchard_root_of, orchard_size, orchard_subtree_root,
    orchard_subtree_root_of, orchard_write, orchard_write_legacy,
};

verus! {

/// The frontier that one more leaf gives.
pub open spec fn orchard_appended(m: FrontierModel, leaf: Seq<u8>) -> FrontierModel {
    FrontierModel { size: m.size + 1, nodes: orchard_nodes_after_append(m.size, m.nodes, leaf) }
}

/// The frontier that a run of leaves gives, appended in order.
pub open spec fn orchard_appended_all(m: FrontierModel, leaves: Seq<Seq<u8>>) -> FrontierModel
    decreases leaves.len(),
{
    if leaves.len() == 0 {
        m
    } else {
        orchard_appended(orchard_appended_all(m, leaves.drop_last()), leaves.last())
    }
}

/// The root of the tracked subtree that holds the latest leaf.
pub open spec fn orchard_tracked_root(m: FrontierModel) -> Seq<u8> {
    orchard_subtree_root_of(m.size, m.nodes, TRACKED_SUBTREE_HEIGHT)
}

/// What an append that brought the frontier to `m` reports.
pub open spec fn orchard_reports(r: AppendResult, m: FrontierModel) -> bool {
    if completes_subtree(m.size) {
        boundary_with(r, orchard_tracked_root(m))
    } else {
        no_boundary(r)
    }
}

/// What the append of a run of leaves to the frontier `m` reports: the root of
/// the subtree that the run closes, if it reaches the next boundary.
pub open spec fn orchard_bundle_reports(r: AppendResult, m: FrontierModel, leaves: Seq<Seq<u8>>) -> bool {
    let j = leaves_to_boundary(m.size) as int;
    if j <= leaves.len() {
        boundary_with(r, orchard_tracked_root(orchard_appended_all(m, leaves.take(j))))
    } else {
        no_boundary(r)
    }
}

/// A run of leaves grows the frontier by its length.
pub proof fn lemma_orchard_appended_all_size(m: FrontierModel, leaves: Seq<Seq<u8>>)
    ensures
        orchard_appended_all(m, leaves).size == m.size + leaves.len(),
    decreases leaves.len(),
{
    if leaves.len() > 0 {
        lemma_orchard_appended_all_size(m, leaves.drop_last());
    }
}

/// Appending the first `i + 1` leaves is appending the first `i` and then the next one.
pub proof fn lemma_orchard_appended_all_step(m: FrontierModel, leaves: Seq<Seq<u8>>, i: int)
    requires
        0 <= i < leaves.len(),
    ensures
        orchard_appended_all(m, leaves.take(i + 1)) == orchard_appended(
            orchard_appended_all(m, leaves.take(i)),
            leaves[i],
        ),
{
    assert(leaves.take(i + 1).drop_last() =~= leaves.take(i));
}

/// The frontier that a byte string is read as, if it is read as one.
pub open spec fn orchard_parse_of(bytes: Seq<u8>) -> Option<FrontierModel> {
    match orchard_parsed(bytes) {
        Some((size, nodes)) => Some(FrontierModel { size, nodes }),
        None => None,
    }
}

/// The frontier with the given latest leaf and ommers, if there is one: the
/// position lies in the tree, the ommers are as many as the position has one
/// bits, and every node encodes an Orchard commitment.
pub open spec fn orchard_built(tip: TipModel) -> Option<FrontierModel> {
    if tip.position < MAX_LEAVES && tip.ommers.len() == ones(tip.position)
        && orchard_commitment_valid(tip.leaf) && orchard_all_valid(tip.ommers) {
        Some(FrontierModel { size: tip.position + 1, nodes: seq![tip.leaf] + tip.ommers })
    } else {
        None
    }
}

/// The frontier that a byte string is read as in the legacy encoding, if it
/// is read as one.
pub open spec fn orchard_legacy_parse_of(bytes: Seq<u8>) -> Option<FrontierModel> {
    match orchard_legacy_parsed(bytes) {
        None => None,
        Some((left, right, parents)) => match legacy_parts(
            LegacyTreeModel { left, right, parents },
        ) {
            LegacyPartsModel::Malformed => None,
            LegacyPartsModel::Empty => Some(FrontierModel { size: 0, nodes: Seq::empty() }),
            LegacyPartsModel::Tip(tip) => orchard_built(tip),
        },
    }
}

/// The number of bytes that an Orchard frontier takes by itself, without what
/// it has allocated.
pub open spec fn orchard_own_size() -> nat {
    vstd::layout::size_of::<Frontier<MerkleHashOrchard, 32>>()
}

/// An append-only Orchard Merkle frontier of depth 32.
pub struct OrchardFrontier {
    inner: Frontier<MerkleHashOrchard, 32>,
}

impl OrchardFrontier {
    /// The number of leaves and the nodes held.
    pub closed spec fn view(&self) -> FrontierModel {
        FrontierModel {
            size: orchard_frontier_size(self.inner),
            nodes: orchard_frontier_nodes(self.inner),
        }
    }

    /// The frontier of the tree without leaves.
    pub fn empty() -> (f: Self)
        ensures
            f@.size == 0,
            f@.nodes == Seq::<Seq<u8>>::empty(),
    {
        OrchardFrontier { inner: orchard_empty() }
    }

    /// The number of leaves appended so far. The frontier holds its latest
    /// leaf and one ommer for each one bit of the position of that leaf.
    pub fn size(&self) -> (n: u64)
        ensures
            n == self@.size,
            n <= MAX_LEAVES,
            frontier_shaped(self@),
    {
        orchard_size(&self.inner)
    }

    /// The root of the tree at full depth, empty positions filled with the
    /// empty-subtree hashes.
    pub fn root(&self) -> (r: [u8; 32])
        ensures
            r@ == orchard_root_of(self@.size, self@.nodes),
    {
        orchard_root(&self.inner)
    }

    /// Whether 32 bytes encode an Orchard note commitment.
    pub fn is_commitment(bytes: &[u8; 32]) -> (b: bool)
        ensures
            b == orchard_commitment_valid(bytes@),
    {
        orchard_leaf(bytes).is_some()
    }

    /// Appends one commitment and reports whether it closed a tracked subtree.
    pub fn append(&mut self, cmx: [u8; 32]) -> (r: Result<AppendResult, FrontierError>)
        ensures
            match r {
                Ok(res) => {
                    &&& orchard_commitment_valid(cmx@)
                    &&& old(self)@.size < MAX_LEAVES
                    &&& final(self)@ == orchard_appended(old(self)@, cmx@)
                    &&& orchard_reports(res, final(self)@)
                },
                Err(FrontierError::InvalidCommitment) => {
                    &&& !orchard_commitment_valid(cmx@)
                    &&& *final(self) == *old(self)
                },
                Err(FrontierError::TreeFull) => {
                    &&& orchard_commitment_valid(cmx@)
                    &&& old(self)@.size == MAX_LEAVES
                    &&& *final(self) == *old(self)
                },
            },
    {
        let leaf = match orchard_leaf(&cmx) {
            Some(leaf) => leaf,
            None => {
                return Err(FrontierError::InvalidCommitment);
            },
        };
        let before: u64 = orchard_size(&self.inner);
        if !orchard_append(&mut self.inner, leaf) {
            return Err(FrontierError::TreeFull);
        }
        Ok(self.report())
    }

    /// Appends a run of commitments in order, all or none.
    pub fn append_all(&mut self, commitments: &Vec<[u8; 32]>) -> (r: Result<(), FrontierError>)
        ensures
            match r {
                Ok(()) => {
                    &&& orchard_all_valid(byte_seqs(commitments@))
                    &&& old(self)@.size + commitments.len() <= MAX_LEAVES
                    &&& final(self)@ == orchard_appended_all(old(self)@, byte_seqs(commitments@))
                },
                Err(FrontierError::InvalidCommitment) => {
                    &&& !orchard_all_valid(byte_seqs(commitments@))
                    &&& *final(self) == *old(self)
                },
                Err(FrontierError::TreeFull) => {
                    &&& orchard_all_valid(byte_seqs(commitments@))
                    &&& old(self)@.size + commitments.len() > MAX_LEAVES
                    &&& *final(self) == *old(self)
                },
            },
    {
        let ghost leaves = byte_seqs(commitments@);
        let ghost start = self@;
        let count: usize = commitments.len();
        let mut i: usize = 0;
        while i < count
            invariant
                count == commitments.len(),
                leaves == byte_seqs(commitments@),
                i <= count,
                *self == *old(self),
                forall|k: int| 0 <= k < i ==> orchard_commitment_valid(#[trigger] leaves[k]),
            decreases count - i,
        {
            if !Self::is_commitment(&commitments[i]) {
                assert(!orchard_commitment_valid(leaves[i as int]));
                return Err(FrontierError::InvalidCommitment);
            }
            i += 1;
        }
        let before: u64 = orchard_size(&self.inner);
        if count as u64 > MAX_LEAVES - before {
            return Err(FrontierError::TreeFull);
        }
        proof {
            assert(leaves.take(0) =~= Seq::<Seq<u8>>::empty());
        }
        let mut i: usize = 0;
        while i < count
            invariant
                count == commitments.len(),
                leaves == byte_seqs(commitments@),
                start == old(self)@,
                i <= count,
                start.size + count <= MAX_LEAVES,
                orchard_all_valid(leaves),
                self@ == orchard_appended_all(start, leaves.take(i as int)),
                self@.size == start.size + i,
            decreases count - i,
        {
            proof {
                lemma_orchard_appended_all_step(start, leaves, i as int);
                assert(orchard_commitment_valid(leaves[i as int]));
            }
            let appended = self.append(commitments[i]);
            assert(appended.is_ok());
            i += 1;
        }
        proof {
            assert(leaves.take(count as int) =~= leaves);
        }
        Ok(())
    }

    /// Appends the commitments of one bundle in order, all or none, and reports
    /// the subtree that the bundle closed, if any.
    pub fn append_bundle(&mut self, commitments: &Vec<[u8; 32]>) -> (r: Result<
        AppendResult,
        FrontierError,
    >)
        requires
            commitments.len() < TRACKED_SUBTREE_LEAVES,
        ensures
            match r {
                Ok(res) => {
                    &&& orchard_all_valid(byte_seqs(commitments@))
                    &&& old(self)@.size + commitments.len() <= MAX_LEAVES
                    &&& final(self)@ == orchard_appended_all(old(self)@, byte_seqs(commitments@))
                    &&& orchard_bundle_reports(res, old(self)@, byte_seqs(commitments@))
                },
                Err(FrontierError::InvalidCommitment) => {
                    &&& !orchard_all_valid(byte_seqs(commitments@))
                    &&& *final(self) == *old(self)
                },
                Err(FrontierError::TreeFull) => {
                    &&& orchard_all_valid(byte_seqs(commitments@))
                    &&& old(self)@.size + commitments.len() > MAX_LEAVES
                    &&& *final(self) == *old(self)
                },
            },
    {
        let ghost leaves = byte_seqs(commitments@);
        let ghost start = self@;
        let count: usize = commitments.len();
        let mut nodes: Vec<MerkleHashOrchard> = Vec::new();
        let mut i: usize = 0;
        while i < count
            invariant
                count == commitments.len(),
                leaves == byte_seqs(commitments@),
                i <= count,
                nodes.len() == i,
                *self == *old(self),
                forall|k: int|
                    0 <= k < i ==> orchard_commitment_valid(#[trigger] leaves[k])
                        && crate::orchard_node::orchard_node_bytes(nodes[k]) == leaves[k],
            decreases count - i,
        {
            match orchard_leaf(&commitments[i]) {
                Some(leaf) => {
                    nodes.push(leaf);
                },
                None => {
                    assert(!orchard_commitment_valid(leaves[i as int]));
                    return Err(FrontierError::InvalidCommitment);
                },
            }
            i += 1;
        }
        let before: u64 = orchard_size(&self.inner);
        if count as u64 > MAX_LEAVES - before {
            return Err(FrontierError::TreeFull);
        }
        let zero: [u8; 32] = [0u8; 32];
        assert(zero@ =~= Seq::new(32, |i: int| 0u8));
        let mut res = AppendResult { has_subtree_boundary: false, completed_subtree_root: zero };
        let ghost to_boundary = leaves_to_boundary(start.size) as int;
        proof {
            lemma_leaves_to_boundary(start.size);
            lemma_leaves_to_boundary((start.size + to_boundary) as nat);
            assert(leaves.take(0) =~= Seq::<Seq<u8>>::empty());
        }
        let mut i: usize = 0;
        while i < count
            invariant
                count == commitments.len(),
                count < TRACKED_SUBTREE_LEAVES,
                leaves == byte_seqs(commitments@),
                start == old(self)@,
                i <= count,
                nodes.len() == count,
                start.size + count <= MAX_LEAVES,
                to_boundary == leaves_to_boundary(start.size),
                1 <= to_boundary <= TRACKED_SUBTREE_LEAVES,
                completes_subtree((start.size + to_boundary) as nat),
                forall|t: nat| start.size < t < start.size + to_boundary ==> !#[trigger] completes_subtree(t),
                forall|t: nat|
                    start.size + to_boundary < t < start.size + to_boundary + TRACKED_SUBTREE_LEAVES
                        ==> !#[trigger] completes_subtree(t),
                forall|k: int|
                    0 <= k < count ==> crate::orchard_node::orchard_node_bytes(#[trigger] nodes[k])
                        == leaves[k],
                self@ == orchard_appended_all(start, leaves.take(i as int)),
                self@.size == start.size + i,
                orchard_bundle_reports(res, start, leaves.take(i as int)),
            decreases count - i,
        {
            proof {
                lemma_orchard_appended_all_step(start, leaves, i as int);
            }
            let appended = orchard_append(&mut self.inner, nodes[i]);
            assert(appended);
            let size: u64 = orchard_size(&self.inner);
            if is_subtree_boundary(size) {
                res = AppendResult {
                    has_subtree_boundary: true,
                    completed_subtree_root: orchard_subtree_root(&self.inner, TRACKED_SUBTREE_HEIGHT),
                };
                assert(i + 1 == to_boundary);
                assert(leaves.take(i + 1).take(to_boundary) =~= leaves.take(i + 1));
            } else {
                proof {
                    if to_boundary <= i {
                        assert(leaves.take(i + 1).take(to_boundary) =~= leaves.take(i as int).take(
                            to_boundary,
                        ));
                    }
                }
            }
            i += 1;
        }
        proof {
            assert(leaves.take(count as int) =~= leaves);
        }
        Ok(res)
    }

    /// The report for the latest leaf of a non-empty frontier.
    fn report(&self) -> (res: AppendResult)
        requires
            self@.size > 0,
        ensures
            orchard_reports(res, self@),
    {
        let size: u64 = orchard_size(&self.inner);
        if is_subtree_boundary(size) {
            AppendResult {
                has_subtree_boundary: true,
                completed_subtree_root: orchard_subtree_root(&self.inner, TRACKED_SUBTREE_HEIGHT),
            }
        } else {
            let zero: [u8; 32] = [0u8; 32];
            assert(zero@ =~= Seq::new(32, |i: int| 0u8));
            AppendResult { has_subtree_boundary: false, completed_subtree_root: zero }
        }
    }

    /// A copy of the frontier, as it stands now.
    pub fn snapshot(&self) -> (c: Self)
        ensures
            c == *self,
    {
        OrchardFrontier { inner: orchard_clone(&self.inner) }
    }

    /// A copy of the frontier on the heap, as it stands now.
    pub fn box_clone(&self) -> (c: Box<Self>)
        ensures
            *c == *self,
    {
        Box::new(self.snapshot())
    }

    /// The frontier in the current encoding. Reading the bytes gives the
    /// frontier back, with its leaves count and its root.
    pub fn serialize(&self) -> (out: Vec<u8>)
        ensures
            out@ == frontier_encoding(self@),
            orchard_parse_of(out@) == Some(self@),
    {
        orchard_write(&self.inner)
    }

    /// The frontier in the legacy encoding, as a commitment tree of fixed
    /// depth. Reading the bytes gives the frontier back.
    pub fn serialize_legacy(&self) -> (out: Vec<u8>)
        ensures
            out@ == legacy_encoding(self@),
            orchard_legacy_parse_of(out@) == Some(self@),
    {
        let size: u64 = orchard_size(&self.inner);
        let out = orchard_write_legacy(&self.inner);
        proof {
            lemma_legacy_tree_holds_frontier(self@);
            let t = legacy_tree_of(self@);
            assert(t == (LegacyTreeModel { left: t.left, right: t.right, parents: t.parents }));
            if size > 0 {
                assert(seq![self@.nodes[0]] + self@.nodes.skip(1) =~= self@.nodes);
                assert(orchard_all_valid(self@.nodes.skip(1))) by {
                    assert forall|i: int| 0 <= i < self@.nodes.skip(1).len() implies orchard_commitment_valid(
                        #[trigger] self@.nodes.skip(1)[i],
                    ) by {
                        assert(orchard_commitment_valid(self@.nodes[i + 1]));
                    }
                }
                assert(orchard_commitment_valid(self@.nodes[0]));
            } else {
                assert(self@.nodes =~= Seq::empty());
            }
        }
        out
    }

    /// Reads a frontier in the current encoding from the start of `bytes`.
    pub fn parse(bytes: &[u8]) -> (r: Result<Box<Self>, String>)
        ensures
            match r {
                Ok(f) => orchard_parse_of(bytes@) == Some(f@),
                Err(_) => orchard_parse_of(bytes@).is_none(),
            },
    {
        match orchard_read(bytes) {
            Ok(inner) => Ok(Box::new(OrchardFrontier { inner })),
            Err(e) => Err(e),
        }
    }

    /// Reads a frontier in the legacy encoding from the start of `bytes`.
    pub fn parse_legacy(bytes: &[u8]) -> (r: Result<Box<Self>, String>)
        ensures
            match r {
                Ok(f) => orchard_legacy_parse_of(bytes@) == Some(f@),
                Err(_) => orchard_legacy_parse_of(bytes@).is_none(),
            },
    {
        let tree = match orchard_read_legacy(bytes) {
            Ok(tree) => tree,
            Err(e) => {
                return Err(e);
            },
        };
        proof {
            assert(tree@ == (LegacyTreeModel {
                left: tree@.left,
                right: tree@.right,
                parents: tree@.parents,
            }));
        }
        match tree.frontier_parts() {
            LegacyParts::Malformed => Err("The legacy tree holds no Merkle frontier".to_owned()),
            LegacyParts::Empty => {
                let f = OrchardFrontier::empty();
                assert(f@ == (FrontierModel { size: 0, nodes: Seq::empty() }));
                Ok(Box::new(f))
            },
            LegacyParts::Tip { position, leaf, ommers } => {
                match orchard_from_parts(position, &leaf, &ommers) {
                    Some(inner) => Ok(Box::new(OrchardFrontier { inner })),
                    None => Err("The legacy tree holds no Merkle frontier".to_owned()),
                }
            },
        }
    }

    /// The number of bytes of memory that the frontier takes: its own size
    /// and what it has allocated, which is nothing for the empty frontier and
    /// more than 32 bytes for each node held otherwise. The greatest number
    /// stands for every sum beyond it.
    pub fn dynamic_memory_usage(&self) -> (n: usize)
        ensures
            n >= 32 * self@.nodes.len(),
            self@.size == 0 ==> n == orchard_own_size(),
            self@.size > 0 ==> n > orchard_own_size() || n == usize::MAX,
    {
        let own: usize = core::mem::size_of::<Frontier<MerkleHashOrchard, 32>>();
        let heap: usize = orchard_heap(&self.inner);
        memory_total(own, heap)
    }
}

/// A new empty Orchard frontier.
pub fn new_orchard() -> (f: Box<OrchardFrontier>)
    ensures
        f@.size == 0,
        f@.nodes == Seq::<Seq<u8>>::empty(),
{
    Box::new(OrchardFrontier::empty())
}

/// Reads an Orchard frontier in the current encoding from the start of `bytes`.
pub fn parse_orchard(bytes: &[u8]) -> (r: Result<Box<OrchardFrontier>, String>)
    ensures
        match r {
            Ok(f) => orchard_parse_of(bytes@) == Some(f@),
            Err(_) => orchard_parse_of(bytes@).is_none(),
        },
{
    OrchardFrontier::parse(bytes)
}

/// The root of the Orchard tree without leaves.
pub fn orchard_empty_root() -> (r: [u8; 32])
    ensures
        r@ == orchard_root_of(0, Seq::empty()),
{
    OrchardFrontier::empty().root()
}

} // verus!
