//! The Sapling note commitment frontier.

use vstd::prelude::*;
use incrementalmerkletree::frontier::Frontier;
use sapling_crypto::Node;
use crate::frontier::{
    boundary_with, byte_seqs, completes_subtree, frontier_encoding, is_subtree_boundary,
    leaves_to_boundary, lemma_leaves_to_boundary, memory_total, no_boundary, AppendResult,
    FrontierError, FrontierModel, MAX_LEAVES, TRACKED_SUBTREE_HEIGHT, TRACKED_SUBTREE_LEAVES,
};
use crate::legacy::{
    frontier_shaped, legacy_encoding, legacy_parts, legacy_tree_of,
    lemma_legacy_tree_holds_frontier, ones, LegacyParts, LegacyPartsModel, LegacyTreeModel,
    TipModel,
};
use crate::sapling_node::{
    sapling_all_valid, sapling_append, sapling_clone, sapling_commitment_valid, sapling_empty,
    sapling_from_parts, sapling_frontier_nodes, sapling_frontier_size, sapling_leaf, sapling_legacy_parsed,
    sapling_heap, sapling_nodes_after_append, sapling_parsed, sapling_read,
    sapling_read_legacy, sapling_root, sapling_root_of, sapling_size, sapling_subtree_root,
    sapling_subtree_root_of, sapling_write, sapling_write_legacy,
};

verus! {

/// The frontier that one more leaf gives.
pub open spec fn sapling_appended(m: FrontierModel, leaf: Seq<u8>) -> FrontierModel {
    FrontierModel { size: m.size + 1, nodes: sapling_nodes_after_append(m.size, m.nodes, leaf) }
}

/// The frontier that a run of leaves gives, appended in order.
pub open spec fn sapling_appended_all(m: FrontierModel, leaves: Seq<Seq<u8>>) -> FrontierModel
    decreases leaves.len(),
{
    if leaves.len() == 0 {
        m
    } else {
        sapling_appended(sapling_appended_all(m, leaves.drop_last()), leaves.last())
    }
}

/// The root of the tracked subtree that holds the latest leaf.
pub open spec fn sapling_tracked_root(m: FrontierModel) -> Seq<u8> {
    sapling_subtree_root_of(m.size, m.nodes, TRACKED_SUBTREE_HEIGHT)
}

/// What an append that brought the frontier to `m` reports.
pub open spec fn sapling_reports(r: AppendResult, m: FrontierModel) -> bool {
    if completes_subtree(m.size) {
        boundary_with(r, sapling_tracked_root(m))
    } else {
        no_boundary(r)
    }
}

/// What the append of a run of leaves to the frontier `m` reports: the root of
/// the subtree that the run closes, if it reaches the next boundary.
pub open spec fn sapling_bundle_reports(r: AppendResult, m: FrontierModel, leaves: Seq<Seq<u8>>) -> bool {
    let j = leaves_to_boundary(m.size) as int;
    if j <= leaves.len() {
        boundary_with(r, sapling_tracked_root(sapling_appended_all(m, leaves.take(j))))
    } else {
        no_boundary(r)
    }
}

/// A run of leaves grows the frontier by its length.
pub proof fn lemma_sapling_appended_all_size(m: FrontierModel, leaves: Seq<Seq<u8>>)
    ensures
        sapling_appended_all(m, leaves).size == m.size + leaves.len(),
    decreases leaves.len(),
{
    if leaves.len() > 0 {
        lemma_sapling_appended_all_size(m, leaves.drop_last());
    }
}

/// Appending the first `i + 1` leaves is appending the first `i` and then the next one.
pub proof fn lemma_sapling_appended_all_step(m: FrontierModel, leaves: Seq<Seq<u8>>, i: int)
    requires
        0 <= i < leaves.len(),
    ensures
        sapling_appended_all(m, leaves.take(i + 1)) == sapling_appended(
            sapling_appended_all(m, leaves.take(i)),
            leaves[i],
        ),
{
    assert(leaves.take(i + 1).drop_last() =~= leaves.take(i));
}

/// The frontier that a byte string is read as, if it is read as one.
pub open spec fn sapling_parse_of(bytes: Seq<u8>) -> Option<FrontierModel> {
    match sapling_parsed(bytes) {
        Some((size, nodes)) => Some(FrontierModel { size, nodes }),
        None => None,
    }
}

/// The frontier with the given latest leaf and ommers, if there is one: the
/// position lies in the tree, the ommers are as many as the position has one
/// bits, and every node encodes a Sapling commitment.
pub open spec fn sapling_built(tip: TipModel) -> Option<FrontierModel> {
    if tip.position < MAX_LEAVES && tip.ommers.len() == ones(tip.position)
        && sapling_commitment_valid(tip.leaf) && sapling_all_valid(tip.ommers) {
        Some(FrontierModel { size: tip.position + 1, nodes: seq![tip.leaf] + tip.ommers })
    } else {
        None
    }
}

/// The frontier that a byte string is read as in the legacy encoding, if it
/// is read as one.
pub open spec fn sapling_legacy_parse_of(bytes: Seq<u8>) -> Option<FrontierModel> {
    match sapling_legacy_parsed(bytes) {
        None => None,
        Some((left, right, parents)) => match legacy_parts(
            LegacyTreeModel { left, right, parents },
        ) {
            LegacyPartsModel::Malformed => None,
            LegacyPartsModel::Empty => Some(FrontierModel { size: 0, nodes: Seq::empty() }),
            LegacyPartsModel::Tip(tip) => sapling_built(tip),
        },
    }
}

/// The number of bytes that a Sapling frontier takes by itself, without what
/// it has allocated.
pub open spec fn sapling_own_size() -> nat {
    vstd::layout::size_of::<Frontier<Node, 32>>()
}

/// An append-only Sapling Merkle frontier of depth 32.
pub struct SaplingFrontier {
    inner: Frontier<Node, 32>,
}

impl SaplingFrontier {
    /// The number of leaves and the nodes held.
    pub closed spec fn view(&self) -> FrontierModel {
        FrontierModel {
            size: sapling_frontier_size(self.inner),
            nodes: sapling_frontier_nodes(self.inner),
        }
    }

    /// The frontier of the tree without leaves.
    pub fn empty() -> (f: Self)
        ensures
            f@.size == 0,
            f@.nodes == Seq::<Seq<u8>>::empty(),
    {
        SaplingFrontier { inner: sapling_empty() }
    }

    /// The number of leaves appended so far. The frontier holds its latest
    /// leaf and one ommer for each one bit of the position of that leaf.
    pub fn size(&self) -> (n: u64)
        ensures
            n == self@.size,
            n <= MAX_LEAVES,
            frontier_shaped(self@),
    {
        sapling_size(&self.inner)
    }

    /// The root of the tree at full depth, empty positions filled with the
    /// empty-subtree hashes.
    pub fn root(&self) -> (r: [u8; 32])
        ensures
            r@ == sapling_root_of(self@.size, self@.nodes),
    {
        sapling_root(&self.inner)
    }

    /// Whether 32 bytes encode a Sapling note commitment.
    pub fn is_commitment(bytes: &[u8; 32]) -> (b: bool)
        ensures
            b == sapling_commitment_valid(bytes@),
    {
        sapling_leaf(bytes).is_some()
    }

    /// Appends one commitment and reports whether it closed a tracked subtree.
    pub fn append(&mut self, cmu: [u8; 32]) -> (r: Result<AppendResult, FrontierError>)
        ensures
            match r {
                Ok(res) => {
                    &&& sapling_commitment_valid(cmu@)
                    &&& old(self)@.size < MAX_LEAVES
                    &&& final(self)@ == sapling_appended(old(self)@, cmu@)
                    &&& sapling_reports(res, final(self)@)
                },
                Err(FrontierError::InvalidCommitment) => {
                    &&& !sapling_commitment_valid(cmu@)
                    &&& *final(self) == *old(self)
                },
                Err(FrontierError::TreeFull) => {
                    &&& sapling_commitment_valid(cmu@)
                    &&& old(self)@.size == MAX_LEAVES
                    &&& *final(self) == *old(self)
                },
            },
    {
        let leaf = match sapling_leaf(&cmu) {
            Some(leaf) => leaf,
            None => {
                return Err(FrontierError::InvalidCommitment);
            },
        };
        let before: u64 = sapling_size(&self.inner);
        if !sapling_append(&mut self.inner, leaf) {
            return Err(FrontierError::TreeFull);
        }
        Ok(self.report())
    }

    /// Appends a run of commitments in order, all or none.
    pub fn append_all(&mut self, commitments: &Vec<[u8; 32]>) -> (r: Result<(), FrontierError>)
        ensures
            match r {
                Ok(()) => {
                    &&& sapling_all_valid(byte_seqs(commitments@))
                    &&& old(self)@.size + commitments.len() <= MAX_LEAVES
                    &&& final(self)@ == sapling_appended_all(old(self)@, byte_seqs(commitments@))
                },
                Err(FrontierError::InvalidCommitment) => {
                    &&& !sapling_all_valid(byte_seqs(commitments@))
                    &&& *final(self) == *old(self)
                },
                Err(FrontierError::TreeFull) => {
                    &&& sapling_all_valid(byte_seqs(commitments@))
                    &&& old(self)@.size + commitments.len() > MAX_LEAVES
                    &&& *final(self) == *old(self)
                },
            },
    {
        let ghost leaves = byte_seqs(commitments@);
        let ghost start = self@;
        let count: usize = commitments.len();
        let mut i: usize = 0;
        while i < count
            invariant
                count == commitments.len(),
                leaves == byte_seqs(commitments@),
                i <= count,
                *self == *old(self),
                forall|k: int| 0 <= k < i ==> sapling_commitment_valid(#[trigger] leaves[k]),
            decreases count - i,
        {
            if !Self::is_commitment(&commitments[i]) {
                assert(!sapling_commitment_valid(leaves[i as int]));
                return Err(FrontierError::InvalidCommitment);
            }
            i += 1;
        }
        let before: u64 = sapling_size(&self.inner);
        if count as u64 > MAX_LEAVES - before {
            return Err(FrontierError::TreeFull);
        }
        proof {
            assert(leaves.take(0) =~= Seq::<Seq<u8>>::empty());
        }
        let mut i: usize = 0;
        while i < count
            invariant
                count == commitments.len(),
                leaves == byte_seqs(commitments@),
                start == old(self)@,
                i <= count,
                start.size + count <= MAX_LEAVES,
                sapling_all_valid(leaves),
                self@ == sapling_appended_all(start, leaves.take(i as int)),
                self@.size == start.size + i,
            decreases count - i,
        {
            proof {
                lemma_sapling_appended_all_step(start, leaves, i as int);
                assert(sapling_commitment_valid(leaves[i as int]));
            }
            let appended = self.append(commitments[i]);
            assert(appended.is_ok());
            i += 1;
        }
        proof {
            assert(leaves.take(count as int) =~= leaves);
        }
        Ok(())
    }

    /// Appends the commitments of one bundle in order, all or none, and reports
    /// the subtree that the bundle closed, if any.
    pub fn append_bundle(&mut self, commitments: &Vec<[u8; 32]>) -> (r: Result<
        AppendResult,
        FrontierError,
    >)
        requires
            commitments.len() < TRACKED_SUBTREE_LEAVES,
        ensures
            match r {
                Ok(res) => {
                    &&& sapling_all_valid(byte_seqs(commitments@))
                    &&& old(self)@.size + commitments.len() <= MAX_LEAVES
                    &&& final(self)@ == sapling_appended_all(old(self)@, byte_seqs(commitments@))
                    &&& sapling_bundle_reports(res, old(self)@, byte_seqs(commitments@))
                },
                Err(FrontierError::InvalidCommitment) => {
                    &&& !sapling_all_valid(byte_seqs(commitments@))
                    &&& *final(self) == *old(self)
                },
                Err(FrontierError::TreeFull) => {
                    &&& sapling_all_valid(byte_seqs(commitments@))
                    &&& old(self)@.size + commitments.len() > MAX_LEAVES
                    &&& *final(self) == *old(self)
                },
            },
    {
        let ghost leaves = byte_seqs(commitments@);
        let ghost start = self@;
        let count: usize = commitments.len();
        let mut nodes: Vec<Node> = Vec::new();
        let mut i: usize = 0;
        while i < count
            invariant
                count == commitments.len(),
                leaves == byte_seqs(commitments@),
                i <= count,
                nodes.len() == i,
                *self == *old(self),
                forall|k: int|
                    0 <= k < i ==> sapling_commitment_valid(#[trigger] leaves[k])
                        && crate::sapling_node::sapling_node_bytes(nodes[k]) == leaves[k],
            decreases count - i,
        {
            match sapling_leaf(&commitments[i]) {
                Some(leaf) => {
                    nodes.push(leaf);
                },
                None => {
                    assert(!sapling_commitment_valid(leaves[i as int]));
                    return Err(FrontierError::InvalidCommitment);
                },
            }
            i += 1;
        }
        let before: u64 = sapling_size(&self.inner);
        if count as u64 > MAX_LEAVES - before {
            return Err(FrontierError::TreeFull);
        }
        let zero: [u8; 32] = [0u8; 32];
        assert(zero@ =~= Seq::new(32, |i: int| 0u8));
        let mut res = AppendResult { has_subtree_boundary: false, completed_subtree_root: zero };
        let ghost to_boundary = leaves_to_boundary(start.size) as int;
        proof {
            lemma_leaves_to_boundary(start.size);
            lemma_leaves_to_boundary((start.size + to_boundary) as nat);
            assert(leaves.take(0) =~= Seq::<Seq<u8>>::empty());
        }
        let mut i: usize = 0;
        while i < count
            invariant
                count == commitments.len(),
                count < TRACKED_SUBTREE_LEAVES,
                leaves == byte_seqs(commitments@),
                start == old(self)@,
                i <= count,
                nodes.len() == count,
                start.size + count <= MAX_LEAVES,
                to_boundary == leaves_to_boundary(start.size),
                1 <= to_boundary <= TRACKED_SUBTREE_LEAVES,
                completes_subtree((start.size + to_boundary) as nat),
                forall|t: nat| start.size < t < start.size + to_boundary ==> !#[trigger] completes_subtree(t),
                forall|t: nat|
                    start.size + to_boundary < t < start.size + to_boundary + TRACKED_SUBTREE_LEAVES
                        ==> !#[trigger] completes_subtree(t),
                forall|k: int|
                    0 <= k < count ==> crate::sapling_node::sapling_node_bytes(#[trigger] nodes[k])
                        == leaves[k],
                self@ == sapling_appended_all(start, leaves.take(i as int)),
                self@.size == start.size + i,
                sapling_bundle_reports(res, start, leaves.take(i as int)),
            decreases count - i,
        {
            proof {
                lemma_sapling_appended_all_step(start, leaves, i as int);
            }
            let appended = sapling_append(&mut self.inner, nodes[i]);
            assert(appended);
            let size: u64 = sapling_size(&self.inner);
            if is_subtree_boundary(size) {
                res = AppendResult {
                    has_subtree_boundary: true,
                    completed_subtree_root: sapling_subtree_root(&self.inner, TRACKED_SUBTREE_HEIGHT),
                };
                assert(i + 1 == to_boundary);
                assert(leaves.take(i + 1).take(to_boundary) =~= leaves.take(i + 1));
            } else {
                proof {
                    if to_boundary <= i {
                        assert(leaves.take(i + 1).take(to_boundary) =~= leaves.take(i as int).take(
                            to_boundary,
                        ));
                    }
                }
            }
            i += 1;
        }
        proof {
            assert(leaves.take(count as int) =~= leaves);
        }
        Ok(res)
    }

    /// The report for the latest leaf of a non-empty frontier.
    fn report(&self) -> (res: AppendResult)
        requires
            self@.size > 0,
        ensures
            sapling_reports(res, self@),
    {
        let size: u64 = sapling_size(&self.inner);
        if is_subtree_boundary(size) {
            AppendResult {
                has_subtree_boundary: true,
                completed_subtree_root: sapling_subtree_root(&self.inner, TRACKED_SUBTREE_HEIGHT),
            }
        } else {
            let zero: [u8; 32] = [0u8; 32];
            assert(zero@ =~= Seq::new(32, |i: int| 0u8));
            AppendResult { has_subtree_boundary: false, completed_subtree_root: zero }
        }
    }

    /// A copy of the frontier, as it stands now.
    pub fn snapshot(&self) -> (c: Self)
        ensures
            c == *self,
    {
        SaplingFrontier { inner: sapling_clone(&self.inner) }
    }

    /// A copy of the frontier on the heap, as it stands now.
    pub fn box_clone(&self) -> (c: Box<Self>)
        ensures
            *c == *self,
    {
        Box::new(self.snapshot())
    }

    /// The frontier in the current encoding. Reading the bytes gives the
    /// frontier back, with its leaves count and its root.
    pub fn serialize(&self) -> (out: Vec<u8>)
        ensures
            out@ == frontier_encoding(self@),
            sapling_parse_of(out@) == Some(self@),
    {
        sapling_write(&self.inner)
    }

    /// The frontier in the legacy encoding, as a commitment tree of fixed
    /// depth. Reading the bytes gives the frontier back.
    pub fn serialize_legacy(&self) -> (out: Vec<u8>)
        ensures
            out@ == legacy_encoding(self@),
            sapling_legacy_parse_of(out@) == Some(self@),
    {
        let size: u64 = sapling_size(&self.inner);
        let out = sapling_write_legacy(&self.inner);
        proof {
            lemma_legacy_tree_holds_frontier(self@);
            let t = legacy_tree_of(self@);
            assert(t == (LegacyTreeModel { left: t.left, right: t.right, parents: t.parents }));
            if size > 0 {
                assert(seq![self@.nodes[0]] + self@.nodes.skip(1) =~= self@.nodes);
                assert(sapling_all_valid(self@.nodes.skip(1))) by {
                    assert forall|i: int| 0 <= i < self@.nodes.skip(1).len() implies sapling_commitment_valid(
                        #[trigger] self@.nodes.skip(1)[i],
                    ) by {
                        assert(sapling_commitment_valid(self@.nodes[i + 1]));
                    }
                }
                assert(sapling_commitment_valid(self@.nodes[0]));
            } else {
                assert(self@.nodes =~= Seq::empty());
            }
        }
        out
    }

    /// Reads a frontier in the current encoding from the start of `bytes`.
    pub fn parse(bytes: &[u8]) -> (r: Result<Box<Self>, String>)
        ensures
            match r {
                Ok(f) => sapling_parse_of(bytes@) == Some(f@),
                Err(_) => sapling_parse_of(bytes@).is_none(),
            },
    {
        match sapling_read(bytes) {
            Ok(inner) => Ok(Box::new(SaplingFrontier { inner })),
            Err(e) => Err(e),
        }
    }

    /// Reads a frontier in the legacy encoding from the start of `bytes`.
    pub fn parse_legacy(bytes: &[u8]) -> (r: Result<Box<Self>, String>)
        ensures
            match r {
                Ok(f) => sapling_legacy_parse_of(bytes@) == Some(f@),
                Err(_) => sapling_legacy_parse_of(bytes@).is_none(),
            },
    {
        let tree = match sapling_read_legacy(bytes) {
            Ok(tree) => tree,
            Err(e) => {
                return Err(e);
            },
        };
        proof {
            assert(tree@ == (LegacyTreeModel {
                left: tree@.left,
                right: tree@.right,
                parents: tree@.parents,
            }));
        }
        match tree.frontier_parts() {
            LegacyParts::Malformed => Err("The legacy tree holds no Merkle frontier".to_owned()),
            LegacyParts::Empty => {
                let f = SaplingFrontier::empty();
                assert(f@ == (FrontierModel { size: 0, nodes: Seq::empty() }));
                Ok(Box::new(f))
            },
            LegacyParts::Tip { position, leaf, ommers } => {
                match sapling_from_parts(position, &leaf, &ommers) {
                    Some(inner) => Ok(Box::new(SaplingFrontier { inner })),
                    None => Err("The legacy tree holds no Merkle frontier".to_owned()),
                }
            },
        }
    }

    /// The number of bytes of memory that the frontier takes: its own size
    /// and what it has allocated, which is nothing for the empty frontier and
    /// more than 32 bytes for each node held otherwise. The greatest number
    /// stands for every sum beyond it.
    pub fn dynamic_memory_usage(&self) -> (n: usize)
        ensures
            n >= 32 * self@.nodes.len(),
            self@.size == 0 ==> n == sapling_own_size(),
            self@.size > 0 ==> n > sapling_own_size() || n == usize::MAX,
    {
        let own: usize = core::mem::size_of::<Frontier<Node, 32>>();
        let heap: usize = sapling_heap(&self.inner);
        memory_total(own, heap)
    }
}

/// A new empty Sapling frontier.
pub fn new_sapling() -> (f: Box<SaplingFrontier>)
    ensures
        f@.size == 0,
        f@.nodes == Seq::<Seq<u8>>::empty(),
{
    Box::new(SaplingFrontier::empty())
}

/// Reads a Sapling frontier in the current encoding from the start of `bytes`.
pub fn parse_sapling(bytes: &[u8]) -> (r: Result<Box<SaplingFrontier>, String>)
    ensures
        match r {
            Ok(f) => sapling_parse_of(bytes@) == Some(f@),
            Err(_) => sapling_parse_of(bytes@).is_none(),
        },
{
    SaplingFrontier::parse(bytes)
}

/// The root of the Sapling tree without leaves.
pub fn sapling_empty_root() -> (r: [u8; 32])
    ensures
        r@ == sapling_root_of(0, Seq::empty()),
{
    SaplingFrontier::empty().root()
}

} // verus!
