//! The legacy encoding read: a commitment tree of fixed depth, and the
//! frontier that it holds.

use vstd::prelude::*;
use vstd::arithmetic::div_mod::{lemma_basic_div, lemma_div_denominator, lemma_mod_breakdown, lemma_small_mod};
use vstd::arithmetic::power2::{
    lemma2_to64, lemma_pow2_pos, lemma_pow2_strictly_increases, lemma_pow2_unfold, pow2,
};
use crate::frontier::{byte_seqs, compact_size, FrontierModel, MAX_LEAVES, TREE_DEPTH};

verus! {

/// The number of one bits of `n`.
pub open spec fn ones(n: nat) -> nat
    decreases n,
{
    if n == 0 {
        0
    } else {
        n % 2 + ones(n / 2)
    }
}

/// A commitment tree of fixed depth as the legacy encoding holds it: the
/// left and the right leaf of the latest pair, and for each level above the
/// leaves the root of the full subtree to the left, where there is one.
pub struct LegacyTree {
    pub left: Option<[u8; 32]>,
    pub right: Option<[u8; 32]>,
    pub parents: Vec<Option<[u8; 32]>>,
}

/// A legacy tree as plain values.
pub struct LegacyTreeModel {
    pub left: Option<Seq<u8>>,
    pub right: Option<Seq<u8>>,
    pub parents: Seq<Option<Seq<u8>>>,
}

/// A node that may be absent, as plain values.
pub open spec fn node_bytes(node: Option<[u8; 32]>) -> Option<Seq<u8>> {
    match node {
        Some(n) => Some(n@),
        None => None,
    }
}

/// The position of the latest leaf, that leaf and its ommers, for a tree that
/// is not empty.
pub struct TipModel {
    pub position: nat,
    pub leaf: Seq<u8>,
    pub ommers: Seq<Seq<u8>>,
}

/// What a legacy tree holds: no frontier, the empty frontier, or a latest leaf.
pub enum LegacyPartsModel {
    Malformed,
    Empty,
    Tip(TipModel),
}

/// What a legacy tree holds, as it is handed on.
pub enum LegacyParts {
    Malformed,
    Empty,
    Tip { position: u64, leaf: [u8; 32], ommers: Vec<[u8; 32]> },
}

impl LegacyParts {
    /// The parts as plain values.
    pub open spec fn view(&self) -> LegacyPartsModel {
        match self {
            LegacyParts::Malformed => LegacyPartsModel::Malformed,
            LegacyParts::Empty => LegacyPartsModel::Empty,
            LegacyParts::Tip { position, leaf, ommers } => LegacyPartsModel::Tip(
                TipModel { position: *position as nat, leaf: leaf@, ommers: byte_seqs(ommers@) },
            ),
        }
    }
}

/// The parents that are there, from the lowest level up.
pub open spec fn present(parents: Seq<Option<Seq<u8>>>) -> Seq<Seq<u8>>
    decreases parents.len(),
{
    if parents.len() == 0 {
        Seq::empty()
    } else {
        match parents.last() {
            Some(node) => present(parents.drop_last()).push(node),
            None => present(parents.drop_last()),
        }
    }
}

/// The number of leaves under the parents that are there: the parent at
/// index `i` stands for a full subtree of 2^(i+1) leaves.
pub open spec fn leaves_under(parents: Seq<Option<Seq<u8>>>) -> nat
    decreases parents.len(),
{
    if parents.len() == 0 {
        0
    } else if parents.last().is_some() {
        leaves_under(parents.drop_last()) + pow2(parents.len())
    } else {
        leaves_under(parents.drop_last())
    }
}

/// What a legacy tree holds. A tree with a right leaf but no left one, or
/// with parents but no leaf, or with as many parents as the tree is deep,
/// holds no frontier. The latest leaf is the right one if there is one, with
/// the left one as its first ommer; the other ommers are the parents.
pub open spec fn legacy_parts(t: LegacyTreeModel) -> LegacyPartsModel {
    if t.parents.len() >= TREE_DEPTH {
        LegacyPartsModel::Malformed
    } else {
        match (t.left, t.right) {
            (None, None) => if leaves_under(t.parents) == 0 {
                LegacyPartsModel::Empty
            } else {
                LegacyPartsModel::Malformed
            },
            (None, Some(_)) => LegacyPartsModel::Malformed,
            (Some(left), None) => LegacyPartsModel::Tip(
                TipModel {
                    position: leaves_under(t.parents),
                    leaf: left,
                    ommers: present(t.parents),
                },
            ),
            (Some(left), Some(right)) => LegacyPartsModel::Tip(
                TipModel {
                    position: leaves_under(t.parents) + 1,
                    leaf: right,
                    ommers: seq![left] + present(t.parents),
                },
            ),
        }
    }
}

impl LegacyTree {
    /// The tree as plain values.
    pub open spec fn view(&self) -> LegacyTreeModel {
        LegacyTreeModel {
            left: node_bytes(self.left),
            right: node_bytes(self.right),
            parents: Seq::new(self.parents@.len(), |i: int| node_bytes(self.parents@[i])),
        }
    }

    /// The position of the latest leaf, that leaf and its ommers, if the tree
    /// holds a frontier.
    pub fn frontier_parts(&self) -> (r: LegacyParts)
        ensures
            r@ == legacy_parts(self@),
    {
        let n: usize = self.parents.len();
        if n >= 32 {
            return LegacyParts::Malformed;
        }
        let ghost parents = self@.parents;
        let mut ommers: Vec<[u8; 32]> = Vec::new();
        let mut leaves: u64 = 0;
        let mut power: u64 = 2;
        let mut i: usize = 0;
        proof {
            lemma2_to64();
            assert(parents.take(0) =~= Seq::empty());
            assert(byte_seqs(ommers@) =~= present(parents.take(0)));
        }
        while i < n
            invariant
                i <= n < 32,
                n == self.parents@.len(),
                parents == self@.parents,
                power == pow2((i + 1) as nat),
                power <= 0x1_0000_0000,
                leaves + 2 <= power,
                leaves == leaves_under(parents.take(i as int)),
                byte_seqs(ommers@) == present(parents.take(i as int)),
            decreases n - i,
        {
            let ghost held = byte_seqs(ommers@);
            proof {
                assert(parents.take(i + 1).drop_last() =~= parents.take(i as int));
                assert(parents.take(i + 1).last() == node_bytes(self.parents@[i as int]));
                lemma_pow2_unfold((i + 2) as nat);
                lemma2_to64();
                if i + 2 < 32 {
                    lemma_pow2_strictly_increases((i + 2) as nat, 32);
                }
                assert(pow2((i + 2) as nat) <= 0x1_0000_0000);
            }
            match self.parents[i] {
                Some(node) => {
                    ommers.push(node);
                    leaves = leaves + power;
                    proof {
                        assert(byte_seqs(ommers@) =~= held.push(node@));
                    }
                },
                None => {},
            }
            power = power * 2;
            i += 1;
        }
        proof {
            assert(parents.take(n as int) =~= parents);
        }
        Self::tip(self.left, self.right, leaves, ommers)
    }

    /// The parts for the leaves of the latest pair, over the parents gathered.
    fn tip(left: Option<[u8; 32]>, right: Option<[u8; 32]>, leaves: u64, ommers: Vec<[u8; 32]>) -> (r:
        LegacyParts)
        requires
            leaves < 0x1_0000_0000,
        ensures
            r@ == (match (node_bytes(left), node_bytes(right)) {
                (None, None) => if leaves == 0 {
                    LegacyPartsModel::Empty
                } else {
                    LegacyPartsModel::Malformed
                },
                (None, Some(_)) => LegacyPartsModel::Malformed,
                (Some(l), None) => LegacyPartsModel::Tip(
                    TipModel { position: leaves as nat, leaf: l, ommers: byte_seqs(ommers@) },
                ),
                (Some(l), Some(r)) => LegacyPartsModel::Tip(
                    TipModel {
                        position: (leaves + 1) as nat,
                        leaf: r,
                        ommers: seq![l] + byte_seqs(ommers@),
                    },
                ),
            }),
    {
        match (left, right) {
            (None, None) => if leaves == 0 {
                LegacyParts::Empty
            } else {
                LegacyParts::Malformed
            },
            (None, Some(_)) => LegacyParts::Malformed,
            (Some(l), None) => LegacyParts::Tip { position: leaves, leaf: l, ommers },
            (Some(l), Some(r)) => {
                let mut all = ommers;
                all.insert(0, l);
                proof {
                    assert(byte_seqs(all@) =~= seq![l@] + byte_seqs(ommers@));
                }
                LegacyParts::Tip { position: leaves + 1, leaf: r, ommers: all }
            },
        }
    }
}

/// The bit of `position` at `level`.
pub open spec fn bit(position: nat, level: nat) -> nat {
    (position / pow2(level)) % 2
}

/// The number of one bits of `position` at the levels from 1 to `n`.
pub open spec fn ones_above(position: nat, n: nat) -> nat
    decreases n,
{
    if n == 0 {
        0
    } else {
        ones_above(position, (n - 1) as nat) + bit(position, n)
    }
}

/// The parents at the levels from 1 to `n` of the legacy tree of a frontier:
/// at each level where the position has a one bit, the next ommer, as long
/// as one is left.
pub open spec fn parents_upto(position: nat, ommers: Seq<Seq<u8>>, n: nat) -> Seq<Option<Seq<u8>>>
    decreases n,
{
    if n == 0 {
        Seq::empty()
    } else {
        let below = ones_above(position, (n - 1) as nat);
        parents_upto(position, ommers, (n - 1) as nat).push(
            if bit(position, n) == 1 && below < ommers.len() {
                Some(ommers[below as int])
            } else {
                None
            },
        )
    }
}

/// The legacy tree of a frontier: for a left leaf, that leaf alone and the
/// ommers as parents; for a right leaf, its sibling to the left, the leaf to
/// the right, and the other ommers as parents. The empty frontier has no
/// leaf and no parent.
pub open spec fn legacy_tree_of(m: FrontierModel) -> LegacyTreeModel {
    if m.size == 0 {
        LegacyTreeModel { left: None, right: None, parents: Seq::empty() }
    } else {
        let position = (m.size - 1) as nat;
        if position % 2 == 1 {
            LegacyTreeModel {
                left: Some(m.nodes[1]),
                right: Some(m.nodes[0]),
                parents: parents_upto(position, m.nodes.skip(2), (TREE_DEPTH - 1) as nat),
            }
        } else {
            LegacyTreeModel {
                left: Some(m.nodes[0]),
                right: None,
                parents: parents_upto(position, m.nodes.skip(1), (TREE_DEPTH - 1) as nat),
            }
        }
    }
}

/// A node that may be absent as bytes: a byte 0, or a byte 1 and the node.
pub open spec fn enc_optional_node(node: Option<Seq<u8>>) -> Seq<u8> {
    match node {
        None => seq![0u8],
        Some(n) => seq![1u8] + n,
    }
}

/// The parents as bytes, one after the other.
pub open spec fn enc_parents(parents: Seq<Option<Seq<u8>>>) -> Seq<u8>
    decreases parents.len(),
{
    if parents.len() == 0 {
        Seq::empty()
    } else {
        enc_parents(parents.drop_last()) + enc_optional_node(parents.last())
    }
}

/// A legacy tree as bytes: the left leaf, the right leaf, and the list of
/// the parents, which is their number in compact form and then the parents.
pub open spec fn enc_legacy_tree(t: LegacyTreeModel) -> Seq<u8> {
    enc_optional_node(t.left) + enc_optional_node(t.right) + compact_size(t.parents.len())
        + enc_parents(t.parents)
}

/// The legacy encoding of a frontier: its legacy tree as bytes.
pub open spec fn legacy_encoding(m: FrontierModel) -> Seq<u8> {
    enc_legacy_tree(legacy_tree_of(m))
}

/// A frontier holds no node where it has no leaf, and else its latest leaf
/// and one ommer for each one bit of the position of that leaf.
pub open spec fn frontier_shaped(m: FrontierModel) -> bool {
    &&& m.size <= MAX_LEAVES
    &&& m.size == 0 ==> m.nodes.len() == 0
    &&& m.size > 0 ==> m.nodes.len() == 1 + ones((m.size - 1) as nat)
}

/// What the legacy tree of a frontier holds is the frontier.
pub open spec fn parts_of_frontier(m: FrontierModel) -> LegacyPartsModel {
    if m.size == 0 {
        LegacyPartsModel::Empty
    } else {
        LegacyPartsModel::Tip(
            TipModel { position: (m.size - 1) as nat, leaf: m.nodes[0], ommers: m.nodes.skip(1) },
        )
    }
}

/// The one bits of a number are its lowest bit, its bits at the levels from
/// 1 to `n`, and the one bits above.
pub proof fn lemma_ones_by_level(position: nat, n: nat)
    ensures
        ones(position) == position % 2 + ones_above(position, n) + ones(
            position / pow2(n + 1),
        ),
    decreases n,
{
    lemma2_to64();
    if n == 0 {
        assert(pow2(1) == 2);
        if position == 0 {
            assert(ones(0) == 0);
            assert(0nat / 2 == 0);
        }
    } else {
        lemma_ones_by_level(position, (n - 1) as nat);
        let shifted = position / pow2(n);
        lemma_pow2_pos(n);
        lemma_pow2_unfold(n + 1);
        lemma_div_denominator(position as int, pow2(n) as int, 2);
        assert(shifted / 2 == position / pow2(n + 1)) by {
            assert(pow2(n) * 2 == pow2(n + 1));
        }
        if shifted == 0 {
            assert(ones(shifted) == 0);
            assert(shifted / 2 == 0);
            assert(ones(0) == 0);
        }
        assert(ones(shifted) == shifted % 2 + ones(shifted / 2));
    }
}

/// More levels hold no fewer one bits.
pub proof fn lemma_ones_above_grows(position: nat, i: nat, n: nat)
    requires
        i <= n,
    ensures
        ones_above(position, i) <= ones_above(position, n),
    decreases n,
{
    if i < n {
        lemma_ones_above_grows(position, i, (n - 1) as nat);
    }
}

/// Of the parents up to a level, as many are there as the position has one
/// bits up to that level, and they are the ommers in order, where the ommers
/// are enough; and the leaves under them are what those bits stand for.
pub proof fn lemma_parents_upto(position: nat, ommers: Seq<Seq<u8>>, n: nat)
    requires
        ones_above(position, n) <= ommers.len(),
    ensures
        parents_upto(position, ommers, n).len() == n,
        present(parents_upto(position, ommers, n)) == ommers.take(ones_above(position, n) as int),
        leaves_under(parents_upto(position, ommers, n)) + position % 2 == position % pow2(n + 1),
    decreases n,
{
    lemma2_to64();
    if n == 0 {
        assert(ommers.take(0) =~= Seq::empty());
        assert(pow2(1) == 2);
    } else {
        let before = parents_upto(position, ommers, (n - 1) as nat);
        let below = ones_above(position, (n - 1) as nat);
        lemma_ones_above_grows(position, (n - 1) as nat, n);
        lemma_parents_upto(position, ommers, (n - 1) as nat);
        let all = parents_upto(position, ommers, n);
        assert(all.drop_last() =~= before);
        lemma_pow2_pos(n);
        lemma_pow2_unfold(n + 1);
        lemma_mod_breakdown(position as int, pow2(n) as int, 2);
        assert(pow2(n) * 2 == pow2(n + 1));
        assert(position % pow2(n + 1) == pow2(n) * bit(position, n) + position % pow2(n));
        if bit(position, n) == 1 {
            assert(below < ommers.len());
            assert(all.last() == Some(ommers[below as int]));
            assert(ommers.take(below as int).push(ommers[below as int]) =~= ommers.take(
                below as int + 1,
            ));
            assert(pow2(n) * 1 == pow2(n));
        } else {
            assert(bit(position, n) == 0);
            assert(all.last().is_none());
            assert(pow2(n) * 0 == 0);
        }
    }
}

/// The legacy tree of a frontier holds that frontier: its position, its
/// latest leaf and its ommers.
pub proof fn lemma_legacy_tree_holds_frontier(m: FrontierModel)
    requires
        frontier_shaped(m),
    ensures
        legacy_parts(legacy_tree_of(m)) == parts_of_frontier(m),
{
    lemma2_to64();
    if m.size == 0 {
        assert(leaves_under(Seq::<Option<Seq<u8>>>::empty()) == 0);
    } else {
        let position = (m.size - 1) as nat;
        let top = (TREE_DEPTH - 1) as nat;
        lemma_ones_by_level(position, top);
        assert(pow2(32) == 0x1_0000_0000);
        lemma_basic_div(position as int, pow2(32) as int);
        assert(position / pow2(top + 1) == 0);
        assert(ones(0) == 0);
        assert(ones(position) == position % 2 + ones_above(position, top));
        lemma_small_mod(position, pow2(32));
        if position % 2 == 1 {
            let rest = m.nodes.skip(2);
            lemma_parents_upto(position, rest, top);
            assert(rest.take(rest.len() as int) =~= rest);
            assert(seq![m.nodes[1]] + rest =~= m.nodes.skip(1));
        } else {
            let rest = m.nodes.skip(1);
            lemma_parents_upto(position, rest, top);
            assert(rest.take(rest.len() as int) =~= rest);
        }
    }
}

} // verus!
